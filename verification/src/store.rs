//! The in-memory task collection.
//!
//! Identifier policy (stable ids): every task receives the counter value
//! `next_id` at creation, the counter then increases, and an id is never
//! reassigned or reused, not even after a delete or a clear. Lookups for
//! delete, complete and uncomplete go by this stored id, and a miss is a
//! silent no-op.

use vstd::prelude::*;

verus! {

/// A single to-do item: a stable identifier, a free-form description and a
/// completion flag.
#[derive(Clone, Debug)]
pub struct Task {
    pub id: usize,
    pub description: String,
    pub completed: bool,
}

/// Mathematical model of a task.
pub ghost struct TaskView {
    pub id: nat,
    pub description: Seq<char>,
    pub completed: bool,
}

impl View for Task {
    type V = TaskView;

    open spec fn view(&self) -> TaskView {
        TaskView { id: self.id as nat, description: self.description@, completed: self.completed }
    }
}

/// Mathematical model of the store: the task sequence in insertion order and
/// the value the counter will assign next.
pub ghost struct StoreView {
    pub tasks: Seq<TaskView>,
    pub next_id: nat,
}

impl StoreView {
    /// The store a fresh `TaskList` holds: no tasks, counter at 1.
    pub open spec fn empty() -> StoreView {
        StoreView { tasks: Seq::empty(), next_id: 1 }
    }
}

/// The store invariant: the counter has been issued at least once started at
/// one, every live id is below the counter, and live ids are pairwise
/// distinct.
pub open spec fn valid_store(v: StoreView) -> bool {
    &&& 1 <= v.next_id <= usize::MAX
    &&& v.tasks.len() <= usize::MAX
    &&& forall|i: int| 0 <= i < v.tasks.len() ==> (#[trigger] v.tasks[i]).id < v.next_id
    &&& forall|i: int, j: int|
        0 <= i < j < v.tasks.len() ==> v.tasks[i].id != v.tasks[j].id
}

/// What `add` does to the model: append a fresh task carrying the counter
/// value, then advance the counter.
pub open spec fn spec_add(v: StoreView, description: Seq<char>) -> StoreView {
    StoreView {
        tasks: v.tasks.push(TaskView { id: v.next_id, description, completed: false }),
        next_id: v.next_id + 1,
    }
}

/// Whether some live task carries the id.
pub open spec fn has_id(tasks: Seq<TaskView>, id: nat) -> bool {
    exists|i: int| 0 <= i < tasks.len() && tasks[i].id == id
}

/// The position of the task carrying the id (unique under `valid_store`).
pub open spec fn idx_of(tasks: Seq<TaskView>, id: nat) -> int {
    choose|i: int| 0 <= i < tasks.len() && tasks[i].id == id
}

/// What `delete` does to the model: remove the task carrying the id, or
/// nothing when no task carries it.
pub open spec fn spec_delete(v: StoreView, id: nat) -> StoreView {
    if has_id(v.tasks, id) {
        StoreView { tasks: v.tasks.remove(idx_of(v.tasks, id)), next_id: v.next_id }
    } else {
        v
    }
}

/// The task with its completion flag replaced.
pub open spec fn with_completed(t: TaskView, done: bool) -> TaskView {
    TaskView { id: t.id, description: t.description, completed: done }
}

/// What `complete` (`done == true`) and `uncomplete` (`done == false`) do to
/// the model: set the flag of the task carrying the id, or nothing when no
/// task carries it.
pub open spec fn spec_set_completed(v: StoreView, id: nat, done: bool) -> StoreView {
    if has_id(v.tasks, id) {
        let k = idx_of(v.tasks, id);
        StoreView { tasks: v.tasks.update(k, with_completed(v.tasks[k], done)), next_id: v.next_id }
    } else {
        v
    }
}

/// What `flush` does to the model: drop every task, keep the counter.
pub open spec fn spec_clear(v: StoreView) -> StoreView {
    StoreView { tasks: Seq::empty(), next_id: v.next_id }
}

impl Task {
    /// A task begins life not completed.
    pub fn new(id: usize, description: String) -> (r: Task)
        ensures
            r@ == (TaskView { id: id as nat, description: description@, completed: false }),
    {
        Task { id, description, completed: false }
    }
}

/// The ordered task collection together with the id counter.
pub struct TaskList {
    tasks: Vec<Task>,
    next_id: usize,
}

impl View for TaskList {
    type V = StoreView;

    closed spec fn view(&self) -> StoreView {
        StoreView {
            tasks: self.tasks@.map_values(|t: Task| t@),
            next_id: self.next_id as nat,
        }
    }
}

impl TaskList {
    /// The invariant every operation preserves.
    pub open spec fn wf(&self) -> bool {
        valid_store(self@)
    }

    /// An empty list whose counter starts at 1.
    pub fn new() -> (r: TaskList)
        ensures
            r@ == StoreView::empty(),
            r.wf(),
    {
        let r = TaskList { tasks: Vec::new(), next_id: 1 };
        proof {
            assert(r@.tasks =~= Seq::<TaskView>::empty());
        }
        r
    }

    /// Appends a task with a freshly assigned id and `completed == false`.
    /// The description is not validated; the empty string is permitted.
    pub fn add(&mut self, description: String)
        requires
            old(self).wf(),
            old(self)@.next_id < usize::MAX,
        ensures
            final(self).wf(),
            final(self)@ == spec_add(old(self)@, description@),
    {
        let id = self.next_id;
        self.tasks.push(Task::new(id, description));
        self.next_id = self.next_id + 1;
        proof {
            let pre = old(self)@;
            let post = self@;
            let t = TaskView { id: pre.next_id, description: description@, completed: false };
            assert(post.tasks =~= pre.tasks.push(t));
            assert(self.tasks.len() == self.tasks@.len());
            assert(post.tasks.len() <= usize::MAX);
            assert(forall|i: int| 0 <= i < pre.tasks.len() ==> post.tasks[i] == pre.tasks[i]);
            assert(post.tasks[pre.tasks.len() as int] == t);
            assert(forall|i: int| 0 <= i < post.tasks.len() ==> (#[trigger] post.tasks[i]).id
                < post.next_id);
            assert(forall|i: int, j: int|
                0 <= i < j < post.tasks.len() ==> post.tasks[i].id != post.tasks[j].id);
        }
    }

    /// The position of the task whose stored id is `id`, if any.
    fn find(&self, id: usize) -> (r: Option<usize>)
        requires
            self.wf(),
        ensures
            match r {
                Some(k) => {
                    &&& k < self@.tasks.len()
                    &&& self@.tasks[k as int].id == id as nat
                    &&& has_id(self@.tasks, id as nat)
                    &&& k as int == idx_of(self@.tasks, id as nat)
                },
                None => !has_id(self@.tasks, id as nat),
            },
    {
        let m = self.tasks.len();
        for k in 0..m
            invariant
                m == self.tasks@.len(),
                self.wf(),
                forall|j: int| 0 <= j < k ==> (#[trigger] self@.tasks[j]).id != id as nat,
        {
            if self.tasks[k].id == id {
                proof {
                    assert(self@.tasks[k as int].id == id as nat);
                    assert(has_id(self@.tasks, id as nat));
                    let i = idx_of(self@.tasks, id as nat);
                    assert(0 <= i < self@.tasks.len() && self@.tasks[i].id == id as nat);
                    if i != k as int {
                        assert(self@.tasks[i].id != self@.tasks[k as int].id);
                        assert(false);
                    }
                }
                return Some(k);
            }
        }
        None
    }

    /// Removes the task whose stored id is `id`; a silent no-op when no task
    /// carries that id. Other tasks keep their ids and their order, and the
    /// counter is untouched.
    pub fn delete(&mut self, id: usize)
        requires
            old(self).wf(),
        ensures
            final(self).wf(),
            final(self)@ == spec_delete(old(self)@, id as nat),
    {
        match self.find(id) {
            Some(k) => {
                self.tasks.remove(k);
                proof {
                    let pre = old(self)@;
                    let post = self@;
                    assert(post.tasks =~= pre.tasks.remove(k as int));
                    assert(forall|i: int|
                        0 <= i < post.tasks.len() ==> post.tasks[i] == (if i < k as int {
                            pre.tasks[i]
                        } else {
                            pre.tasks[i + 1]
                        }));
                    assert(post == spec_delete(pre, id as nat));
                }
            },
            None => {
                proof {
                    assert(self@ == spec_delete(old(self)@, id as nat));
                }
            },
        }
    }

    /// Sets the completion flag of the task whose stored id is `id`; a silent
    /// no-op when no task carries that id.
    fn set_completed(&mut self, id: usize, done: bool)
        requires
            old(self).wf(),
        ensures
            final(self).wf(),
            final(self)@ == spec_set_completed(old(self)@, id as nat, done),
    {
        match self.find(id) {
            Some(k) => {
                let t = &mut self.tasks[k];
                t.completed = done;
                proof {
                    let pre = old(self)@;
                    let post = self@;
                    assert(post.tasks =~= pre.tasks.update(
                        k as int,
                        with_completed(pre.tasks[k as int], done),
                    ));
                    assert(forall|i: int|
                        0 <= i < post.tasks.len() ==> (#[trigger] post.tasks[i]).id
                            == pre.tasks[i].id);
                    assert(post == spec_set_completed(pre, id as nat, done));
                }
            },
            None => {
                proof {
                    assert(self@ == spec_set_completed(old(self)@, id as nat, done));
                }
            },
        }
    }

    /// Marks the task whose stored id is `id` as done; a silent no-op when no
    /// task carries that id.
    pub fn complete(&mut self, id: usize)
        requires
            old(self).wf(),
        ensures
            final(self).wf(),
            final(self)@ == spec_set_completed(old(self)@, id as nat, true),
    {
        self.set_completed(id, true);
    }

    /// Marks the task whose stored id is `id` as not done; a silent no-op when
    /// no task carries that id.
    pub fn uncomplete(&mut self, id: usize)
        requires
            old(self).wf(),
        ensures
            final(self).wf(),
            final(self)@ == spec_set_completed(old(self)@, id as nat, false),
    {
        self.set_completed(id, false);
    }

    /// A snapshot copy of the tasks in insertion order; mutating the returned
    /// vector does not affect the store.
    pub fn get_all(&self) -> (r: Vec<Task>)
        ensures
            r@.len() == self@.tasks.len(),
            forall|i: int| 0 <= i < r@.len() ==> (#[trigger] r@[i])@ == self@.tasks[i],
    {
        let m = self.tasks.len();
        let mut r: Vec<Task> = Vec::new();
        for k in 0..m
            invariant
                m == self.tasks@.len(),
                r@.len() == k,
                forall|i: int| 0 <= i < k ==> (#[trigger] r@[i])@ == self@.tasks[i],
        {
            let t = &self.tasks[k];
            r.push(Task { id: t.id, description: t.description.clone(), completed: t.completed });
        }
        r
    }

    /// Drops every task but keeps the counter, so ids are not reused after a
    /// flush.
    pub fn flush(&mut self)
        requires
            old(self).wf(),
        ensures
            final(self).wf(),
            final(self)@ == spec_clear(old(self)@),
    {
        self.tasks = Vec::new();
        proof {
            assert(self@.tasks =~= Seq::<TaskView>::empty());
        }
    }

    /// The id the next added task will receive.
    pub fn next_id(&self) -> (r: usize)
        ensures
            r as nat == self@.next_id,
    {
        self.next_id
    }

    /// Read access to the underlying tasks, for the codec.
    pub(crate) fn tasks_ref(&self) -> (r: &Vec<Task>)
        ensures
            r@.map_values(|t: Task| t@) == self@.tasks,
    {
        &self.tasks
    }

    /// Assembles a list from parsed parts, for the codec.
    pub(crate) fn from_parts(tasks: Vec<Task>, next_id: usize) -> (r: TaskList)
        ensures
            r@ == (StoreView {
                tasks: tasks@.map_values(|t: Task| t@),
                next_id: next_id as nat,
            }),
    {
        TaskList { tasks, next_id }
    }
}

/// The model after adding a whole sequence of descriptions, one by one.
pub open spec fn spec_add_all(v: StoreView, ds: Seq<Seq<char>>) -> StoreView
    decreases ds.len(),
{
    if ds.len() == 0 {
        v
    } else {
        spec_add_all(spec_add(v, ds[0]), ds.skip(1))
    }
}

/// Adding descriptions in order appends exactly those tasks in that order:
/// earlier tasks are untouched, each new task carries its description, is not
/// completed, and receives the next counter value, and the length grows by
/// the number of additions.
pub proof fn lemma_add_all_order(v: StoreView, ds: Seq<Seq<char>>)
    ensures
        spec_add_all(v, ds).tasks.len() == v.tasks.len() + ds.len(),
        spec_add_all(v, ds).next_id == v.next_id + ds.len(),
        forall|i: int|
            0 <= i < v.tasks.len() ==> spec_add_all(v, ds).tasks[i] == v.tasks[i],
        forall|i: int|
            0 <= i < ds.len() ==> spec_add_all(v, ds).tasks[v.tasks.len() + i]
                == (TaskView { id: (v.next_id + i) as nat, description: ds[i], completed: false }),
    decreases ds.len(),
{
    if ds.len() == 0 {
    } else {
        let v1 = spec_add(v, ds[0]);
        let t0 = TaskView { id: v.next_id, description: ds[0], completed: false };
        lemma_add_all_order(v1, ds.skip(1));
        assert(spec_add_all(v, ds) == spec_add_all(v1, ds.skip(1)));
        assert(v1.tasks.len() == v.tasks.len() + 1);
        assert(v1.tasks[v.tasks.len() as int] == t0);
        assert(forall|i: int| 0 <= i < v.tasks.len() ==> v1.tasks[i] == v.tasks[i]);
        assert(forall|i: int|
            0 <= i < ds.skip(1).len() ==> ds.skip(1)[i] == ds[i + 1]);
        assert(spec_add_all(v, ds).tasks[v.tasks.len() as int] == t0);
        assert forall|i: int| 0 <= i < ds.len() implies #[trigger] spec_add_all(
            v,
            ds,
        ).tasks[v.tasks.len() + i] == (TaskView {
            id: (v.next_id + i) as nat,
            description: ds[i],
            completed: false,
        }) by {
            if i >= 1 {
                assert(spec_add_all(v1, ds.skip(1)).tasks[v1.tasks.len() + (i - 1)]
                    == (TaskView {
                    id: (v1.next_id + (i - 1)) as nat,
                    description: ds.skip(1)[i - 1],
                    completed: false,
                }));
                assert(ds.skip(1)[i - 1] == ds[i]);
            }
        }
    }
}

/// Stable-id policy: an add issues exactly the counter value, which no live
/// task carries; successive adds issue strictly increasing ids; and neither
/// delete nor clear lowers the counter, so an id is never reused.
pub proof fn lemma_stable_ids(v: StoreView, d: Seq<char>, d2: Seq<char>, id: nat)
    requires
        valid_store(v),
    ensures
        spec_add(v, d).tasks.last() == (TaskView {
            id: v.next_id,
            description: d,
            completed: false,
        }),
        forall|i: int|
            0 <= i < v.tasks.len() ==> (#[trigger] v.tasks[i]).id != spec_add(
                v,
                d,
            ).tasks.last().id,
        spec_add(v, d).next_id == v.next_id + 1,
        spec_add(spec_add(v, d), d2).tasks.last().id > spec_add(v, d).tasks.last().id,
        spec_delete(v, id).next_id == v.next_id,
        spec_set_completed(v, id, true).next_id == v.next_id,
        spec_set_completed(v, id, false).next_id == v.next_id,
        spec_clear(v).next_id == v.next_id,
{
}

/// Completing then uncompleting an id leaves that task not completed, exactly
/// as uncompleting alone would; on an id no task carries, both operations
/// change nothing.
pub proof fn lemma_complete_uncomplete(v: StoreView, id: nat)
    requires
        valid_store(v),
    ensures
        spec_set_completed(spec_set_completed(v, id, true), id, false) == spec_set_completed(
            v,
            id,
            false,
        ),
        has_id(v.tasks, id) ==> spec_set_completed(
            spec_set_completed(v, id, true),
            id,
            false,
        ).tasks[idx_of(v.tasks, id)].completed == false,
        !has_id(v.tasks, id) ==> spec_set_completed(v, id, true) == v && spec_set_completed(
            v,
            id,
            false,
        ) == v,
{
    if has_id(v.tasks, id) {
        let k = idx_of(v.tasks, id);
        assert(0 <= k < v.tasks.len() && v.tasks[k].id == id);
        let v1 = spec_set_completed(v, id, true);
        assert(forall|i: int|
            0 <= i < v1.tasks.len() ==> (#[trigger] v1.tasks[i]).id == v.tasks[i].id);
        assert(v1.tasks[k].id == id);
        assert(has_id(v1.tasks, id));
        let k1 = idx_of(v1.tasks, id);
        assert(0 <= k1 < v1.tasks.len() && v1.tasks[k1].id == id);
        if k1 != k {
            assert(v.tasks[k1].id != v.tasks[k].id);
            assert(false);
        }
        assert(spec_set_completed(v1, id, false).tasks =~= spec_set_completed(
            v,
            id,
            false,
        ).tasks);
    }
}

/// Deleting the same id twice has the same effect as deleting it once: after
/// the first delete no task carries the id, so the second is a no-op.
pub proof fn lemma_delete_idempotent(v: StoreView, id: nat)
    requires
        valid_store(v),
    ensures
        spec_delete(spec_delete(v, id), id) == spec_delete(v, id),
{
    if has_id(v.tasks, id) {
        let k = idx_of(v.tasks, id);
        assert(0 <= k < v.tasks.len() && v.tasks[k].id == id);
        let v1 = spec_delete(v, id);
        assert(forall|i: int|
            0 <= i < v1.tasks.len() ==> v1.tasks[i] == (if i < k {
                v.tasks[i]
            } else {
                v.tasks[i + 1]
            }));
        assert forall|i: int| 0 <= i < v1.tasks.len() implies (#[trigger] v1.tasks[i]).id
            != id by {
            if i < k {
                assert(v.tasks[i].id != v.tasks[k].id);
            } else {
                assert(v.tasks[i + 1].id != v.tasks[k].id);
            }
        }
        assert(!has_id(v1.tasks, id));
    }
}

/// Clearing empties the list but keeps the counter: the next add issues an id
/// strictly greater than every id that was live before the clear.
pub proof fn lemma_clear_keeps_counter(v: StoreView, d: Seq<char>)
    requires
        valid_store(v),
    ensures
        spec_clear(v).tasks.len() == 0,
        spec_add(spec_clear(v), d).tasks[0].id == v.next_id,
        forall|i: int|
            0 <= i < v.tasks.len() ==> (#[trigger] v.tasks[i]).id < spec_add(
                spec_clear(v),
                d,
            ).tasks[0].id,
{
}

} // verus!
