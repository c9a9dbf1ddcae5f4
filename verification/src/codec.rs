//! The persisted text format and its codec.
//!
//! A store is written as a human-readable, line-oriented text: a `next_id`
//! line, a `tasks` line carrying the task count, and then per task an `id`
//! line, a `completed` line (`0` or `1`), a `description` line carrying the
//! description's character count, and the description itself, raw, on a line
//! of its own (the count, not the newline, delimits it, so descriptions may
//! contain any characters, newlines included).
//!
//! [`save`] renders exactly [`encode_store`]; [`load`] computes exactly
//! [`parse_store`], falling back to the empty store whenever the text is not
//! an encoding of a valid store; and [`lemma_save_load_round_trip`] proves
//! that decoding an encoding gives the store back.

use vstd::prelude::*;
use vstd::string::StrSliceExecFns;
use vstd::string::StringExecFns;
use crate::digits::{
    dec_rep, parse_num, is_digit, lemma_parse_num_encoding, num_to_string, read_num,
};
use crate::store::{StoreView, TaskView, Task, TaskList, valid_store};

verus! {

/// The keyword opening the counter line.
pub open spec fn lit_next_id() -> Seq<char> {
    seq!['n', 'e', 'x', 't', '_', 'i', 'd', ' ']
}

/// The keyword opening the task-count line.
pub open spec fn lit_tasks() -> Seq<char> {
    seq!['t', 'a', 's', 'k', 's', ' ']
}

/// The keyword opening a task's id line.
pub open spec fn lit_id() -> Seq<char> {
    seq!['i', 'd', ' ']
}

/// The keyword opening a task's completion line.
pub open spec fn lit_completed() -> Seq<char> {
    seq!['c', 'o', 'm', 'p', 'l', 'e', 't', 'e', 'd', ' ']
}

/// The keyword opening a task's description-length line.
pub open spec fn lit_description() -> Seq<char> {
    seq!['d', 'e', 's', 'c', 'r', 'i', 'p', 't', 'i', 'o', 'n', ' ']
}

/// The completion flag as one character.
pub open spec fn encode_bool(b: bool) -> Seq<char> {
    if b {
        seq!['1']
    } else {
        seq!['0']
    }
}

/// One task's lines.
pub open spec fn encode_task(t: TaskView) -> Seq<char> {
    lit_id() + dec_rep(t.id) + seq!['\n'] + lit_completed() + encode_bool(t.completed)
        + seq!['\n'] + lit_description() + dec_rep(t.description.len()) + seq!['\n']
        + t.description + seq!['\n']
}

/// All tasks' lines, in order.
pub open spec fn encode_tasks(ts: Seq<TaskView>) -> Seq<char>
    decreases ts.len(),
{
    if ts.len() == 0 {
        Seq::empty()
    } else {
        encode_task(ts[0]) + encode_tasks(ts.skip(1))
    }
}

/// The whole persisted text of a store.
pub open spec fn encode_store(v: StoreView) -> Seq<char> {
    lit_next_id() + dec_rep(v.next_id) + seq!['\n'] + lit_tasks() + dec_rep(v.tasks.len())
        + seq!['\n'] + encode_tasks(v.tasks)
}

/// Consumes an expected literal.
pub open spec fn parse_lit(s: Seq<char>, lit: Seq<char>) -> Option<Seq<char>> {
    if lit.len() <= s.len() && s.take(lit.len() as int) == lit {
        Some(s.skip(lit.len() as int))
    } else {
        None
    }
}

/// Consumes one newline.
pub open spec fn parse_newline(s: Seq<char>) -> Option<Seq<char>> {
    if s.len() > 0 && s[0] == '\n' {
        Some(s.skip(1))
    } else {
        None
    }
}

/// Consumes one completion-flag character.
pub open spec fn parse_bool(s: Seq<char>) -> Option<(bool, Seq<char>)> {
    if s.len() > 0 && s[0] == '1' {
        Some((true, s.skip(1)))
    } else if s.len() > 0 && s[0] == '0' {
        Some((false, s.skip(1)))
    } else {
        None
    }
}

/// Consumes a number followed by a newline.
pub open spec fn parse_num_nl(s: Seq<char>) -> Option<(nat, Seq<char>)> {
    match parse_num(s) {
        Some((v, r)) => match parse_newline(r) {
            Some(r2) => Some((v, r2)),
            None => None,
        },
        None => None,
    }
}

/// Consumes one task's lines.
pub open spec fn parse_task(s: Seq<char>) -> Option<(TaskView, Seq<char>)> {
    match parse_lit(s, lit_id()) {
        Some(r) => match parse_num_nl(r) {
            Some((id, r)) => match parse_lit(r, lit_completed()) {
                Some(r) => match parse_bool(r) {
                    Some((done, r)) => match parse_newline(r) {
                        Some(r) => match parse_lit(r, lit_description()) {
                            Some(r) => match parse_num_nl(r) {
                                Some((dl, r)) => if dl <= r.len() {
                                    match parse_newline(r.skip(dl as int)) {
                                        Some(r2) => Some(
                                            (
                                                TaskView {
                                                    id,
                                                    description: r.take(dl as int),
                                                    completed: done,
                                                },
                                                r2,
                                            ),
                                        ),
                                        None => None,
                                    }
                                } else {
                                    None
                                },
                                None => None,
                            },
                            None => None,
                        },
                        None => None,
                    },
                    None => None,
                },
                None => None,
            },
            None => None,
        },
        None => None,
    }
}

/// Consumes exactly `count` tasks.
pub open spec fn parse_tasks(s: Seq<char>, count: nat) -> Option<(Seq<TaskView>, Seq<char>)>
    decreases count,
{
    if count == 0 {
        Some((Seq::empty(), s))
    } else {
        match parse_task(s) {
            Some((t, r)) => match parse_tasks(r, (count - 1) as nat) {
                Some((ts, r2)) => Some((seq![t] + ts, r2)),
                None => None,
            },
            None => None,
        }
    }
}

/// The whole decoder: the text must be consumed completely and the resulting
/// store must satisfy the store invariant, else the text does not decode.
pub open spec fn parse_store(s: Seq<char>) -> Option<StoreView> {
    match parse_lit(s, lit_next_id()) {
        Some(r) => match parse_num_nl(r) {
            Some((nid, r)) => match parse_lit(r, lit_tasks()) {
                Some(r) => match parse_num_nl(r) {
                    Some((count, r)) => match parse_tasks(r, count) {
                        Some((ts, r2)) => if r2.len() == 0 {
                            let v = StoreView { tasks: ts, next_id: nid };
                            if valid_store(v) {
                                Some(v)
                            } else {
                                None
                            }
                        } else {
                            None
                        },
                        None => None,
                    },
                    None => None,
                },
                None => None,
            },
            None => None,
        },
        None => None,
    }
}

/// Whether every description's length fits a `usize`; true of any store a
/// `TaskList` can hold, and needed so the lengths written by the encoder can
/// be read back.
pub open spec fn descriptions_bounded(v: StoreView) -> bool {
    forall|i: int|
        0 <= i < v.tasks.len() ==> (#[trigger] v.tasks[i]).description.len() <= usize::MAX
}

/// A literal parses off the front of what the encoder put it in front of.
pub proof fn lemma_parse_lit(lit: Seq<char>, rest: Seq<char>)
    ensures
        parse_lit(lit + rest, lit) == Some(rest),
{
    assert((lit + rest).take(lit.len() as int) =~= lit);
    assert((lit + rest).skip(lit.len() as int) =~= rest);
}

/// A numeral-plus-newline line parses back to its number.
pub proof fn lemma_parse_num_nl(nv: nat, rest: Seq<char>)
    ensures
        nv <= usize::MAX ==> parse_num_nl(dec_rep(nv) + seq!['\n'] + rest) == Some((nv, rest)),
{
    if nv <= usize::MAX {
        let r2 = seq!['\n'] + rest;
        assert(dec_rep(nv) + seq!['\n'] + rest =~= dec_rep(nv) + r2);
        assert(!is_digit('\n'));
        assert(r2[0] == '\n');
        lemma_parse_num_encoding(nv, r2);
        assert(parse_newline(r2) == Some(r2.skip(1)));
        assert(r2.skip(1) =~= rest);
    }
}

/// One encoded task parses back to itself, leaving the rest untouched.
#[verifier::spinoff_prover]
#[verifier::rlimit(50)]
pub proof fn lemma_parse_task(t: TaskView, rest: Seq<char>)
    requires
        t.id <= usize::MAX,
        t.description.len() <= usize::MAX,
    ensures
        parse_task(encode_task(t) + rest) == Some((t, rest)),
{
    let s0 = encode_task(t) + rest;
    let a3 = t.description + seq!['\n'] + rest;
    let a2 = lit_description() + dec_rep(t.description.len()) + seq!['\n'] + a3;
    let a1 = lit_completed() + encode_bool(t.completed) + seq!['\n'] + a2;

    assert(s0 =~= lit_id() + (dec_rep(t.id) + seq!['\n'] + a1));
    lemma_parse_lit(lit_id(), dec_rep(t.id) + seq!['\n'] + a1);
    lemma_parse_num_nl(t.id, a1);

    assert(a1 =~= lit_completed() + (encode_bool(t.completed) + seq!['\n'] + a2));
    lemma_parse_lit(lit_completed(), encode_bool(t.completed) + seq!['\n'] + a2);
    let b = encode_bool(t.completed) + seq!['\n'] + a2;
    assert(b[0] == (if t.completed {
        '1'
    } else {
        '0'
    }));
    assert(b.skip(1) =~= seq!['\n'] + a2);
    assert(parse_bool(b) == Some((t.completed, seq!['\n'] + a2)));
    assert(parse_newline(seq!['\n'] + a2) == Some((seq!['\n'] + a2).skip(1)));
    assert((seq!['\n'] + a2).skip(1) =~= a2);

    assert(a2 =~= lit_description() + (dec_rep(t.description.len()) + seq!['\n'] + a3));
    lemma_parse_lit(lit_description(), dec_rep(t.description.len()) + seq!['\n'] + a3);
    lemma_parse_num_nl(t.description.len(), a3);

    let dl = t.description.len() as int;
    assert(dl <= a3.len());
    assert(a3.take(dl) =~= t.description);
    assert(a3.skip(dl) =~= seq!['\n'] + rest);
    assert(parse_newline(seq!['\n'] + rest) == Some((seq!['\n'] + rest).skip(1)));
    assert((seq!['\n'] + rest).skip(1) =~= rest);

    assert(parse_task(s0) == Some(
        (TaskView { id: t.id, description: a3.take(dl), completed: t.completed }, rest),
    ));
    assert(TaskView { id: t.id, description: a3.take(dl), completed: t.completed } == t);
}

/// An encoded task sequence parses back to itself, task by task.
pub proof fn lemma_parse_tasks(ts: Seq<TaskView>, rest: Seq<char>)
    requires
        forall|i: int|
            0 <= i < ts.len() ==> (#[trigger] ts[i]).id <= usize::MAX
                && ts[i].description.len() <= usize::MAX,
    ensures
        parse_tasks(encode_tasks(ts) + rest, ts.len()) == Some((ts, rest)),
    decreases ts.len(),
{
    if ts.len() == 0 {
        assert(encode_tasks(ts) + rest =~= rest);
        assert(ts =~= Seq::<TaskView>::empty());
    } else {
        let tail = ts.skip(1);
        assert(forall|i: int| 0 <= i < tail.len() ==> tail[i] == ts[i + 1]);
        assert(encode_tasks(ts) + rest =~= encode_task(ts[0]) + (encode_tasks(tail) + rest));
        lemma_parse_task(ts[0], encode_tasks(tail) + rest);
        lemma_parse_tasks(tail, rest);
        assert(seq![ts[0]] + tail =~= ts);
    }
}

/// Round trip: decoding the encoding of any valid store yields exactly that
/// store. Together with the contracts of [`save`] and [`load`] this says
/// `load(save(S)) == S`, task list and counter compared field by field.
pub proof fn lemma_save_load_round_trip(v: StoreView)
    requires
        valid_store(v),
        descriptions_bounded(v),
    ensures
        parse_store(encode_store(v)) == Some(v),
{
    let nothing = Seq::<char>::empty();
    let a2 = encode_tasks(v.tasks) + nothing;
    let a1 = lit_tasks() + dec_rep(v.tasks.len()) + seq!['\n'] + a2;
    let s0 = encode_store(v);

    assert(s0 =~= lit_next_id() + (dec_rep(v.next_id) + seq!['\n'] + a1));
    lemma_parse_lit(lit_next_id(), dec_rep(v.next_id) + seq!['\n'] + a1);
    lemma_parse_num_nl(v.next_id, a1);

    assert(a1 =~= lit_tasks() + (dec_rep(v.tasks.len()) + seq!['\n'] + a2));
    lemma_parse_lit(lit_tasks(), dec_rep(v.tasks.len()) + seq!['\n'] + a2);
    lemma_parse_num_nl(v.tasks.len(), a2);

    assert(forall|i: int|
        0 <= i < v.tasks.len() ==> (#[trigger] v.tasks[i]).id <= usize::MAX
            && v.tasks[i].description.len() <= usize::MAX);
    lemma_parse_tasks(v.tasks, nothing);
    assert(a2 =~= encode_tasks(v.tasks));
    assert(parse_store(s0) == Some(v));
}

/// The `next_id ` keyword as source text.
fn lit_next_id_str() -> (r: &'static str)
    ensures
        r@ == lit_next_id(),
{
    proof {
        reveal_strlit("next_id ");
    }
    let r = "next_id ";
    proof {
        assert(r@ =~= lit_next_id());
    }
    r
}

/// The `tasks ` keyword as source text.
fn lit_tasks_str() -> (r: &'static str)
    ensures
        r@ == lit_tasks(),
{
    proof {
        reveal_strlit("tasks ");
    }
    let r = "tasks ";
    proof {
        assert(r@ =~= lit_tasks());
    }
    r
}

/// The `id ` keyword as source text.
fn lit_id_str() -> (r: &'static str)
    ensures
        r@ == lit_id(),
{
    proof {
        reveal_strlit("id ");
    }
    let r = "id ";
    proof {
        assert(r@ =~= lit_id());
    }
    r
}

/// The `completed ` keyword as source text.
fn lit_completed_str() -> (r: &'static str)
    ensures
        r@ == lit_completed(),
{
    proof {
        reveal_strlit("completed ");
    }
    let r = "completed ";
    proof {
        assert(r@ =~= lit_completed());
    }
    r
}

/// The `description ` keyword as source text.
fn lit_description_str() -> (r: &'static str)
    ensures
        r@ == lit_description(),
{
    proof {
        reveal_strlit("description ");
    }
    let r = "description ";
    proof {
        assert(r@ =~= lit_description());
    }
    r
}

/// A newline as source text.
fn newline_str() -> (r: &'static str)
    ensures
        r@ == seq!['\n'],
{
    proof {
        reveal_strlit("\n");
    }
    let r = "\n";
    proof {
        assert(r@ =~= seq!['\n']);
    }
    r
}

/// The completion flag as source text.
fn bool_str(b: bool) -> (r: &'static str)
    ensures
        r@ == encode_bool(b),
{
    proof {
        reveal_strlit("0");
        reveal_strlit("1");
    }
    let r = if b {
        "1"
    } else {
        "0"
    };
    proof {
        assert(r@ =~= encode_bool(b));
    }
    r
}

/// Appends one task's lines to the output.
fn write_task(out: &mut String, t: &Task)
    ensures
        final(out)@ == old(out)@ + encode_task(t@),
{
    out.append(lit_id_str());
    let id_s = num_to_string(t.id);
    out.append(id_s.as_str());
    out.append(newline_str());
    out.append(lit_completed_str());
    out.append(bool_str(t.completed));
    out.append(newline_str());
    out.append(lit_description_str());
    let dl = t.description.as_str().unicode_len();
    let dl_s = num_to_string(dl);
    out.append(dl_s.as_str());
    out.append(newline_str());
    out.append(t.description.as_str());
    out.append(newline_str());
    proof {
        assert(out@ =~= old(out)@ + encode_task(t@));
    }
}

/// Appending one more task extends the encoding of a prefix by that task's
/// lines.
proof fn lemma_encode_tasks_snoc(ts: Seq<TaskView>, k: int)
    requires
        0 <= k < ts.len(),
    ensures
        encode_tasks(ts.take(k + 1)) == encode_tasks(ts.take(k)) + encode_task(ts[k]),
    decreases k,
{
    if k == 0 {
        assert(ts.take(1)[0] == ts[0]);
        assert(ts.take(1).skip(1) =~= Seq::<TaskView>::empty());
        assert(ts.take(0) =~= Seq::<TaskView>::empty());
        assert(encode_tasks(ts.take(1)) =~= encode_tasks(ts.take(0)) + encode_task(ts[0]));
    } else {
        lemma_encode_tasks_snoc(ts.skip(1), k - 1);
        assert(ts.take(k + 1).skip(1) =~= ts.skip(1).take(k));
        assert(ts.take(k).skip(1) =~= ts.skip(1).take(k - 1));
        assert(ts.take(k + 1)[0] == ts[0]);
        assert(ts.take(k)[0] == ts[0]);
        assert(ts.skip(1)[k - 1] == ts[k]);
        assert(encode_tasks(ts.take(k + 1)) =~= encode_tasks(ts.take(k)) + encode_task(ts[k]));
    }
}

/// Renders the whole store as its persisted text.
pub fn save(list: &TaskList) -> (r: String)
    ensures
        r@ == encode_store(list@),
{
    let mut out = String::new();
    out.append(lit_next_id_str());
    let nid_s = num_to_string(list.next_id());
    out.append(nid_s.as_str());
    out.append(newline_str());
    out.append(lit_tasks_str());
    let ts = list.tasks_ref();
    let m = ts.len();
    let cnt_s = num_to_string(m);
    out.append(cnt_s.as_str());
    out.append(newline_str());
    let ghost header = out@;
    proof {
        assert(list@.tasks.take(0) =~= Seq::<TaskView>::empty());
        assert(out@ =~= header + encode_tasks(list@.tasks.take(0)));
    }
    for k in 0..m
        invariant
            m == ts@.len(),
            ts@.map_values(|t: Task| t@) == list@.tasks,
            out@ == header + encode_tasks(list@.tasks.take(k as int)),
    {
        write_task(&mut out, &ts[k]);
        proof {
            assert(ts[k as int]@ == list@.tasks[k as int]);
            lemma_encode_tasks_snoc(list@.tasks, k as int);
            assert(out@ =~= header + encode_tasks(list@.tasks.take(k + 1)));
        }
    }
    proof {
        assert(list@.tasks.take(m as int) =~= list@.tasks);
        assert(out@ =~= encode_store(list@));
    }
    out
}

/// Consumes the literal `lit` at character position `pos` of `s`; `n` is the
/// character length of `s`.
fn expect_lit(s: &str, n: usize, pos: usize, lit: &str) -> (r: Option<usize>)
    requires
        n == s@.len(),
        pos <= n,
    ensures
        match r {
            Some(p2) => {
                &&& pos <= p2 <= n
                &&& parse_lit(s@.skip(pos as int), lit@) == Some(s@.skip(p2 as int))
            },
            None => parse_lit(s@.skip(pos as int), lit@) is None,
        },
{
    let l = lit.unicode_len();
    if l > n - pos {
        proof {
            assert(s@.skip(pos as int).len() == n - pos);
        }
        return None;
    }
    let mut i: usize = 0;
    while i < l
        invariant
            n == s@.len(),
            pos + l <= n,
            i <= l,
            l == lit@.len(),
            forall|j: int| 0 <= j < i ==> s@[pos + j] == lit@[j],
        decreases l - i,
    {
        if s.get_char(pos + i) != lit.get_char(i) {
            proof {
                let suf = s@.skip(pos as int);
                assert(suf.take(l as int)[i as int] == s@[pos + i]);
                assert(suf.take(l as int) != lit@);
            }
            return None;
        }
        i = i + 1;
    }
    proof {
        let suf = s@.skip(pos as int);
        assert(suf.take(l as int) =~= lit@);
        assert(suf.skip(l as int) =~= s@.skip(pos + l));
    }
    Some(pos + l)
}

/// Consumes one newline at character position `pos`.
fn expect_newline(s: &str, n: usize, pos: usize) -> (r: Option<usize>)
    requires
        n == s@.len(),
        pos <= n,
    ensures
        match r {
            Some(p2) => {
                &&& pos < p2 <= n
                &&& parse_newline(s@.skip(pos as int)) == Some(s@.skip(p2 as int))
            },
            None => parse_newline(s@.skip(pos as int)) is None,
        },
{
    if pos < n {
        let c = s.get_char(pos);
        if c == '\n' {
            proof {
                assert(s@.skip(pos as int)[0] == s@[pos as int]);
                assert(s@.skip(pos as int).skip(1) =~= s@.skip(pos + 1));
            }
            return Some(pos + 1);
        }
        proof {
            assert(s@.skip(pos as int)[0] == s@[pos as int]);
        }
        None
    } else {
        proof {
            assert(s@.skip(pos as int).len() == 0);
        }
        None
    }
}

/// Consumes one completion-flag character at character position `pos`.
fn read_bool(s: &str, n: usize, pos: usize) -> (r: Option<(bool, usize)>)
    requires
        n == s@.len(),
        pos <= n,
    ensures
        match r {
            Some(p) => {
                &&& pos < p.1 <= n
                &&& parse_bool(s@.skip(pos as int)) == Some((p.0, s@.skip(p.1 as int)))
            },
            None => parse_bool(s@.skip(pos as int)) is None,
        },
{
    if pos < n {
        let c = s.get_char(pos);
        proof {
            assert(s@.skip(pos as int)[0] == s@[pos as int]);
            assert(s@.skip(pos as int).skip(1) =~= s@.skip(pos + 1));
        }
        if c == '1' {
            return Some((true, pos + 1));
        }
        if c == '0' {
            return Some((false, pos + 1));
        }
        None
    } else {
        proof {
            assert(s@.skip(pos as int).len() == 0);
        }
        None
    }
}

/// Consumes a number and the newline after it.
fn read_num_nl(s: &str, n: usize, pos: usize) -> (r: Option<(usize, usize)>)
    requires
        n == s@.len(),
        pos <= n,
    ensures
        match r {
            Some(p) => {
                &&& pos < p.1 <= n
                &&& parse_num_nl(s@.skip(pos as int)) == Some((p.0 as nat, s@.skip(p.1 as int)))
            },
            None => parse_num_nl(s@.skip(pos as int)) is None,
        },
{
    match read_num(s, n, pos) {
        Some((v, p1)) => match expect_newline(s, n, p1) {
            Some(p2) => Some((v, p2)),
            None => None,
        },
        None => None,
    }
}

/// Consumes one task's lines starting at character position `pos`.
fn read_task(s: &str, n: usize, pos: usize) -> (r: Option<(Task, usize)>)
    requires
        n == s@.len(),
        pos <= n,
    ensures
        match r {
            Some(p) => {
                &&& pos <= p.1 <= n
                &&& parse_task(s@.skip(pos as int)) == Some((p.0@, s@.skip(p.1 as int)))
            },
            None => parse_task(s@.skip(pos as int)) is None,
        },
{
    let p = match expect_lit(s, n, pos, lit_id_str()) {
        Some(p) => p,
        None => {
            return None;
        },
    };
    let (id, p) = match read_num_nl(s, n, p) {
        Some(x) => x,
        None => {
            return None;
        },
    };
    let p = match expect_lit(s, n, p, lit_completed_str()) {
        Some(p) => p,
        None => {
            return None;
        },
    };
    let (done, p) = match read_bool(s, n, p) {
        Some(x) => x,
        None => {
            return None;
        },
    };
    let p = match expect_newline(s, n, p) {
        Some(p) => p,
        None => {
            return None;
        },
    };
    let p = match expect_lit(s, n, p, lit_description_str()) {
        Some(p) => p,
        None => {
            return None;
        },
    };
    let (dl, p) = match read_num_nl(s, n, p) {
        Some(x) => x,
        None => {
            return None;
        },
    };
    if dl > n - p {
        proof {
            assert(s@.skip(p as int).len() == n - p);
        }
        return None;
    }
    let desc = s.substring_char(p, p + dl).to_owned();
    let p2 = p + dl;
    proof {
        assert(s@.skip(p as int).take(dl as int) =~= s@.subrange(p as int, p2 as int));
        assert(s@.skip(p as int).skip(dl as int) =~= s@.skip(p2 as int));
    }
    let p3 = match expect_newline(s, n, p2) {
        Some(p) => p,
        None => {
            return None;
        },
    };
    let t = Task { id, description: desc, completed: done };
    proof {
        assert(t@ == (TaskView { id: id as nat, description: desc@, completed: done }));
        assert(parse_task(s@.skip(pos as int)) == Some((t@, s@.skip(p3 as int))));
    }
    Some((t, p3))
}

/// Consumes exactly `count` tasks starting at character position `pos`.
fn read_tasks(s: &str, n: usize, pos: usize, count: usize) -> (r: Option<(Vec<Task>, usize)>)
    requires
        n == s@.len(),
        pos <= n,
    ensures
        match r {
            Some(p) => {
                &&& pos <= p.1 <= n
                &&& parse_tasks(s@.skip(pos as int), count as nat) == Some(
                    (p.0@.map_values(|t: Task| t@), s@.skip(p.1 as int)),
                )
            },
            None => parse_tasks(s@.skip(pos as int), count as nat) is None,
        },
{
    let mut ts: Vec<Task> = Vec::new();
    let mut p = pos;
    let mut i: usize = 0;
    proof {
        assert(ts@.map_values(|t: Task| t@) =~= Seq::<TaskView>::empty());
    }
    while i < count
        invariant
            n == s@.len(),
            pos <= p <= n,
            i <= count,
            match parse_tasks(s@.skip(p as int), (count - i) as nat) {
                Some(g) => parse_tasks(s@.skip(pos as int), count as nat) == Some(
                    (ts@.map_values(|t: Task| t@) + g.0, g.1),
                ),
                None => parse_tasks(s@.skip(pos as int), count as nat) is None,
            },
        decreases count - i,
    {
        match read_task(s, n, p) {
            None => {
                return None;
            },
            Some((t, p2)) => {
                proof {
                    let before = ts@.map_values(|tk: Task| tk@);
                    let after = ts@.push(t).map_values(|tk: Task| tk@);
                    assert(after =~= before + seq![t@]);
                    match parse_tasks(s@.skip(p2 as int), (count - i - 1) as nat) {
                        Some(g2) => {
                            assert(parse_tasks(s@.skip(p as int), (count - i) as nat) == Some(
                                (seq![t@] + g2.0, g2.1),
                            ));
                            assert(before + (seq![t@] + g2.0) =~= after + g2.0);
                        },
                        None => {
                            assert(parse_tasks(s@.skip(p as int), (count - i) as nat) is None);
                        },
                    }
                }
                ts.push(t);
                p = p2;
                i = i + 1;
            },
        }
    }
    proof {
        assert(parse_tasks(s@.skip(p as int), 0) == Some(
            (Seq::<TaskView>::empty(), s@.skip(p as int)),
        ));
        assert(ts@.map_values(|t: Task| t@) + Seq::<TaskView>::empty() =~= ts@.map_values(
            |t: Task| t@,
        ));
    }
    Some((ts, p))
}

/// Decides whether the parsed parts form a valid store: a positive counter,
/// every id below it, and no id repeated.
fn check_valid(tasks: &Vec<Task>, next_id: usize) -> (r: bool)
    ensures
        r == valid_store(
            StoreView { tasks: tasks@.map_values(|t: Task| t@), next_id: next_id as nat },
        ),
{
    let ghost v = StoreView { tasks: tasks@.map_values(|t: Task| t@), next_id: next_id as nat };
    if next_id == 0 {
        return false;
    }
    let m = tasks.len();
    proof {
        assert(tasks.len() == tasks@.len());
        assert(v.tasks.len() <= usize::MAX);
    }
    let mut i: usize = 0;
    while i < m
        invariant
            m == tasks@.len(),
            i <= m,
            next_id >= 1,
            v == (StoreView {
                tasks: tasks@.map_values(|t: Task| t@),
                next_id: next_id as nat,
            }),
            forall|a: int| 0 <= a < i ==> (#[trigger] v.tasks[a]).id < v.next_id,
            forall|a: int, b: int| 0 <= a < i && a < b < v.tasks.len() ==> v.tasks[a].id
                != v.tasks[b].id,
        decreases m - i,
    {
        if tasks[i].id >= next_id {
            proof {
                assert(v.tasks[i as int].id >= v.next_id);
            }
            return false;
        }
        let mut j: usize = i + 1;
        while j < m
            invariant
                m == tasks@.len(),
                i < j <= m,
                v == (StoreView {
                    tasks: tasks@.map_values(|t: Task| t@),
                    next_id: next_id as nat,
                }),
                forall|b: int| i < b < j ==> v.tasks[i as int].id != (#[trigger] v.tasks[b]).id,
            decreases m - j,
        {
            if tasks[j].id == tasks[i].id {
                proof {
                    assert(v.tasks[i as int].id == v.tasks[j as int].id);
                }
                return false;
            }
            j = j + 1;
        }
        i = i + 1;
    }
    true
}

/// Decodes the persisted text. Exactly the texts [`parse_store`] accepts come
/// back as their store; every other text — truncated, malformed, trailing
/// garbage, or describing an invalid store — yields the empty store, and no
/// error is surfaced.
pub fn load(s: &str) -> (r: TaskList)
    ensures
        match parse_store(s@) {
            Some(v) => r@ == v,
            None => r@ == StoreView::empty(),
        },
        r.wf(),
{
    let n = s.unicode_len();
    proof {
        assert(s@.skip(0) =~= s@);
    }
    let p = match expect_lit(s, n, 0, lit_next_id_str()) {
        Some(p) => p,
        None => {
            return TaskList::new();
        },
    };
    let (nid, p) = match read_num_nl(s, n, p) {
        Some(x) => x,
        None => {
            return TaskList::new();
        },
    };
    let p = match expect_lit(s, n, p, lit_tasks_str()) {
        Some(p) => p,
        None => {
            return TaskList::new();
        },
    };
    let (count, p) = match read_num_nl(s, n, p) {
        Some(x) => x,
        None => {
            return TaskList::new();
        },
    };
    let (tasks, p2) = match read_tasks(s, n, p, count) {
        Some(x) => x,
        None => {
            return TaskList::new();
        },
    };
    if p2 < n {
        proof {
            assert(s@.skip(p2 as int).len() > 0);
        }
        return TaskList::new();
    }
    proof {
        assert(s@.skip(p2 as int).len() == 0);
    }
    if !check_valid(&tasks, nid) {
        return TaskList::new();
    }
    let r = TaskList::from_parts(tasks, nid);
    proof {
        assert(parse_store(s@) == Some(r@));
    }
    r
}

} // verus!
