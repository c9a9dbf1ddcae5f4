use tasktrack::store::TaskList;

#[test]
fn test_list() {
    let mut task_list = TaskList::new();
    task_list.add("Test1".to_string());
    task_list.add("Test2".to_string());
    task_list.add("Test3".to_string());

    let all_tasks = task_list.get_all();
    assert_eq!(all_tasks[0].description, "Test1".to_string());
    assert_eq!(all_tasks[1].description, "Test2".to_string());
    assert_eq!(all_tasks[2].description, "Test3".to_string());
    assert_eq!(all_tasks.len(), 3);

    task_list.delete(2);
    assert_eq!(task_list.get_all()[1].description, "Test3".to_string());
    assert_eq!(task_list.get_all().len(), 2);

    task_list.complete(1);
    assert!(task_list.get_all()[0].completed);
}

#[test]
fn add_preserves_order_and_length() {
    let mut list = TaskList::new();
    let descriptions = ["alpha", "beta", "gamma", "delta", "epsilon"];
    for d in descriptions.iter() {
        list.add(d.to_string());
    }
    let all = list.get_all();
    assert_eq!(all.len(), 5);
    for (i, d) in descriptions.iter().enumerate() {
        assert_eq!(all[i].description, d.to_string());
        assert!(!all[i].completed);
    }
}

#[test]
fn ids_strictly_increase_and_are_never_reused() {
    let mut list = TaskList::new();
    list.add("a".to_string());
    list.add("b".to_string());
    list.add("c".to_string());
    let all = list.get_all();
    assert_eq!(all[0].id, 1);
    assert_eq!(all[1].id, 2);
    assert_eq!(all[2].id, 3);

    list.delete(2);
    list.add("d".to_string());
    let all = list.get_all();
    assert_eq!(all.len(), 3);
    assert_eq!(all[2].id, 4);

    list.flush();
    list.add("e".to_string());
    let all = list.get_all();
    assert_eq!(all.len(), 1);
    assert_eq!(all[0].id, 5);
}

#[test]
fn complete_then_uncomplete_restores() {
    let mut list = TaskList::new();
    list.add("a".to_string());
    list.add("b".to_string());

    list.complete(2);
    assert!(list.get_all()[1].completed);
    list.uncomplete(2);
    assert!(!list.get_all()[1].completed);
    assert!(!list.get_all()[0].completed);
}

#[test]
fn complete_and_uncomplete_of_unknown_id_change_nothing() {
    let mut list = TaskList::new();
    list.add("a".to_string());
    list.complete(1);

    list.complete(99);
    list.uncomplete(99);
    let all = list.get_all();
    assert_eq!(all.len(), 1);
    assert_eq!(all[0].id, 1);
    assert_eq!(all[0].description, "a".to_string());
    assert!(all[0].completed);
}

#[test]
fn delete_is_idempotent() {
    let mut list = TaskList::new();
    list.add("a".to_string());
    list.add("b".to_string());
    list.add("c".to_string());

    list.delete(2);
    let once: Vec<_> = list.get_all().iter().map(|t| (t.id, t.description.clone())).collect();
    list.delete(2);
    let twice: Vec<_> = list.get_all().iter().map(|t| (t.id, t.description.clone())).collect();
    assert_eq!(once, twice);
    assert_eq!(twice.len(), 2);
    assert_eq!(twice[0].0, 1);
    assert_eq!(twice[1].0, 3);
}

#[test]
fn delete_of_unknown_id_is_a_silent_no_op() {
    let mut list = TaskList::new();
    list.add("a".to_string());
    list.delete(0);
    list.delete(7);
    assert_eq!(list.get_all().len(), 1);
}

#[test]
fn scenario_add_delete_complete() {
    let mut list = TaskList::new();
    list.add("Test1".to_string());
    list.add("Test2".to_string());
    list.add("Test3".to_string());
    let all = list.get_all();
    assert_eq!(all.len(), 3);
    assert!(all.iter().all(|t| !t.completed));

    let id_of_test2 = all.iter().find(|t| t.description == "Test2").unwrap().id;
    list.delete(id_of_test2);
    let all = list.get_all();
    assert_eq!(all.len(), 2);
    assert_eq!(all[0].description, "Test1".to_string());
    assert_eq!(all[1].description, "Test3".to_string());

    list.complete(all[0].id);
    let all = list.get_all();
    assert!(all[0].completed);
    assert!(!all[1].completed);
}

#[test]
fn flush_empties_but_keeps_the_counter() {
    let mut list = TaskList::new();
    list.add("a".to_string());
    list.add("b".to_string());
    list.flush();
    assert_eq!(list.get_all().len(), 0);
    list.add("c".to_string());
    let all = list.get_all();
    assert_eq!(all.len(), 1);
    assert_eq!(all[0].id, 3);
}

#[test]
fn next_id_reports_the_counter() {
    let mut list = TaskList::new();
    assert_eq!(list.next_id(), 1);
    list.add("a".to_string());
    assert_eq!(list.next_id(), 2);
    list.flush();
    assert_eq!(list.next_id(), 2);
}
