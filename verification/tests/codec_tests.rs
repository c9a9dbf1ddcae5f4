use tasktrack::codec::{load, save};
use tasktrack::store::TaskList;

fn snapshot(list: &TaskList) -> Vec<(usize, String, bool)> {
    list.get_all().iter().map(|t| (t.id, t.description.clone(), t.completed)).collect()
}

#[test]
fn save_produces_the_exact_text() {
    let mut list = TaskList::new();
    list.add("Buy milk".to_string());
    list.complete(1);
    let text = save(&list);
    assert_eq!(text, "next_id 2\ntasks 1\nid 1\ncompleted 1\ndescription 8\nBuy milk\n");
}

#[test]
fn load_reads_the_exact_text() {
    let list = load("next_id 5\ntasks 2\nid 1\ncompleted 0\ndescription 1\na\nid 4\ncompleted 1\ndescription 2\nbc\n");
    let all = list.get_all();
    assert_eq!(all.len(), 2);
    assert_eq!(all[0].id, 1);
    assert_eq!(all[0].description, "a".to_string());
    assert!(!all[0].completed);
    assert_eq!(all[1].id, 4);
    assert_eq!(all[1].description, "bc".to_string());
    assert!(all[1].completed);
    assert_eq!(list.next_id(), 5);
}

#[test]
fn save_then_load_round_trips() {
    let mut list = TaskList::new();
    list.add("plain".to_string());
    list.add("two\nlines".to_string());
    list.add("description 3".to_string());
    list.add("".to_string());
    list.add("h\u{e9}llo \u{2713}".to_string());
    list.complete(2);
    list.complete(5);
    list.delete(3);

    let restored = load(&save(&list));
    assert_eq!(snapshot(&list), snapshot(&restored));
    assert_eq!(list.next_id(), restored.next_id());
}

#[test]
fn round_trip_keeps_the_counter_across_a_flush() {
    let mut list = TaskList::new();
    list.add("a".to_string());
    list.add("b".to_string());
    list.flush();

    let mut restored = load(&save(&list));
    assert_eq!(restored.get_all().len(), 0);
    restored.add("c".to_string());
    assert_eq!(restored.get_all()[0].id, 3);
}

#[test]
fn empty_store_round_trips() {
    let list = TaskList::new();
    let text = save(&list);
    assert_eq!(text, "next_id 1\ntasks 0\n");
    let restored = load(&text);
    assert_eq!(restored.get_all().len(), 0);
    assert_eq!(restored.next_id(), 1);
}

#[test]
fn load_of_garbage_yields_the_empty_store() {
    for text in [
        "",
        "this is not a store",
        "next_id x\ntasks 0\n",
        "next_id 1\n",
        "next_id 1\ntasks 1\n",
        "next_id 1\ntasks 0\ntrailing",
        "next_id 1\ntasks 0",
    ] {
        let list = load(text);
        assert_eq!(list.get_all().len(), 0);
        assert_eq!(list.next_id(), 1);
    }
}

#[test]
fn load_rejects_a_truncated_description() {
    let list = load("next_id 2\ntasks 1\nid 1\ncompleted 0\ndescription 9\nshort\n");
    assert_eq!(list.get_all().len(), 0);
    assert_eq!(list.next_id(), 1);
}

#[test]
fn load_rejects_duplicate_ids() {
    let list = load("next_id 9\ntasks 2\nid 3\ncompleted 0\ndescription 1\na\nid 3\ncompleted 0\ndescription 1\nb\n");
    assert_eq!(list.get_all().len(), 0);
    assert_eq!(list.next_id(), 1);
}

#[test]
fn load_rejects_an_id_at_or_above_the_counter() {
    let list = load("next_id 2\ntasks 1\nid 2\ncompleted 0\ndescription 1\na\n");
    assert_eq!(list.get_all().len(), 0);
}

#[test]
fn load_rejects_a_zero_counter() {
    let list = load("next_id 0\ntasks 0\n");
    assert_eq!(list.next_id(), 1);
}

#[test]
fn a_description_holding_a_whole_fake_record_round_trips() {
    let mut list = TaskList::new();
    list.add("next_id 7\ntasks 1\nid 1\ncompleted 1\ndescription 1\nx\n".to_string());
    let restored = load(&save(&list));
    assert_eq!(snapshot(&list), snapshot(&restored));
}
