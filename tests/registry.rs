use taskgroups::registry::{EntryList, Window};

fn text(s: &str) -> String {
    s.to_string()
}

#[test]
fn scenario_add_add_remove_remove() {
    let mut r = EntryList::empty();
    r.add_task(1, text("term"), Some(text("shell")));
    assert_eq!(
        r.serialize(),
        r#"[{"title":"shell","class":"term","tasks":[{"title":"shell","id":1}]}]"#
    );
    r.add_task(2, text("term"), Some(text("logs")));
    assert_eq!(
        r.serialize(),
        r#"[{"title":"shell","class":"term","tasks":[{"title":"shell","id":1},{"title":"logs","id":2}]}]"#
    );
    r.remove_task(1);
    assert_eq!(
        r.serialize(),
        r#"[{"title":"shell","class":"term","tasks":[{"title":"logs","id":2}]}]"#
    );
    r.remove_task(2);
    assert_eq!(r.serialize(), "[]");
}

#[test]
fn empty_registry_is_empty_array() {
    assert_eq!(EntryList::empty().serialize(), "[]");
}

#[test]
fn grouping_keeps_arrival_order() {
    let mut r = EntryList::empty();
    r.add_task(7, text("firefox"), Some(text("Inbox")));
    r.add_task(3, text("term"), Some(text("vim")));
    r.add_task(5, text("firefox"), Some(text("News")));
    assert_eq!(
        r.serialize(),
        r#"[{"title":"Inbox","class":"firefox","tasks":[{"title":"Inbox","id":7},{"title":"News","id":5}]},{"title":"vim","class":"term","tasks":[{"title":"vim","id":3}]}]"#
    );
}

#[test]
fn absent_title_is_empty() {
    let mut r = EntryList::empty();
    r.add_task(4, text("bar"), None);
    assert_eq!(
        r.serialize(),
        r#"[{"title":"","class":"bar","tasks":[{"title":"","id":4}]}]"#
    );
}

#[test]
fn duplicate_id_is_ignored() {
    let mut r = EntryList::empty();
    r.add_task(1, text("term"), Some(text("shell")));
    let before = r.serialize();
    r.add_task(1, text("other"), Some(text("again")));
    assert_eq!(r.serialize(), before);
    r.add_task(1, text("term"), Some(text("again")));
    assert_eq!(r.serialize(), before);
}

#[test]
fn pruning_drops_empty_group() {
    let mut r = EntryList::empty();
    r.add_task(1, text("a"), Some(text("x")));
    r.add_task(2, text("b"), Some(text("y")));
    r.add_task(3, text("c"), Some(text("z")));
    r.remove_task(2);
    assert_eq!(
        r.serialize(),
        r#"[{"title":"x","class":"a","tasks":[{"title":"x","id":1}]},{"title":"z","class":"c","tasks":[{"title":"z","id":3}]}]"#
    );
}

#[test]
fn remove_absent_id_changes_nothing() {
    let mut r = EntryList::empty();
    r.add_task(1, text("a"), Some(text("x")));
    r.add_task(2, text("a"), Some(text("y")));
    let before = r.serialize();
    r.remove_task(99);
    assert_eq!(r.serialize(), before);
    let mut e = EntryList::empty();
    e.remove_task(1);
    assert_eq!(e.serialize(), "[]");
}

#[test]
fn rename_changes_only_that_task() {
    let mut r = EntryList::empty();
    r.add_task(1, text("a"), Some(text("one")));
    r.add_task(2, text("a"), Some(text("two")));
    r.add_task(3, text("b"), Some(text("three")));
    r.rename_task(2, text("TWO"), None);
    assert_eq!(
        r.serialize(),
        r#"[{"title":"one","class":"a","tasks":[{"title":"one","id":1},{"title":"TWO","id":2}]},{"title":"three","class":"b","tasks":[{"title":"three","id":3}]}]"#
    );
}

#[test]
fn rename_group_title_applies_to_its_group_only() {
    let mut r = EntryList::empty();
    r.add_task(1, text("a"), Some(text("one")));
    r.add_task(3, text("b"), Some(text("three")));
    r.rename_task(3, text("new"), Some(text("B")));
    assert_eq!(
        r.serialize(),
        r#"[{"title":"one","class":"a","tasks":[{"title":"one","id":1}]},{"title":"B","class":"b","tasks":[{"title":"new","id":3}]}]"#
    );
}

#[test]
fn rename_absent_id_changes_nothing() {
    let mut r = EntryList::empty();
    r.add_task(1, text("a"), Some(text("one")));
    let before = r.serialize();
    r.rename_task(9, text("zzz"), Some(text("G")));
    assert_eq!(r.serialize(), before);
}

#[test]
fn new_adds_mapped_windows_in_order() {
    let windows = vec![
        Window { id: 10, class: text("term"), title: text("a"), mapped: true },
        Window { id: 11, class: text("hidden"), title: text("b"), mapped: false },
        Window { id: 12, class: text("web"), title: text("c"), mapped: true },
        Window { id: 13, class: text("term"), title: text("d"), mapped: true },
    ];
    let r = EntryList::new(&windows);
    assert_eq!(
        r.serialize(),
        r#"[{"title":"a","class":"term","tasks":[{"title":"a","id":10},{"title":"d","id":13}]},{"title":"c","class":"web","tasks":[{"title":"c","id":12}]}]"#
    );
}

#[test]
fn texts_are_escaped() {
    let mut r = EntryList::empty();
    r.add_task(0, text("q\"c"), Some(text("a\\b\nc\u{1}")));
    assert_eq!(
        r.serialize(),
        "[{\"title\":\"a\\\\b\\nc\\u0001\",\"class\":\"q\\\"c\",\"tasks\":[{\"title\":\"a\\\\b\\nc\\u0001\",\"id\":0}]}]"
    );
}

#[test]
fn largest_id_is_written_in_full() {
    let mut r = EntryList::empty();
    r.add_task(u64::MAX, text("k"), Some(text("t")));
    assert_eq!(
        r.serialize(),
        r#"[{"title":"t","class":"k","tasks":[{"title":"t","id":18446744073709551615}]}]"#
    );
}

#[test]
fn serialized_text_decodes_to_same_registry() {
    let mut r = EntryList::empty();
    r.add_task(1, text("term"), Some(text("sh\"ell")));
    r.add_task(2, text("web"), Some(text("mail")));
    r.add_task(3, text("term"), Some(text("logs")));
    r.rename_task(3, text("tail"), None);
    r.remove_task(2);
    r.add_task(4, text("web"), Some(text("news\n")));
    let v: serde_json::Value = serde_json::from_str(&r.serialize()).unwrap();
    let groups = v.as_array().unwrap();
    assert_eq!(groups.len(), 2);
    assert_eq!(groups[0]["class"], "term");
    assert_eq!(groups[0]["title"], "sh\"ell");
    let t0 = groups[0]["tasks"].as_array().unwrap();
    assert_eq!(t0.len(), 2);
    assert_eq!(t0[0]["id"], 1);
    assert_eq!(t0[0]["title"], "sh\"ell");
    assert_eq!(t0[1]["id"], 3);
    assert_eq!(t0[1]["title"], "tail");
    assert_eq!(groups[1]["class"], "web");
    assert_eq!(groups[1]["title"], "news\n");
    let t1 = groups[1]["tasks"].as_array().unwrap();
    assert_eq!(t1.len(), 1);
    assert_eq!(t1[0]["id"], 4);
    assert_eq!(t1[0]["title"], "news\n");
}
