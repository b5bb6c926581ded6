use hydration_client::number::{decimal, parse};
use hydration_client::paths::{join, lies_under, parent, relative, same_path};
use hydration_client::sort::arrange;
use hydration_client::table::Table;
use hydration_client::text::{
    compare, count_of, is_before, join_with, lines_of, split_at, write_lines, Place,
};

#[test]
fn numbers_are_written_and_read() {
    assert_eq!(decimal(0), "0");
    assert_eq!(decimal(u64::MAX), "18446744073709551615");
    assert_eq!(parse("0042", 100), Some(42));
    assert_eq!(parse("+7", 100), Some(7));
    assert_eq!(parse("101", 100), None);
    assert_eq!(parse("18446744073709551616", u64::MAX), None);
    assert_eq!(parse("", 100), None);
    assert_eq!(parse("-1", 100), None);
    assert_eq!(parse("+", 100), None);
    assert_eq!(parse("1 ", 100), None);
}

#[test]
fn paths_are_taken_apart() {
    assert_eq!(join("/a", "b/c"), "/a/b/c");
    assert_eq!(join("/a/", "b"), "/a/b");
    assert_eq!(relative("/a", "/a/b/c").as_deref(), Some("b/c"));
    assert_eq!(relative("/a", "/ab"), None);
    assert_eq!(relative("/a", "/a").as_deref(), Some(""));
    assert!(lies_under("/a/b", "/a"));
    assert!(!lies_under("/ab", "/a"));
    assert!(same_path("/a//b/", "/a/b"));
    assert_eq!(parent("/a/b").as_deref(), Some("/a"));
    assert_eq!(parent("/"), None);
}

#[test]
fn texts_are_compared_by_their_characters() {
    assert_eq!(compare("a", "b"), Place::Before);
    assert_eq!(compare("ab", "a"), Place::After);
    assert_eq!(compare("a", "a"), Place::Same);
    assert!(is_before("", "a"));
    assert!(is_before("Z", "a"));
}

#[test]
fn texts_are_cut_and_put_together() {
    assert_eq!(split_at("a,b,,c", ','), ["a", "b", "", "c"]);
    assert_eq!(split_at("", ','), [""]);
    assert_eq!(lines_of("a\r\nb\n\nc"), ["a", "b", "", "c"]);
    assert_eq!(
        join_with(&vec!["a".into(), "b".into()], ", "),
        "a, b"
    );
    assert_eq!(write_lines(&vec!["a".into(), "b".into()]), "a\nb\n");
    assert_eq!(count_of("a/b/c", '/'), 2);
}

#[test]
fn a_table_keeps_its_keys_in_order() {
    let mut t: Table<String, u32> = Table::new();
    for (i, k) in ["c", "a", "b", "a"].iter().enumerate() {
        t.insert(k.to_string(), i as u32);
    }
    assert_eq!(t.len(), 3);
    assert_eq!(t.key_at(0), "a");
    assert_eq!(*t.value_at(0), 3);
    assert_eq!(t.get(&"b".to_string()), Some(&2));
    assert_eq!(t.remove(&"b".to_string()), Some(2));
    assert_eq!(t.remove(&"b".to_string()), None);
    assert!(!t.contains(&"b".to_string()));
    t.clear();
    assert!(t.is_empty());
}

#[test]
fn a_list_is_put_in_order() {
    assert_eq!(
        arrange(vec!["b".to_string(), "a".into(), "c".into(), "a".into()]),
        ["a", "a", "b", "c"]
    );
}
