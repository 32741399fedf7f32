use slackbase::json::text_equal;
use slackbase::table::Table;

#[test]
fn table_insert_get_and_contains() {
    let mut t: Table<u32> = Table::new();
    assert_eq!(t.len(), 0);
    assert_eq!(t.get("a"), None);
    t.insert("a", 1);
    t.insert("b", 2);
    assert_eq!(t.get("a"), Some(&1));
    assert_eq!(t.get("b"), Some(&2));
    assert!(t.contains("a"));
    assert!(!t.contains("c"));
    assert_eq!(t.len(), 2);
}

#[test]
fn table_insert_replaces_the_value_of_a_key() {
    let mut t: Table<String> = Table::new();
    t.insert("k", "old".to_string());
    t.insert("k", "new".to_string());
    assert_eq!(t.len(), 1);
    assert_eq!(t.get("k"), Some(&"new".to_string()));
    assert_eq!(t.key_at(0), "k");
    assert_eq!(t.value_at(0), "new");
}

#[test]
fn table_remove_gives_the_value_back() {
    let mut t: Table<u32> = Table::new();
    t.insert("a", 1);
    t.insert("b", 2);
    t.insert("c", 3);
    assert_eq!(t.remove("b"), Some(2));
    assert_eq!(t.remove("b"), None);
    assert_eq!(t.len(), 2);
    assert_eq!(t.get("a"), Some(&1));
    assert_eq!(t.get("c"), Some(&3));
    assert_eq!(t.key_at(1), "c");
}

#[test]
fn text_equal_compares_whole_texts() {
    assert!(text_equal("", ""));
    assert!(text_equal("caf\u{e9}", "caf\u{e9}"));
    assert!(!text_equal("cafe", "caf\u{e9}"));
    assert!(!text_equal("a", "ab"));
}
