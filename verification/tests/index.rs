use slackbase::index::SecondaryIndex;

fn sorted(mut v: Vec<String>) -> Vec<String> {
    v.sort();
    v
}

#[test]
fn new_index_finds_nothing() {
    let idx = SecondaryIndex::new();
    assert!(idx.find("name", "Alice").is_empty());
    assert_eq!(idx.len(), 0);
}

#[test]
fn update_binds_each_top_level_field() {
    let mut idx = SecondaryIndex::new();
    idx.update("user", None, Some(r#"{"name":"Alice","age":30,"tags":["a"],"ok":true,"n":null}"#));
    assert_eq!(idx.find("name", "Alice"), vec!["user".to_string()]);
    assert_eq!(idx.find("age", "30"), vec!["user".to_string()]);
    assert_eq!(idx.find("tags", r#"["a"]"#), vec!["user".to_string()]);
    assert_eq!(idx.find("ok", "true"), vec!["user".to_string()]);
    assert_eq!(idx.find("n", "null"), vec!["user".to_string()]);
    assert!(idx.find("name", "\"Alice\"").is_empty());
    assert_eq!(idx.len(), 5);
}

#[test]
fn update_takes_old_bindings_out() {
    let mut idx = SecondaryIndex::new();
    idx.update("u", None, Some(r#"{"name":"Alice","age":30}"#));
    idx.update("u", Some(r#"{"name":"Alice","age":30}"#), Some(r#"{"name":"Bob"}"#));
    assert!(idx.find("name", "Alice").is_empty());
    assert!(idx.find("age", "30").is_empty());
    assert_eq!(idx.find("name", "Bob"), vec!["u".to_string()]);
    assert_eq!(idx.len(), 1);
}

#[test]
fn update_with_text_that_is_no_object_binds_nothing() {
    let mut idx = SecondaryIndex::new();
    idx.update("a", None, Some("plain text"));
    idx.update("b", None, Some("[1,2]"));
    idx.update("c", None, Some("\"str\""));
    idx.update("d", None, None);
    assert_eq!(idx.len(), 0);
}

#[test]
fn find_gives_every_key_bound_to_the_pair() {
    let mut idx = SecondaryIndex::new();
    idx.update("u1", None, Some(r#"{"city":"Oslo"}"#));
    idx.update("u2", None, Some(r#"{"city":"Oslo"}"#));
    idx.update("u3", None, Some(r#"{"city":"Rome"}"#));
    assert_eq!(sorted(idx.find("city", "Oslo")), vec!["u1".to_string(), "u2".to_string()]);
    assert_eq!(idx.find("city", "Rome"), vec!["u3".to_string()]);
    assert!(idx.find("city", "Paris").is_empty());
    assert!(idx.find("town", "Oslo").is_empty());
}

#[test]
fn remove_takes_the_bindings_of_a_key_out() {
    let mut idx = SecondaryIndex::new();
    idx.update("u1", None, Some(r#"{"city":"Oslo"}"#));
    idx.update("u2", None, Some(r#"{"city":"Oslo"}"#));
    idx.remove("u1", Some(r#"{"city":"Oslo"}"#));
    assert_eq!(idx.find("city", "Oslo"), vec!["u2".to_string()]);
    idx.remove("u2", None);
    assert_eq!(idx.find("city", "Oslo"), vec!["u2".to_string()]);
}

#[test]
fn update_with_the_same_text_twice_binds_once() {
    let mut idx = SecondaryIndex::new();
    idx.update("u", None, Some(r#"{"city":"Oslo"}"#));
    idx.update("u", None, Some(r#"{"city":"Oslo"}"#));
    assert_eq!(idx.find("city", "Oslo"), vec!["u".to_string()]);
    assert_eq!(idx.len(), 1);
}

#[test]
fn clear_forgets_everything() {
    let mut idx = SecondaryIndex::new();
    idx.update("u", None, Some(r#"{"city":"Oslo"}"#));
    idx.clear();
    assert!(idx.find("city", "Oslo").is_empty());
    assert_eq!(idx.len(), 0);
}

#[test]
fn bind_and_unbind_one_binding() {
    let mut idx = SecondaryIndex::new();
    idx.bind("f", "v", "k");
    idx.bind("f", "v", "k");
    assert_eq!(idx.len(), 1);
    let (f, v, k) = idx.binding_at(0);
    assert_eq!((f.as_str(), v.as_str(), k.as_str()), ("f", "v", "k"));
    idx.unbind("f", "v", "other");
    assert_eq!(idx.len(), 1);
    idx.unbind("f", "v", "k");
    assert_eq!(idx.len(), 0);
}
