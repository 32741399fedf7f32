use slackbase::composite::{
    get_field_text, hash_all, hash_del_text, hash_set_text, item_from, item_text, list_len_of,
    list_pop_text, list_push_text, list_range_texts, set_add_text, set_field_text,
};
use slackbase::json::{list_range_of, JsonItem};
use slackbase::kv::SlackbaseEngine;
use slackbase::serialization::PlainSerializer;
use slackbase::types::Error;

fn fresh() -> SlackbaseEngine<PlainSerializer> {
    SlackbaseEngine::open_at(Vec::new(), Vec::new(), None, PlainSerializer, 100).unwrap()
}

fn some(s: &str) -> Option<String> {
    Some(s.to_string())
}

fn texts(items: &[JsonItem]) -> Vec<String> {
    items.iter().map(|i| item_text(i).unwrap()).collect()
}

fn letters() -> Vec<JsonItem> {
    ["a", "b", "c", "d", "e"].iter().map(|s| JsonItem::Text(s.to_string())).collect()
}

#[test]
fn list_range_whole_list() {
    assert_eq!(
        texts(&list_range_of(&letters(), 0, -1)),
        vec!["\"a\"", "\"b\"", "\"c\"", "\"d\"", "\"e\""]
    );
    assert_eq!(texts(&list_range_of(&letters(), 0, 4)).len(), 5);
    assert_eq!(texts(&list_range_of(&letters(), 0, 100)).len(), 5);
    assert_eq!(texts(&list_range_of(&letters(), -100, 100)).len(), 5);
}

#[test]
fn list_range_negative_indices_count_from_the_end() {
    assert_eq!(texts(&list_range_of(&letters(), -2, -1)), vec!["\"d\"", "\"e\""]);
    assert_eq!(texts(&list_range_of(&letters(), -3, 3)), vec!["\"c\"", "\"d\""]);
    assert_eq!(texts(&list_range_of(&letters(), 1, -2)), vec!["\"b\"", "\"c\"", "\"d\""]);
    assert_eq!(texts(&list_range_of(&letters(), -5, -5)), vec!["\"a\""]);
    assert_eq!(texts(&list_range_of(&letters(), -6, -5)), vec!["\"a\""]);
}

#[test]
fn list_range_single_item() {
    assert_eq!(texts(&list_range_of(&letters(), 2, 2)), vec!["\"c\""]);
    assert_eq!(texts(&list_range_of(&letters(), 4, 4)), vec!["\"e\""]);
}

#[test]
fn list_range_empty_ranges_give_nothing() {
    assert!(list_range_of(&letters(), 3, 2).is_empty());
    assert!(list_range_of(&letters(), 5, 10).is_empty());
    assert!(list_range_of(&letters(), -1, -2).is_empty());
    assert!(list_range_of(&Vec::new(), 0, -1).is_empty());
    assert!(list_range_of(&Vec::new(), 0, 0).is_empty());
    assert!(list_range_of(&letters(), isize::MAX, isize::MAX).is_empty());
}

#[test]
fn list_range_extreme_indices_are_clamped() {
    assert_eq!(texts(&list_range_of(&letters(), isize::MIN, isize::MAX)).len(), 5);
    assert_eq!(texts(&list_range_of(&letters(), isize::MIN, isize::MIN)), vec!["\"a\""]);
}

#[test]
fn item_from_reads_json_or_takes_the_text_as_string() {
    assert!(matches!(item_from("30"), JsonItem::Other(t) if t == "30"));
    assert!(matches!(item_from("\"Alice\""), JsonItem::Text(t) if t == "Alice"));
    assert!(matches!(item_from("Alice"), JsonItem::Text(t) if t == "Alice"));
    assert!(matches!(item_from("[1, 2]"), JsonItem::Other(t) if t == "[1,2]"));
    assert!(matches!(item_from("{\"a\": null}"), JsonItem::Other(t) if t == "{\"a\":null}"));
    assert!(matches!(item_from("true"), JsonItem::Other(t) if t == "true"));
}

#[test]
fn item_text_quotes_strings() {
    assert_eq!(item_text(&JsonItem::Text("a\"b".to_string())), some("\"a\\\"b\""));
    assert_eq!(item_text(&JsonItem::Other("12".to_string())), some("12"));
}

#[test]
fn set_field_starts_from_the_empty_object() {
    assert_eq!(set_field_text(&None, "name", "\"Alice\""), some("{\"name\":\"Alice\"}"));
    assert_eq!(set_field_text(&some("not json"), "n", "1"), some("{\"n\":1}"));
    assert_eq!(set_field_text(&some("[1]"), "n", "plain"), some("{\"n\":\"plain\"}"));
}

#[test]
fn set_field_replaces_or_adds() {
    let one = set_field_text(&some("{\"name\":\"Alice\"}"), "age", "30");
    assert_eq!(one, some("{\"age\":30,\"name\":\"Alice\"}"));
    let two = set_field_text(&one, "name", "Bob");
    assert_eq!(two, some("{\"age\":30,\"name\":\"Bob\"}"));
}

#[test]
fn get_field_gives_json_text() {
    let text = some("{\"age\":30,\"name\":\"Alice\",\"tags\":[1,2]}");
    assert_eq!(get_field_text(&text, "age"), some("30"));
    assert_eq!(get_field_text(&text, "name"), some("\"Alice\""));
    assert_eq!(get_field_text(&text, "tags"), some("[1,2]"));
    assert_eq!(get_field_text(&text, "none"), None);
    assert_eq!(get_field_text(&some("[1]"), "0"), None);
    assert_eq!(get_field_text(&None, "age"), None);
}

#[test]
fn hash_set_stores_strings_and_hash_del_removes() {
    let one = hash_set_text(&None, "f", "1");
    assert_eq!(one, some("{\"f\":\"1\"}"));
    let two = hash_set_text(&one, "g", "x y");
    assert_eq!(two, some("{\"f\":\"1\",\"g\":\"x y\"}"));
    assert_eq!(hash_del_text(&two, "f"), some("{\"g\":\"x y\"}"));
    assert_eq!(hash_del_text(&two, "none"), two);
    assert_eq!(hash_del_text(&None, "f"), some("{}"));
}

#[test]
fn hash_all_lists_fields_with_json_texts() {
    assert_eq!(
        hash_all(&some("{\"b\":2,\"a\":\"x\"}")),
        Some(vec![("a".to_string(), "\"x\"".to_string()), ("b".to_string(), "2".to_string())])
    );
    assert_eq!(hash_all(&some("{}")), Some(Vec::new()));
    assert_eq!(hash_all(&some("[1]")), None);
    assert_eq!(hash_all(&None), None);
}

#[test]
fn list_push_adds_at_either_end() {
    let one = list_push_text(&None, "a", false);
    assert_eq!(one, some("[\"a\"]"));
    let two = list_push_text(&one, "b", false);
    assert_eq!(two, some("[\"a\",\"b\"]"));
    assert_eq!(list_push_text(&two, "c", true), some("[\"c\",\"a\",\"b\"]"));
    assert_eq!(list_push_text(&some("{\"not\":\"a list\"}"), "x", true), some("[\"x\"]"));
}

#[test]
fn list_pop_takes_from_either_end() {
    let list = some("[\"c\",1,\"b\"]");
    assert_eq!(list_pop_text(&list, true), Some(("\"c\"".to_string(), "[1,\"b\"]".to_string())));
    assert_eq!(list_pop_text(&list, false), Some(("\"b\"".to_string(), "[\"c\",1]".to_string())));
    assert_eq!(list_pop_text(&some("[]"), true), None);
    assert_eq!(list_pop_text(&some("{}"), true), None);
    assert_eq!(list_pop_text(&None, false), None);
}

#[test]
fn list_range_texts_and_length() {
    let list = some("[\"a\",2,[3]]");
    assert_eq!(
        list_range_texts(&list, 0, -1),
        Some(vec!["\"a\"".to_string(), "2".to_string(), "[3]".to_string()])
    );
    assert_eq!(list_range_texts(&list, 5, 6), Some(Vec::new()));
    assert_eq!(list_range_texts(&some("{}"), 0, -1), None);
    assert_eq!(list_range_texts(&None, 0, -1), None);
    assert_eq!(list_len_of(&list), 3);
    assert_eq!(list_len_of(&some("{}")), 0);
    assert_eq!(list_len_of(&None), 0);
}

#[test]
fn set_add_adds_only_what_is_new() {
    let one = set_add_text(&None, "a");
    assert_eq!(one, some("[\"a\"]"));
    let two = set_add_text(&one, "b");
    assert_eq!(two, some("[\"a\",\"b\"]"));
    assert_eq!(set_add_text(&two, "a"), two);
    assert_eq!(set_add_text(&some("[1]"), "1"), some("[1,\"1\"]"));
}

#[test]
fn scenario_json_fields_are_indexed() {
    let mut db = fresh();
    db.json_set_field_at("user", "name", "\"Alice\"", 100).unwrap();
    db.json_set_field_at("user", "age", "30", 100).unwrap();
    assert_eq!(db.find("name", "Alice"), vec!["user".to_string()]);
    assert_eq!(db.find("age", "30"), vec!["user".to_string()]);
    assert_eq!(db.get_at("user", 100), some("{\"age\":30,\"name\":\"Alice\"}"));
    assert_eq!(db.json_get_field_at("user", "name", 100), some("\"Alice\""));
    assert_eq!(db.json_get_field_at("user", "age", 100), some("30"));
    assert_eq!(db.json_get_field_at("user", "none", 100), None);
    assert_eq!(db.json_get_field_at("nobody", "name", 100), None);
}

#[test]
fn scenario_list_push_range_pop_len() {
    let mut db = fresh();
    db.list_rpush_at("L", "a", 100).unwrap();
    db.list_rpush_at("L", "b", 100).unwrap();
    db.list_lpush_at("L", "c", 100).unwrap();
    assert_eq!(
        db.list_range_at("L", 0, -1, 100),
        Some(vec!["\"c\"".to_string(), "\"a\"".to_string(), "\"b\"".to_string()])
    );
    assert_eq!(db.list_lpop_at("L", 100), some("\"c\""));
    assert_eq!(db.list_len_at("L", 100), 2);
    assert_eq!(db.list_rpop_at("L", 100), some("\"b\""));
    assert_eq!(db.list_rpop_at("L", 100), some("\"a\""));
    assert_eq!(db.list_rpop_at("L", 100), None);
    assert_eq!(db.list_len_at("L", 100), 0);
    assert_eq!(db.get_at("L", 100), some("[]"));
}

#[test]
fn list_operations_on_a_missing_key() {
    let mut db = fresh();
    assert_eq!(db.list_range_at("none", 0, -1, 100), None);
    assert_eq!(db.list_len_at("none", 100), 0);
    assert_eq!(db.list_lpop_at("none", 100), None);
    db.list_push_at("none", "x", 100).unwrap();
    assert_eq!(db.get_at("none", 100), some("[\"x\"]"));
}

#[test]
fn hash_operations_through_the_engine() {
    let mut db = fresh();
    db.hash_set_at("h", "f", "1", 100).unwrap();
    db.hash_set_at("h", "g", "two", 100).unwrap();
    assert_eq!(db.hash_get_at("h", "f", 100), some("\"1\""));
    assert_eq!(
        db.hash_getall_at("h", 100),
        Some(vec![("f".to_string(), "\"1\"".to_string()), ("g".to_string(), "\"two\"".to_string())])
    );
    db.hash_del_at("h", "f", 100).unwrap();
    assert_eq!(db.hash_get_at("h", "f", 100), None);
    assert_eq!(db.get_at("h", 100), some("{\"g\":\"two\"}"));
    assert_eq!(db.find("g", "two"), vec!["h".to_string()]);
    assert_eq!(db.hash_getall_at("none", 100), None);
}

#[test]
fn set_add_through_the_engine() {
    let mut db = fresh();
    db.set_add_at("s", "a", 100).unwrap();
    db.set_add_at("s", "b", 100).unwrap();
    db.set_add_at("s", "a", 100).unwrap();
    assert_eq!(db.get_at("s", 100), some("[\"a\",\"b\"]"));
}

#[test]
fn composite_write_over_an_expired_value_starts_anew() {
    let mut db = fresh();
    db.putex_at("L", "[\"old\"]", 1, 100).unwrap();
    db.list_rpush_at("L", "new", 200).unwrap();
    assert_eq!(db.get_at("L", 200), some("[\"new\"]"));
    let unused: Result<(), Error> = Ok(());
    assert!(unused.is_ok());
}

#[test]
fn clock_reading_composites_agree_with_the_timed_ones() {
    let mut db = fresh();
    db.json_set_field("u", "name", "Ann").unwrap();
    assert_eq!(db.json_get_field("u", "name"), some("\"Ann\""));
    db.hash_set("h", "f", "v").unwrap();
    assert_eq!(db.hash_get("h", "f"), some("\"v\""));
    assert_eq!(db.hash_getall("h"), Some(vec![("f".to_string(), "\"v\"".to_string())]));
    db.hash_del("h", "f").unwrap();
    assert_eq!(db.hash_get("h", "f"), None);
    db.list_push("l", "a").unwrap();
    db.list_lpush("l", "b").unwrap();
    db.list_rpush("l", "c").unwrap();
    assert_eq!(db.list_len("l"), 3);
    assert_eq!(db.list_range("l", 0, 0), Some(vec!["\"b\"".to_string()]));
    assert_eq!(db.list_lpop("l"), some("\"b\""));
    assert_eq!(db.list_rpop("l"), some("\"c\""));
    db.set_add("s", "x").unwrap();
    db.set_add("s", "x").unwrap();
    assert_eq!(db.get("s"), some("[\"x\"]"));
}
