use slackbase::hint::load_hint;
use slackbase::kv::{key_is_valid, SlackbaseEngine};
use slackbase::offsets::Extent;
use slackbase::serialization::{JsonSerializer, PlainSerializer, Serializer};
use slackbase::storage::{build_offset_index, read_record_slice};
use slackbase::types::{BatchOp, Error};

fn fresh() -> SlackbaseEngine<PlainSerializer> {
    SlackbaseEngine::open_at(Vec::new(), Vec::new(), None, PlainSerializer, 100).unwrap()
}

fn reopen(db: &SlackbaseEngine<PlainSerializer>, now: u64) -> SlackbaseEngine<PlainSerializer> {
    SlackbaseEngine::open_at(
        db.log_bytes().clone(),
        db.journal_bytes().clone(),
        Some(db.hint_bytes()),
        PlainSerializer,
        now,
    )
    .unwrap()
}

#[test]
fn put_then_get_returns_value() {
    let mut db = fresh();
    db.put("a", "1").unwrap();
    assert_eq!(db.get_at("a", 100), Some("1".to_string()));
    assert_eq!(db.get_at("missing", 100), None);
}

#[test]
fn put_then_get_returns_any_utf8_value() {
    let mut db = fresh();
    for v in ["", " ", "hello\tworld\n", "caf\u{e9} \u{1f600}", "put\tk\tv\t", "BEGIN", "a,b,c"] {
        db.put("k", v).unwrap();
        assert_eq!(db.get_at("k", 100), Some(v.to_string()));
        let mut again = reopen(&db, 100);
        assert_eq!(again.get_at("k", 100), Some(v.to_string()));
    }
}

#[test]
fn second_put_wins() {
    let mut db = fresh();
    db.put("k", "v1").unwrap();
    db.put("k", "v2").unwrap();
    assert_eq!(db.get_at("k", 100), Some("v2".to_string()));
}

#[test]
fn delete_makes_key_unreadable() {
    let mut db = fresh();
    db.put("k", "v").unwrap();
    db.delete("k").unwrap();
    assert_eq!(db.get_at("k", 100), None);
    db.delete("never-there").unwrap();
    assert_eq!(db.get_at("never-there", 100), None);
}

#[test]
fn compact_keeps_live_values() {
    let mut db = fresh();
    db.put("k", "v").unwrap();
    db.compact_at(100).unwrap();
    assert_eq!(db.get_at("k", 100), Some("v".to_string()));
}

#[test]
fn last_write_wins_over_a_sequence_of_writes() {
    let mut db = fresh();
    db.put("a", "1").unwrap();
    db.put("b", "1").unwrap();
    db.delete("a").unwrap();
    db.put("c", "1").unwrap();
    db.put("b", "2").unwrap();
    db.put("a", "3").unwrap();
    db.delete("c").unwrap();
    db.put("b", "4").unwrap();
    assert_eq!(db.get_at("a", 100), Some("3".to_string()));
    assert_eq!(db.get_at("b", 100), Some("4".to_string()));
    assert_eq!(db.get_at("c", 100), None);
}

#[test]
fn scenario_put_get_delete_and_key_count() {
    let mut db = fresh();
    db.put("a", "1").unwrap();
    db.put("b", "2").unwrap();
    assert_eq!(db.get_at("a", 100), Some("1".to_string()));
    db.delete("a").unwrap();
    assert_eq!(db.get_at("a", 100), None);
    assert_eq!(db.stats().key_count, 1);
}

#[test]
fn put_writes_the_record_to_log_and_journal() {
    let mut db = fresh();
    db.put("a", "1").unwrap();
    assert_eq!(db.log_bytes(), &b"put\ta\tMQ==\t\n".to_vec());
    assert_eq!(db.journal_bytes(), &b"put\ta\tMQ==\t\n".to_vec());
    db.delete("a").unwrap();
    assert_eq!(db.log_bytes(), &b"put\ta\tMQ==\t\ndel\ta\n".to_vec());
    assert_eq!(db.journal_bytes(), &b"put\ta\tMQ==\t\ndel\ta\n".to_vec());
}

#[test]
fn value_with_tab_and_newline_is_stored_as_base64() {
    let mut db = fresh();
    db.put("k", "hello\tworld\n").unwrap();
    assert_eq!(db.log_bytes(), &b"put\tk\taGVsbG8Jd29ybGQK\t\n".to_vec());
}

#[test]
fn index_entry_points_at_the_record_that_was_put() {
    let mut db = fresh();
    db.put("a", "1").unwrap();
    db.put("b", "2").unwrap();
    db.put("a", "3").unwrap();
    let idx = load_hint(&db.hint_bytes());
    assert_eq!(idx.get(b"a"), Some(Extent { offset: 24, len: 12 }));
    assert_eq!(idx.get(b"b"), Some(Extent { offset: 12, len: 12 }));
    let e = idx.get(b"a").unwrap();
    assert_eq!(read_record_slice(db.log_bytes(), e.offset, e.len), Some(b"put\ta\tMw==\t".to_vec()));
    assert!(build_offset_index(db.log_bytes(), 100).same_as(&idx));
}

#[test]
fn hint_is_the_offset_index() {
    let mut db = fresh();
    db.put("b", "2").unwrap();
    db.put("a", "1").unwrap();
    assert_eq!(db.hint_bytes(), b"a,12,12\nb,0,12\n".to_vec());
    db.delete("b").unwrap();
    assert_eq!(db.hint_bytes(), b"a,12,12\n".to_vec());
}

#[test]
fn putex_expires_at_now_plus_ttl() {
    let mut db = fresh();
    db.putex_at("k", "v", 10, 100).unwrap();
    assert_eq!(db.log_bytes(), &b"put\tk\tdg==\t110\n".to_vec());
    assert_eq!(db.get_at("k", 100), Some("v".to_string()));
    assert_eq!(db.get_at("k", 109), Some("v".to_string()));
    assert_eq!(db.get_at("k", 110), None);
    assert_eq!(db.get_at("k", 111), None);
}

#[test]
fn putex_with_overflowing_ttl_never_expires_before_the_end_of_time() {
    let mut db = fresh();
    db.putex_at("k", "v", u64::MAX, 100).unwrap();
    assert_eq!(db.log_bytes(), &b"put\tk\tdg==\t18446744073709551615\n".to_vec());
    assert_eq!(db.get_at("k", u64::MAX - 1), Some("v".to_string()));
    assert_eq!(db.get_at("k", u64::MAX), None);
}

#[test]
fn scenario_expired_key_is_gone_and_compaction_drops_its_record() {
    let mut db = fresh();
    db.putex_at("k", "v", 1, 100).unwrap();
    assert_eq!(db.get_at("k", 102), None);
    assert_eq!(db.stats().key_count, 1);
    db.compact_at(102).unwrap();
    assert!(db.log_bytes().is_empty());
    assert_eq!(db.stats().key_count, 0);
    assert_eq!(db.get_at("k", 102), None);
}

#[test]
fn put_over_an_expiring_value_never_expires() {
    let mut db = fresh();
    db.putex_at("k", "old", 1, 100).unwrap();
    db.put("k", "new").unwrap();
    assert_eq!(db.get_at("k", 1000), Some("new".to_string()));
}

#[test]
fn putex_over_a_cached_value_expires() {
    let mut db = fresh();
    db.put("k", "old").unwrap();
    assert_eq!(db.get_at("k", 100), Some("old".to_string()));
    db.putex_at("k", "new", 5, 100).unwrap();
    assert_eq!(db.get_at("k", 104), Some("new".to_string()));
    assert_eq!(db.get_at("k", 105), None);
}

#[test]
fn compaction_rewrites_the_log_and_clears_the_journal() {
    let mut db = fresh();
    db.put("b", "1").unwrap();
    db.put("a", "1").unwrap();
    db.put("b", "2").unwrap();
    db.put("c", "1").unwrap();
    db.delete("c").unwrap();
    db.putex_at("d", "1", 5, 100).unwrap();
    db.compact_at(200).unwrap();
    assert_eq!(db.log_bytes(), &b"put\ta\tMQ==\t\nput\tb\tMg==\t\n".to_vec());
    assert!(db.journal_bytes().is_empty());
    assert_eq!(db.hint_bytes(), b"a,0,12\nb,12,12\n".to_vec());
    assert_eq!(db.stats().key_count, 2);
    assert_eq!(db.get_at("a", 200), Some("1".to_string()));
    assert_eq!(db.get_at("b", 200), Some("2".to_string()));
    assert_eq!(db.get_at("c", 200), None);
    assert_eq!(db.get_at("d", 200), None);
}

#[test]
fn compaction_does_not_go_back_in_time() {
    let mut db = SlackbaseEngine::open_at(
        b"put\tk\tdg==\t150\n".to_vec(),
        Vec::new(),
        None,
        PlainSerializer,
        200,
    )
    .unwrap();
    assert_eq!(db.stats().key_count, 0);
    db.compact_at(100).unwrap();
    assert!(db.log_bytes().is_empty());
    assert_eq!(db.get_at("k", 100), None);
}

#[test]
fn restart_gives_the_same_reads() {
    let mut db = fresh();
    db.put("a", "1").unwrap();
    db.put("b", "2").unwrap();
    db.delete("a").unwrap();
    db.putex_at("c", "3", 50, 100).unwrap();
    db.putex_at("d", "4", 5, 100).unwrap();
    let mut again = reopen(&db, 120);
    for key in ["a", "b", "c", "d", "e"] {
        for now in [120u64, 149, 150, 1000] {
            assert_eq!(again.get_at(key, now), db.get_at(key, now));
        }
    }
    assert_eq!(again.get_at("b", 120), Some("2".to_string()));
    assert_eq!(again.get_at("c", 120), Some("3".to_string()));
    assert_eq!(again.get_at("d", 120), None);
}

#[test]
fn restart_with_a_stale_hint_rebuilds_from_the_log() {
    let mut db = SlackbaseEngine::open_at(
        b"put\ta\tMQ==\t\nput\tb\tMg==\t\n".to_vec(),
        Vec::new(),
        Some(b"a,12,12\nzzz,0,5\n".to_vec()),
        PlainSerializer,
        100,
    )
    .unwrap();
    assert_eq!(db.get_at("a", 100), Some("1".to_string()));
    assert_eq!(db.get_at("b", 100), Some("2".to_string()));
    assert_eq!(db.get_at("zzz", 100), None);
    assert_eq!(db.hint_bytes(), b"a,0,12\nb,12,12\n".to_vec());
}

#[test]
fn open_drops_an_unfinished_last_line_of_the_log() {
    let mut db = SlackbaseEngine::open_at(
        b"put\ta\tMQ==\t\nput\tb\tMg".to_vec(),
        Vec::new(),
        None,
        PlainSerializer,
        100,
    )
    .unwrap();
    assert_eq!(db.log_bytes(), &b"put\ta\tMQ==\t\n".to_vec());
    db.put("c", "3").unwrap();
    assert_eq!(db.log_bytes(), &b"put\ta\tMQ==\t\nput\tc\tMw==\t\n".to_vec());
    let mut again = reopen(&db, 100);
    assert_eq!(again.get_at("c", 100), Some("3".to_string()));
    assert_eq!(again.get_at("b", 100), None);
}

#[test]
fn batch_applies_every_mutation_in_order() {
    let mut db = fresh();
    db.batch(vec![
        BatchOp::Put("x".to_string(), "10".to_string()),
        BatchOp::Put("y".to_string(), "20".to_string()),
        BatchOp::Del("x".to_string()),
    ])
    .unwrap();
    assert_eq!(db.get_at("x", 100), None);
    assert_eq!(db.get_at("y", 100), Some("20".to_string()));
    assert_eq!(
        db.journal_bytes(),
        &b"BEGIN\nput\tx\tMTA=\t\nput\ty\tMjA=\t\ndel\tx\nEND\nput\tx\tMTA=\t\nput\ty\tMjA=\t\ndel\tx\n"
            .to_vec()
    );
    assert_eq!(db.log_bytes(), &b"put\tx\tMTA=\t\nput\ty\tMjA=\t\ndel\tx\n".to_vec());
}

#[test]
fn scenario_batch_is_replayed_after_a_crash_behind_end() {
    let journal = b"BEGIN\nput\tx\tMTA=\t\nput\ty\tMjA=\t\ndel\tx\nEND\n".to_vec();
    let mut db =
        SlackbaseEngine::open_at(Vec::new(), journal, None, PlainSerializer, 100).unwrap();
    assert_eq!(db.get_at("x", 100), None);
    assert_eq!(db.get_at("y", 100), Some("20".to_string()));
    assert_eq!(db.stats().key_count, 1);
}

#[test]
fn batch_cut_off_before_end_is_not_replayed() {
    let whole = b"BEGIN\nput\tx\tMTA=\t\nput\ty\tMjA=\t\ndel\tx\nEND\n".to_vec();
    for cut in 0..whole.len() {
        let mut db = SlackbaseEngine::open_at(
            Vec::new(),
            whole[..cut].to_vec(),
            None,
            PlainSerializer,
            100,
        )
        .unwrap();
        assert_eq!(db.get_at("x", 100), None);
        assert_eq!(db.get_at("y", 100), None);
        assert_eq!(db.stats().key_count, 0);
    }
}

#[test]
fn reopen_replays_closed_batches_of_the_journal() {
    let mut db = fresh();
    db.batch(vec![BatchOp::Put("x".to_string(), "10".to_string())]).unwrap();
    db.put("x", "20").unwrap();
    assert_eq!(db.get_at("x", 100), Some("20".to_string()));
    let mut again = reopen(&db, 100);
    assert_eq!(again.get_at("x", 100), Some("10".to_string()));
    db.compact_at(100).unwrap();
    let mut clean = reopen(&db, 100);
    assert_eq!(clean.get_at("x", 100), Some("20".to_string()));
}

#[test]
fn batch_with_a_value_the_serializer_refuses_writes_nothing() {
    let mut db =
        SlackbaseEngine::open_at(Vec::new(), Vec::new(), None, JsonSerializer, 100).unwrap();
    let r = db.batch(vec![
        BatchOp::Put("a".to_string(), "1".to_string()),
        BatchOp::Put("b".to_string(), "not json".to_string()),
    ]);
    assert_eq!(r, Err(Error::Serde));
    assert!(db.journal_bytes().is_empty());
    assert!(db.log_bytes().is_empty());
    assert_eq!(db.get_at("a", 100), None);
}

#[test]
fn snapshot_then_restore_brings_a_deleted_key_back() {
    let mut db = fresh();
    db.put("k", "v").unwrap();
    let snap = db.snapshot();
    db.delete("k").unwrap();
    assert_eq!(db.get_at("k", 100), None);
    db.restore_at(&snap, 100).unwrap();
    assert_eq!(db.get_at("k", 100), Some("v".to_string()));
}

#[test]
fn snapshot_holds_the_three_images() {
    let mut db = fresh();
    db.put("k", "v").unwrap();
    let snap = db.snapshot();
    assert_eq!(snap.log, b"put\tk\tdg==\t\n".to_vec());
    assert_eq!(snap.wal, b"put\tk\tdg==\t\n".to_vec());
    assert_eq!(snap.hint, b"k,0,12\n".to_vec());
}

#[test]
fn scan_lists_keys_in_byte_order_with_their_values() {
    let mut db = fresh();
    for (k, v) in [("user:2", "b"), ("item:1", "x"), ("user:1", "a"), ("user:10", "c")] {
        db.put(k, v).unwrap();
    }
    db.putex_at("user:3", "gone", 1, 100).unwrap();
    let all = db.scan_at(None, None, 200);
    assert_eq!(
        all,
        vec![
            ("item:1".to_string(), Some("x".to_string())),
            ("user:1".to_string(), Some("a".to_string())),
            ("user:10".to_string(), Some("c".to_string())),
            ("user:2".to_string(), Some("b".to_string())),
            ("user:3".to_string(), None),
        ]
    );
}

#[test]
fn scan_by_prefix_and_by_range() {
    let mut db = fresh();
    for k in ["a", "ab", "abc", "b", "ba", "c"] {
        db.put(k, k).unwrap();
    }
    let keys = |v: Vec<(String, Option<String>)>| v.into_iter().map(|p| p.0).collect::<Vec<_>>();
    assert_eq!(keys(db.scan_at(Some("ab"), None, 100)), vec!["ab", "abc"]);
    assert_eq!(keys(db.scan_at(Some(""), None, 100)).len(), 6);
    assert!(db.scan_at(Some("zz"), None, 100).is_empty());
    assert_eq!(keys(db.scan_at(None, Some(("ab", "b")), 100)), vec!["ab", "abc", "b"]);
    assert_eq!(keys(db.scan_at(None, Some(("b", "b")), 100)), vec!["b"]);
    assert!(db.scan_at(None, Some(("c", "a")), 100).is_empty());
    assert_eq!(keys(db.scan_at(Some("b"), Some(("a", "b")), 100)), vec!["b"]);
}

#[test]
fn stats_count_reads_writes_hits_and_misses() {
    let mut db = fresh();
    db.put("a", "1").unwrap();
    db.putex_at("t", "1", 1, 100).unwrap();
    assert_eq!(db.get_at("a", 100), Some("1".to_string()));
    assert_eq!(db.get_at("a", 100), Some("1".to_string()));
    assert_eq!(db.get_at("none", 100), None);
    assert_eq!(db.get_at("t", 500), None);
    db.delete("a").unwrap();
    let s = db.stats();
    assert_eq!((s.reads, s.writes, s.hits, s.misses), (4, 3, 2, 1));
    assert_eq!(s.key_count, 1);
    assert_eq!(s.log_bytes, db.log_bytes().len() as u64);
    assert_eq!(s.wal_bytes, db.journal_bytes().len() as u64);
    assert_eq!(s.hint_bytes, db.hint_bytes().len() as u64);
    assert_eq!(s.total_bytes, s.log_bytes + s.wal_bytes + s.hint_bytes);
    assert_eq!(s.log_bytes, 12 + 15 + 6);
}

#[test]
fn cache_serves_the_latest_value_and_forgets_deleted_keys() {
    let mut db = fresh();
    db.put("k", "1").unwrap();
    assert_eq!(db.get_at("k", 100), Some("1".to_string()));
    db.put("k", "2").unwrap();
    assert_eq!(db.get_at("k", 100), Some("2".to_string()));
    db.delete("k").unwrap();
    assert_eq!(db.get_at("k", 100), None);
}

#[test]
fn more_keys_than_the_cache_holds_are_all_readable() {
    let mut db = fresh();
    for i in 0..1100 {
        db.put(&format!("k{}", i), &format!("v{}", i)).unwrap();
    }
    for i in 0..1100 {
        assert_eq!(db.get_at(&format!("k{}", i), 100), Some(format!("v{}", i)));
    }
    assert_eq!(db.stats().key_count, 1100);
}

#[test]
fn json_serializer_stores_canonical_json_and_refuses_other_text() {
    let mut db =
        SlackbaseEngine::open_at(Vec::new(), Vec::new(), None, JsonSerializer, 100).unwrap();
    db.put("k", "{ \"b\" : 1,  \"a\" : [1, 2] }").unwrap();
    assert_eq!(db.get_at("k", 100), Some("{\"a\":[1,2],\"b\":1}".to_string()));
    assert_eq!(db.put("bad", "not json"), Err(Error::Serde));
    assert_eq!(db.get_at("bad", 100), None);
    assert_eq!(db.stats().key_count, 1);
}

#[test]
fn serializers_turn_text_into_bytes_and_back() {
    assert_eq!(PlainSerializer.serialize("h\u{e9}"), Ok(vec![b'h', 0xc3, 0xa9]));
    assert_eq!(PlainSerializer.deserialize(&[b'h', 0xc3, 0xa9]), Ok("h\u{e9}".to_string()));
    assert_eq!(PlainSerializer.deserialize(&[0xff]), Err(Error::InvalidRecord));
    assert_eq!(JsonSerializer.serialize(" [1 , 2] "), Ok(b"[1,2]".to_vec()));
    assert_eq!(JsonSerializer.serialize("{"), Err(Error::Serde));
    assert_eq!(JsonSerializer.deserialize(b"[1,2]"), Ok("[1,2]".to_string()));
    assert_eq!(JsonSerializer.deserialize(&[0xc3]), Err(Error::InvalidRecord));
    assert_eq!(PlainSerializer.box_clone(), PlainSerializer);
    assert_eq!(JsonSerializer.box_clone(), JsonSerializer);
}

#[test]
fn find_follows_puts_and_deletes() {
    let mut db = fresh();
    db.put("u1", r#"{"city":"Oslo","age":30}"#).unwrap();
    db.put("u2", r#"{"city":"Oslo"}"#).unwrap();
    db.put("u3", "plain").unwrap();
    let mut both = db.find("city", "Oslo");
    both.sort();
    assert_eq!(both, vec!["u1".to_string(), "u2".to_string()]);
    assert_eq!(db.find("age", "30"), vec!["u1".to_string()]);
    db.put("u1", r#"{"city":"Rome"}"#).unwrap();
    assert_eq!(db.find("city", "Oslo"), vec!["u2".to_string()]);
    assert_eq!(db.find("city", "Rome"), vec!["u1".to_string()]);
    assert!(db.find("age", "30").is_empty());
    db.delete("u2").unwrap();
    assert!(db.find("city", "Oslo").is_empty());
}

#[test]
fn find_is_rebuilt_on_open_and_after_compaction() {
    let mut db = fresh();
    db.put("u1", r#"{"city":"Oslo"}"#).unwrap();
    db.putex_at("u2", r#"{"city":"Oslo"}"#, 5, 100).unwrap();
    let again = reopen(&db, 100);
    let mut both = again.find("city", "Oslo");
    both.sort();
    assert_eq!(both, vec!["u1".to_string(), "u2".to_string()]);
    db.compact_at(200).unwrap();
    assert_eq!(db.find("city", "Oslo"), vec!["u1".to_string()]);
}

#[test]
fn key_validity_is_checked_on_the_text() {
    assert!(key_is_valid("user:1"));
    assert!(key_is_valid("with space"));
    assert!(!key_is_valid("tab\there"));
    assert!(!key_is_valid("line\nbreak"));
}

#[test]
fn clock_reading_operations_work_on_live_values() {
    let mut db: SlackbaseEngine<PlainSerializer> =
        SlackbaseEngine::open(Vec::new(), Vec::new(), None, PlainSerializer).unwrap();
    db.put("k", "v").unwrap();
    db.putex("t", "w", 100000).unwrap();
    assert_eq!(db.get("k"), Some("v".to_string()));
    assert_eq!(db.get("t"), Some("w".to_string()));
    assert_eq!(db.scan(None, None).len(), 2);
    db.compact().unwrap();
    assert_eq!(db.get("k"), Some("v".to_string()));
    assert_eq!(db.get("t"), Some("w".to_string()));
    let snap = db.snapshot();
    db.delete("k").unwrap();
    db.restore(&snap).unwrap();
    assert_eq!(db.get("k"), Some("v".to_string()));
}

#[test]
fn restart_with_its_own_hint_keeps_expired_keys_indexed() {
    let mut db = SlackbaseEngine::open_at(Vec::new(), Vec::new(), None, PlainSerializer, 1000)
        .unwrap();
    db.put("a", "1").unwrap();
    db.putex_at("k", r#"{"city":"Oslo"}"#, 0, 1000).unwrap();
    let before = db.scan_at(None, None, 1000);
    assert_eq!(
        before,
        vec![("a".to_string(), Some("1".to_string())), ("k".to_string(), None)]
    );
    let mut again = reopen(&db, 1000);
    assert_eq!(again.scan_at(None, None, 1000), before);
    assert_eq!(again.stats().key_count, 2);
    assert_eq!(again.find("city", "Oslo"), db.find("city", "Oslo"));
    assert_eq!(again.find("city", "Oslo"), vec!["k".to_string()]);
    assert_eq!(again.hint_bytes(), db.hint_bytes());
    assert_eq!(again.log_bytes(), db.log_bytes());
}

#[test]
fn open_without_a_hint_drops_expired_keys() {
    let mut db = SlackbaseEngine::open_at(Vec::new(), Vec::new(), None, PlainSerializer, 1000)
        .unwrap();
    db.put("a", "1").unwrap();
    db.putex_at("k", "v", 0, 1000).unwrap();
    let mut again = SlackbaseEngine::open_at(
        db.log_bytes().clone(),
        db.journal_bytes().clone(),
        None,
        PlainSerializer,
        1000,
    )
    .unwrap();
    assert_eq!(again.stats().key_count, 1);
    assert_eq!(again.scan_at(None, None, 1000), vec![("a".to_string(), Some("1".to_string()))]);
}

fn open_with_hint(log: &[u8], hint: &[u8], now: u64) -> SlackbaseEngine<PlainSerializer> {
    SlackbaseEngine::open_at(log.to_vec(), Vec::new(), Some(hint.to_vec()), PlainSerializer, now)
        .unwrap()
}

#[test]
fn hint_that_lacks_an_expired_key_is_loaded() {
    let log = b"put\ta\tMQ==\t\nput\tt\tMg==\t50\n";
    let db = open_with_hint(log, b"a,0,12\n", 100);
    assert_eq!(db.hint_bytes(), b"a,0,12\n".to_vec());
    assert_eq!(db.stats().key_count, 1);
    let with_both = open_with_hint(log, b"a,0,12\nt,12,14\n", 100);
    assert_eq!(with_both.hint_bytes(), b"a,0,12\nt,12,14\n".to_vec());
    assert_eq!(with_both.stats().key_count, 2);
}

#[test]
fn hint_that_lacks_a_live_key_is_passed_over() {
    let log = b"put\ta\tMQ==\t\nput\tt\tMg==\t50\n";
    let mut db = open_with_hint(log, b"a,0,12\n", 40);
    assert_eq!(db.hint_bytes(), b"a,0,12\nt,12,14\n".to_vec());
    assert_eq!(db.get_at("t", 40), Some("2".to_string()));
    let empty = open_with_hint(log, b"", 40);
    assert_eq!(empty.stats().key_count, 2);
}

#[test]
fn hint_that_points_at_an_older_record_is_passed_over() {
    let log = b"put\ta\tMQ==\t\nput\ta\tMg==\t\n";
    let mut db = open_with_hint(log, b"a,0,12\n", 100);
    assert_eq!(db.hint_bytes(), b"a,12,12\n".to_vec());
    assert_eq!(db.get_at("a", 100), Some("2".to_string()));
}

#[test]
fn hint_that_holds_a_deleted_or_unknown_key_is_passed_over() {
    let log = b"put\ta\tMQ==\t\ndel\ta\nput\tb\tMg==\t\n";
    let mut db = open_with_hint(log, b"a,0,12\nb,18,12\n", 100);
    assert_eq!(db.hint_bytes(), b"b,18,12\n".to_vec());
    assert_eq!(db.get_at("a", 100), None);
    let mut other = open_with_hint(log, b"b,18,12\nzzz,0,12\n", 100);
    assert_eq!(other.hint_bytes(), b"b,18,12\n".to_vec());
    assert_eq!(other.get_at("zzz", 100), None);
    let wrong_len = open_with_hint(log, b"b,18,11\n", 100);
    assert_eq!(wrong_len.hint_bytes(), b"b,18,12\n".to_vec());
}

#[test]
fn restore_loads_the_hint_of_the_snapshot() {
    let mut db = SlackbaseEngine::open_at(Vec::new(), Vec::new(), None, PlainSerializer, 1000)
        .unwrap();
    db.putex_at("k", "v", 5, 1000).unwrap();
    let snap = db.snapshot();
    db.delete("k").unwrap();
    db.restore_at(&snap, 2000).unwrap();
    assert_eq!(db.stats().key_count, 1);
    assert_eq!(db.scan_at(None, None, 2000), vec![("k".to_string(), None)]);
}

#[test]
fn batch_is_replayed_whole_after_a_crash_in_the_middle_of_its_replay() {
    let frame = b"BEGIN\nput\tx\tMTA=\t\nput\ty\tMjA=\t\ndel\tx\nEND\n".to_vec();
    let records: [&[u8]; 3] = [b"put\tx\tMTA=\t\n", b"put\ty\tMjA=\t\n", b"del\tx\n"];
    for done in 0..=3 {
        let mut log = b"put\tz\tMQ==\t\n".to_vec();
        let mut journal = b"put\tz\tMQ==\t\n".to_vec();
        journal.extend_from_slice(&frame);
        for r in &records[..done] {
            log.extend_from_slice(r);
            journal.extend_from_slice(r);
        }
        let mut db =
            SlackbaseEngine::open_at(log, journal, None, PlainSerializer, 100).unwrap();
        assert_eq!(db.get_at("x", 100), None);
        assert_eq!(db.get_at("y", 100), Some("20".to_string()));
        assert_eq!(db.get_at("z", 100), Some("1".to_string()));
        assert_eq!(db.stats().key_count, 2);
    }
}
