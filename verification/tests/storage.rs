use slackbase::codec::Record;
use slackbase::hint::{load_hint, save_hint};
use slackbase::offsets::{Extent, OffsetIndex};
use slackbase::storage::{
    append_record, build_offset_index, compact_log, drop_torn_tail, read_record_slice, read_records,
};

#[test]
fn append_record_returns_offset_and_length_with_newline() {
    let mut log = Vec::new();
    assert_eq!(append_record(&mut log, b"put\ta\tMQ==\t"), (0, 12));
    assert_eq!(append_record(&mut log, b"del\ta"), (12, 6));
    assert_eq!(log, b"put\ta\tMQ==\t\ndel\ta\n".to_vec());
}

#[test]
fn read_record_slice_strips_the_newline() {
    let log = b"put\ta\tMQ==\t\ndel\ta\n";
    assert_eq!(read_record_slice(log, 0, 12), Some(b"put\ta\tMQ==\t".to_vec()));
    assert_eq!(read_record_slice(log, 12, 6), Some(b"del\ta".to_vec()));
    assert_eq!(read_record_slice(log, 12, 5), Some(b"del\ta".to_vec()));
    assert_eq!(read_record_slice(log, 0, 0), Some(Vec::new()));
}

#[test]
fn read_record_slice_beyond_the_log_gives_none() {
    let log = b"del\ta\n";
    assert_eq!(read_record_slice(log, 0, 7), None);
    assert_eq!(read_record_slice(log, 7, 0), None);
    assert_eq!(read_record_slice(log, 6, 0), Some(Vec::new()));
    assert_eq!(read_record_slice(log, u64::MAX, usize::MAX), None);
}

#[test]
fn index_follows_the_latest_record_of_each_key() {
    let log = b"put\ta\tMQ==\t\nput\tb\tMg==\t\nput\ta\tMg==\t\n";
    let idx = build_offset_index(log, 100);
    assert_eq!(idx.len(), 2);
    assert_eq!(idx.get(b"a"), Some(Extent { offset: 24, len: 12 }));
    assert_eq!(idx.get(b"b"), Some(Extent { offset: 12, len: 12 }));
    assert_eq!(idx.get(b"c"), None);
}

#[test]
fn index_drops_deleted_keys() {
    let log = b"put\ta\tMQ==\t\ndel\ta\nput\tb\tMg==\t\n";
    let idx = build_offset_index(log, 100);
    assert_eq!(idx.get(b"a"), None);
    assert_eq!(idx.get(b"b"), Some(Extent { offset: 18, len: 12 }));
}

#[test]
fn index_drops_keys_whose_put_has_expired() {
    let log = b"put\ta\tMQ==\t\nput\ta\tMg==\t50\nput\tb\tMg==\t100\nput\tc\tMg==\t101\n";
    let idx = build_offset_index(log, 100);
    assert_eq!(idx.get(b"a"), None);
    assert_eq!(idx.get(b"b"), None);
    assert_eq!(idx.get(b"c"), Some(Extent { offset: 41, len: 15 }));
    let earlier = build_offset_index(log, 49);
    assert_eq!(earlier.get(b"a"), Some(Extent { offset: 12, len: 14 }));
}

#[test]
fn index_passes_over_lines_that_are_no_record() {
    let log = b"\ngarbage\nput\ta\tMQ==\t\nput\tonly\n";
    let idx = build_offset_index(log, 0);
    assert_eq!(idx.len(), 1);
    assert_eq!(idx.get(b"a"), Some(Extent { offset: 9, len: 12 }));
}

#[test]
fn index_ignores_an_unfinished_last_line() {
    let log = b"put\ta\tMQ==\t\nput\tb\tMg==\t";
    let idx = build_offset_index(log, 0);
    assert_eq!(idx.len(), 1);
    assert_eq!(idx.get(b"b"), None);
    let empty = build_offset_index(b"", 0);
    assert_eq!(empty.len(), 0);
}

#[test]
fn drop_torn_tail_cuts_after_the_last_newline() {
    let mut log = b"del\ta\nput\tb".to_vec();
    drop_torn_tail(&mut log);
    assert_eq!(log, b"del\ta\n".to_vec());
    let mut whole = b"del\ta\n".to_vec();
    drop_torn_tail(&mut whole);
    assert_eq!(whole, b"del\ta\n".to_vec());
    let mut none = b"no newline".to_vec();
    drop_torn_tail(&mut none);
    assert!(none.is_empty());
}

#[test]
fn compact_keeps_one_live_put_per_key_in_key_order() {
    let log = b"put\tb\tMQ==\t\nput\ta\tMQ==\t\nput\tb\tMg==\t\nput\tc\tMQ==\t\ndel\tc\nput\td\tMQ==\t10\nput\te\tMQ==\t500\n";
    let out = compact_log(log, 100);
    assert_eq!(out, b"put\ta\tMQ==\t\nput\tb\tMg==\t\nput\te\tMQ==\t500\n".to_vec());
    let idx = build_offset_index(&out, 100);
    assert_eq!(idx.len(), 3);
    assert_eq!(idx.get(b"a"), Some(Extent { offset: 0, len: 12 }));
    assert_eq!(idx.get(b"b"), Some(Extent { offset: 12, len: 12 }));
    assert_eq!(idx.get(b"e"), Some(Extent { offset: 24, len: 15 }));
}

#[test]
fn compact_of_an_empty_or_dead_log_is_empty() {
    assert!(compact_log(b"", 0).is_empty());
    assert!(compact_log(b"put\ta\tMQ==\t\ndel\ta\n", 0).is_empty());
    assert!(compact_log(b"put\ta\tMQ==\t5\n", 5).is_empty());
}

#[test]
fn compact_twice_changes_nothing_more() {
    let log = b"put\tb\tMQ==\t\nput\ta\tMQ==\t\ndel\tb\n";
    let once = compact_log(log, 0);
    assert_eq!(compact_log(&once, 0), once);
}

#[test]
fn read_records_gives_the_records_in_file_order() {
    let log = b"put\ta\tMQ==\t\nnoise\ndel\ta\nput\tb\tMg==\t7\ntorn";
    let records = read_records(log);
    assert_eq!(records.len(), 3);
    assert!(matches!(&records[0], Record::Put { key, expiry: None, .. } if key == b"a"));
    assert!(matches!(&records[1], Record::Del { key } if key == b"a"));
    assert!(matches!(&records[2], Record::Put { key, expiry: Some(7), .. } if key == b"b"));
}

#[test]
fn hint_lists_key_offset_and_length() {
    let mut idx = OffsetIndex::new();
    idx.insert(b"b".to_vec(), Extent { offset: 12, len: 12 });
    idx.insert(b"a".to_vec(), Extent { offset: 0, len: 12 });
    assert_eq!(save_hint(&idx), b"a,0,12\nb,12,12\n".to_vec());
}

#[test]
fn hint_reads_back_as_the_index() {
    let mut idx = OffsetIndex::new();
    idx.insert(b"plain".to_vec(), Extent { offset: 0, len: 20 });
    idx.insert(b"with,comma".to_vec(), Extent { offset: 20, len: 30 });
    idx.insert(b"".to_vec(), Extent { offset: 50, len: 9 });
    let loaded = load_hint(&save_hint(&idx));
    assert!(loaded.same_as(&idx));
    assert_eq!(loaded.get(b"with,comma"), Some(Extent { offset: 20, len: 30 }));
    assert_eq!(loaded.get(b""), Some(Extent { offset: 50, len: 9 }));
}

#[test]
fn hint_lines_that_hold_no_entry_are_passed_over() {
    let loaded = load_hint(b"a,1,2\nnonsense\nb,x,3\nc,4\nd,5,6\ne,7,8");
    assert_eq!(loaded.len(), 2);
    assert_eq!(loaded.get(b"a"), Some(Extent { offset: 1, len: 2 }));
    assert_eq!(loaded.get(b"d"), Some(Extent { offset: 5, len: 6 }));
    assert_eq!(loaded.get(b"e"), None);
}

#[test]
fn offset_index_insert_replaces_and_remove_forgets() {
    let mut idx = OffsetIndex::new();
    idx.insert(b"k".to_vec(), Extent { offset: 1, len: 2 });
    idx.insert(b"k".to_vec(), Extent { offset: 3, len: 4 });
    assert_eq!(idx.len(), 1);
    assert_eq!(idx.get(b"k"), Some(Extent { offset: 3, len: 4 }));
    assert!(idx.remove(b"k"));
    assert!(!idx.remove(b"k"));
    assert_eq!(idx.get(b"k"), None);
    assert_eq!(idx.len(), 0);
}

#[test]
fn offset_index_keeps_keys_in_byte_order() {
    let mut idx = OffsetIndex::new();
    for k in ["m", "b", "z", "a", "ab", "B"] {
        idx.insert(k.as_bytes().to_vec(), Extent { offset: 0, len: 1 });
    }
    let keys: Vec<Vec<u8>> = (0..idx.len()).map(|i| idx.key_at(i).clone()).collect();
    assert_eq!(
        keys,
        vec![b"B".to_vec(), b"a".to_vec(), b"ab".to_vec(), b"b".to_vec(), b"m".to_vec(), b"z".to_vec()]
    );
}
