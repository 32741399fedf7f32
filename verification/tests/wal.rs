use slackbase::wal::{recovery_plan, WAL};

fn lines(text: &[&str]) -> Vec<Vec<u8>> {
    text.iter().map(|l| l.as_bytes().to_vec()).collect()
}

#[test]
fn wal_append_adds_lines_and_flush_makes_them_durable() {
    let mut wal = WAL::open(Vec::new());
    wal.append(b"BEGIN");
    wal.append(b"del\tk");
    assert_eq!(wal.as_bytes(), &b"BEGIN\ndel\tk\n".to_vec());
    assert_eq!(wal.flushed_len(), 0);
    wal.flush();
    assert_eq!(wal.flushed_len(), 12);
    assert_eq!(wal.iter(), lines(&["BEGIN", "del\tk"]));
}

#[test]
fn wal_open_drops_an_unfinished_line() {
    let wal = WAL::open(b"BEGIN\nput\tk\tdg==\t\nEN".to_vec());
    assert_eq!(wal.as_bytes(), &b"BEGIN\nput\tk\tdg==\t\n".to_vec());
    assert_eq!(wal.flushed_len(), 18);
    assert_eq!(wal.iter(), lines(&["BEGIN", "put\tk\tdg==\t"]));
}

#[test]
fn wal_clear_empties_the_journal() {
    let mut wal = WAL::open(b"BEGIN\nEND\n".to_vec());
    wal.clear();
    assert!(wal.as_bytes().is_empty());
    assert_eq!(wal.flushed_len(), 0);
    assert!(wal.iter().is_empty());
}

#[test]
fn recovery_replays_a_closed_batch() {
    let plan = recovery_plan(&lines(&["BEGIN", "put\tx\tMTA=\t", "del\tx", "END"]));
    assert_eq!(plan, lines(&["put\tx\tMTA=\t", "del\tx"]));
}

#[test]
fn recovery_discards_a_batch_without_end() {
    assert!(recovery_plan(&lines(&["BEGIN", "put\tx\tMTA=\t", "del\tx"])).is_empty());
    assert!(recovery_plan(&lines(&["BEGIN"])).is_empty());
}

#[test]
fn recovery_ignores_lines_outside_batches() {
    let plan = recovery_plan(&lines(&[
        "put\ta\tMQ==\t",
        "BEGIN",
        "put\tx\tMTA=\t",
        "END",
        "put\tx\tMTA=\t",
        "del\ta",
    ]));
    assert_eq!(plan, lines(&["put\tx\tMTA=\t"]));
}

#[test]
fn recovery_ignores_end_without_begin() {
    assert!(recovery_plan(&lines(&["END", "put\ta\tMQ==\t", "END"])).is_empty());
}

#[test]
fn recovery_begin_forgets_an_unclosed_batch() {
    let plan = recovery_plan(&lines(&["BEGIN", "del\tlost", "BEGIN", "del\tkept", "END"]));
    assert_eq!(plan, lines(&["del\tkept"]));
}

#[test]
fn recovery_replays_batches_in_order() {
    let plan = recovery_plan(&lines(&[
        "BEGIN", "del\ta", "END", "BEGIN", "END", "BEGIN", "del\tb", "del\tc", "END",
    ]));
    assert_eq!(plan, lines(&["del\ta", "del\tb", "del\tc"]));
}
