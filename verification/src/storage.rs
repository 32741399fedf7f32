//! The data log: an append-only sequence of LF-terminated record lines, and
//! what a forward scan of it yields.

use vstd::prelude::*;

use crate::bytes::{find_byte, lemma_lex_total, lex_lt, slice_copy};
use crate::codec::{decode, decode_record, expired, Record, RecordView, LF};
use crate::offsets::{lemma_slots_map, slots_have, Extent, OffsetIndex};

verus! {

/// A complete line of the log: where it starts, and its bytes without the LF.
pub struct LogLine {
    pub offset: int,
    pub line: Seq<u8>,
}

/// The log is empty or ends with LF.
pub open spec fn terminated(log: Seq<u8>) -> bool {
    log.len() == 0 || log.last() == LF
}

/// The position after the last LF of `s`, or 0.
pub open spec fn last_line_start(s: Seq<u8>) -> int
    decreases s.len(),
{
    if s.len() == 0 {
        0
    } else if s.last() == LF {
        s.len() as int
    } else {
        last_line_start(s.drop_last())
    }
}

/// The complete lines of the log in file order. Bytes after the last LF are
/// an unfinished write and belong to no line.
pub open spec fn records(log: Seq<u8>) -> Seq<LogLine>
    decreases log.len(),
{
    if log.len() == 0 {
        Seq::<LogLine>::empty()
    } else if log.last() != LF {
        records(log.drop_last())
    } else {
        let body = log.drop_last();
        let start = last_line_start(body);
        if 0 <= start <= body.len() {
            records(body.take(start)).push(LogLine { offset: start, line: body.skip(start) })
        } else {
            Seq::<LogLine>::empty()
        }
    }
}

/// The extent of a line, its LF included.
pub open spec fn extent_of(l: LogLine) -> Extent {
    Extent { offset: l.offset as u64, len: (l.line.len() + 1) as usize }
}

/// One step of a scan. A `put` takes over the key's extent; a `del` removes
/// the key; with a clock given, a `put` that has expired removes the key; a
/// line that is no record changes nothing.
pub open spec fn apply_line(acc: Map<Seq<u8>, Extent>, l: LogLine, clock: Option<u64>) -> Map<
    Seq<u8>,
    Extent,
> {
    match decode_record(l.line) {
        Some(RecordView::Put { key, value, expiry }) => {
            if clock is Some && expired(expiry, clock->Some_0) {
                acc.remove(key)
            } else {
                acc.insert(key, extent_of(l))
            }
        },
        Some(RecordView::Del { key }) => acc.remove(key),
        None => acc,
    }
}

/// The index that the lines yield when applied in order.
pub open spec fn replay(lines: Seq<LogLine>, clock: Option<u64>) -> Map<Seq<u8>, Extent>
    decreases lines.len(),
{
    if lines.len() == 0 {
        Map::<Seq<u8>, Extent>::empty()
    } else {
        apply_line(replay(lines.drop_last(), clock), lines.last(), clock)
    }
}

/// The index of the log as a scan at time `now` builds it.
pub open spec fn live_index(log: Seq<u8>, now: u64) -> Map<Seq<u8>, Extent> {
    replay(records(log), Some(now))
}

/// The index of the log with expiry left out of account.
pub open spec fn stored_index(log: Seq<u8>) -> Map<Seq<u8>, Extent> {
    replay(records(log), None)
}

/// The line at an extent, without its LF.
pub open spec fn line_at(log: Seq<u8>, e: Extent) -> Seq<u8> {
    log.subrange(e.offset as int, e.offset + e.len - 1)
}

/// The record at an extent.
pub open spec fn record_at(log: Seq<u8>, e: Extent) -> Option<RecordView> {
    decode_record(line_at(log, e))
}

/// The expiry of the record at an extent.
pub open spec fn expiry_at(log: Seq<u8>, e: Extent) -> Option<u64> {
    match record_at(log, e) {
        Some(RecordView::Put { key, value, expiry }) => expiry,
        _ => None,
    }
}

/// The extent lies in the log, covers one whole line, and the line is a
/// `put` of `key`.
pub open spec fn extent_ok(log: Seq<u8>, key: Seq<u8>, e: Extent) -> bool {
    &&& e.len >= 1
    &&& e.offset + e.len <= log.len()
    &&& log[e.offset + e.len - 1] == LF
    &&& !line_at(log, e).contains(LF)
    &&& record_at(log, e) matches Some(RecordView::Put { key: k, .. }) && k == key
}

/// Each line lies in the log where its offset says, and is followed by LF.
pub open spec fn lines_in(log: Seq<u8>, lines: Seq<LogLine>) -> bool {
    forall|i: int|
        0 <= i < lines.len() ==> {
            let l = #[trigger] lines[i];
            &&& 0 <= l.offset
            &&& l.offset + l.line.len() < log.len()
            &&& log.subrange(l.offset, l.offset + l.line.len()) == l.line
            &&& log[l.offset + l.line.len()] == LF
            &&& !l.line.contains(LF)
        }
}

/// The start of the last line lies in the string, just behind a LF or at the
/// front, and no LF stands behind it.
pub proof fn lemma_last_line_start(s: Seq<u8>)
    ensures
        0 <= last_line_start(s) <= s.len(),
        !s.skip(last_line_start(s)).contains(LF),
        last_line_start(s) > 0 ==> s[last_line_start(s) - 1] == LF,
    decreases s.len(),
{
    if s.len() == 0 {
        assert(s.skip(0) =~= s);
    } else if s.last() == LF {
        assert(s.skip(s.len() as int) =~= Seq::<u8>::empty());
    } else {
        let t = s.drop_last();
        lemma_last_line_start(t);
        let p = last_line_start(t);
        let tail = s.skip(p);
        if tail.contains(LF) {
            let j = choose|j: int| 0 <= j < tail.len() && tail[j] == LF;
            if j < tail.len() - 1 {
                assert(t.skip(p)[j] == LF);
                assert(t.skip(p).contains(LF));
            }
        }
    }
}

/// After a terminated log, a stretch without LF starts the last line.
pub proof fn lemma_last_line_start_append(log: Seq<u8>, line: Seq<u8>)
    requires
        terminated(log),
        !line.contains(LF),
    ensures
        last_line_start(log + line) == log.len(),
    decreases line.len(),
{
    if line.len() == 0 {
        assert(log + line =~= log);
    } else {
        let s = log + line;
        assert(s.last() == line.last());
        assert(line.contains(line.last()));
        assert(s.drop_last() =~= log + line.drop_last());
        assert(!line.drop_last().contains(LF)) by {
            if line.drop_last().contains(LF) {
                let j = choose|j: int| 0 <= j < line.drop_last().len() && line.drop_last()[j] == LF;
                assert(line[j] == LF);
            }
        }
        lemma_last_line_start_append(log, line.drop_last());
    }
}

/// Appending a line and its LF to a terminated log appends one record.
pub proof fn lemma_records_append(log: Seq<u8>, line: Seq<u8>)
    requires
        terminated(log),
        !line.contains(LF),
    ensures
        records(log + line + seq![LF]) == records(log).push(
            LogLine { offset: log.len() as int, line },
        ),
        terminated(log + line + seq![LF]),
{
    let s = log + line + seq![LF];
    let body = s.drop_last();
    assert(body =~= log + line);
    lemma_last_line_start_append(log, line);
    assert(body.take(log.len() as int) =~= log);
    assert(body.skip(log.len() as int) =~= line);
}

/// Bytes after the last LF add no record.
pub proof fn lemma_records_tail(log: Seq<u8>, tail: Seq<u8>)
    requires
        !tail.contains(LF),
    ensures
        records(log + tail) == records(log),
    decreases tail.len(),
{
    if tail.len() == 0 {
        assert(log + tail =~= log);
    } else {
        let s = log + tail;
        assert(s.last() == tail.last());
        assert(tail.contains(tail.last()));
        assert(s.drop_last() =~= log + tail.drop_last());
        assert(!tail.drop_last().contains(LF)) by {
            if tail.drop_last().contains(LF) {
                let j = choose|j: int| 0 <= j < tail.drop_last().len() && tail.drop_last()[j] == LF;
                assert(tail[j] == LF);
            }
        }
        lemma_records_tail(log, tail.drop_last());
    }
}

/// The records of a log lie in it.
pub proof fn lemma_records_in(log: Seq<u8>)
    ensures
        lines_in(log, records(log)),
    decreases log.len(),
{
    if log.len() == 0 {
    } else if log.last() != LF {
        lemma_records_in(log.drop_last());
        lemma_lines_in_longer(log.drop_last(), seq![log.last()], records(log.drop_last()));
        assert(log.drop_last() + seq![log.last()] =~= log);
    } else {
        let body = log.drop_last();
        let start = last_line_start(body);
        lemma_last_line_start(body);
        let head = body.take(start);
        lemma_records_in(head);
        lemma_lines_in_longer(head, log.skip(start), records(head));
        assert(head + log.skip(start) =~= log);
        let l = LogLine { offset: start, line: body.skip(start) };
        assert(log.subrange(start, start + l.line.len()) =~= l.line);
        let rs = records(log);
        assert forall|i: int| 0 <= i < rs.len() implies {
            let l = #[trigger] rs[i];
            &&& 0 <= l.offset
            &&& l.offset + l.line.len() < log.len()
            &&& log.subrange(l.offset, l.offset + l.line.len()) == l.line
            &&& log[l.offset + l.line.len()] == LF
            &&& !l.line.contains(LF)
        } by {
            if i < rs.len() - 1 {
                assert(rs[i] == records(head)[i]);
            }
        }
    }
}

/// Lines that lie in a log lie in every extension of it.
pub proof fn lemma_lines_in_longer(log: Seq<u8>, more: Seq<u8>, lines: Seq<LogLine>)
    requires
        lines_in(log, lines),
    ensures
        lines_in(log + more, lines),
{
    let ext = log + more;
    assert forall|i: int| 0 <= i < lines.len() implies {
        let l = #[trigger] lines[i];
        &&& 0 <= l.offset
        &&& l.offset + l.line.len() < ext.len()
        &&& ext.subrange(l.offset, l.offset + l.line.len()) == l.line
        &&& ext[l.offset + l.line.len()] == LF
        &&& !l.line.contains(LF)
    } by {
        let l = lines[i];
        assert(ext.subrange(l.offset, l.offset + l.line.len()) =~= log.subrange(
            l.offset,
            l.offset + l.line.len(),
        ));
    }
}

/// What a replay holds: every entry is the extent of a `put` of its key, and
/// under a clock that `put` has not expired.
pub open spec fn entries_ok(log: Seq<u8>, m: Map<Seq<u8>, Extent>, clock: Option<u64>) -> bool {
    forall|k: Seq<u8>| #[trigger]
        m.contains_key(k) ==> extent_ok(log, k, m[k]) && (clock is Some ==> !expired(
            expiry_at(log, m[k]),
            clock->Some_0,
        ))
}

/// The extent of a line that lies in the log covers the line.
pub proof fn lemma_extent_of_line(log: Seq<u8>, l: LogLine)
    requires
        log.len() <= usize::MAX,
        0 <= l.offset,
        l.offset + l.line.len() < log.len(),
        log.subrange(l.offset, l.offset + l.line.len()) == l.line,
    ensures
        extent_of(l).offset == l.offset,
        extent_of(l).len == l.line.len() + 1,
        line_at(log, extent_of(l)) == l.line,
{
}

/// Every entry of a replay is the extent of a `put` of its key.
pub proof fn lemma_replay_ok(log: Seq<u8>, lines: Seq<LogLine>, clock: Option<u64>)
    requires
        log.len() <= usize::MAX,
        lines_in(log, lines),
    ensures
        entries_ok(log, replay(lines, clock), clock),
    decreases lines.len(),
{
    if lines.len() > 0 {
        let init = lines.drop_last();
        let l = lines.last();
        assert forall|i: int| 0 <= i < init.len() implies {
            let l = #[trigger] init[i];
            &&& 0 <= l.offset
            &&& l.offset + l.line.len() < log.len()
            &&& log.subrange(l.offset, l.offset + l.line.len()) == l.line
            &&& log[l.offset + l.line.len()] == LF
            &&& !l.line.contains(LF)
        } by {
            assert(init[i] == lines[i]);
        }
        lemma_replay_ok(log, init, clock);
        lemma_extent_of_line(log, l);
    }
}

/// How the index of a scan under a clock stands to the index without one:
/// it holds the same extents, and lacks only keys whose `put` has expired.
pub open spec fn filtered(
    log: Seq<u8>,
    live: Map<Seq<u8>, Extent>,
    all: Map<Seq<u8>, Extent>,
    now: u64,
) -> bool {
    &&& forall|k: Seq<u8>| #[trigger]
        live.contains_key(k) ==> all.contains_key(k) && all[k] == live[k]
    &&& forall|k: Seq<u8>|
        all.contains_key(k) && !live.contains_key(k) ==> expired(
            expiry_at(log, #[trigger] all[k]),
            now,
        )
}

/// A replay under a clock against the replay without one.
pub proof fn lemma_replay_filtered(log: Seq<u8>, lines: Seq<LogLine>, now: u64)
    requires
        log.len() <= usize::MAX,
        lines_in(log, lines),
    ensures
        filtered(log, replay(lines, Some(now)), replay(lines, None), now),
    decreases lines.len(),
{
    if lines.len() > 0 {
        let init = lines.drop_last();
        let l = lines.last();
        assert forall|i: int| 0 <= i < init.len() implies {
            let l = #[trigger] init[i];
            &&& 0 <= l.offset
            &&& l.offset + l.line.len() < log.len()
            &&& log.subrange(l.offset, l.offset + l.line.len()) == l.line
            &&& log[l.offset + l.line.len()] == LF
            &&& !l.line.contains(LF)
        } by {
            assert(init[i] == lines[i]);
        }
        lemma_replay_filtered(log, init, now);
        lemma_extent_of_line(log, l);
    }
}

/// The index of a scan at `now` against the index without a clock.
pub proof fn lemma_live_index(log: Seq<u8>, now: u64)
    requires
        log.len() <= usize::MAX,
    ensures
        filtered(log, live_index(log, now), stored_index(log), now),
        entries_ok(log, live_index(log, now), Some(now)),
        entries_ok(log, stored_index(log), None),
{
    lemma_records_in(log);
    lemma_replay_filtered(log, records(log), now);
    lemma_replay_ok(log, records(log), Some(now));
    lemma_replay_ok(log, records(log), None);
}

/// Appends `record` and a LF to the log; returns the offset of the new line
/// and its length with the LF.
pub fn append_record(log: &mut Vec<u8>, record: &[u8]) -> (r: (u64, usize))
    ensures
        final(log)@ == old(log)@ + record@ + seq![LF],
        r.0 == old(log)@.len(),
        r.1 == record@.len() + 1,
{
    let offset = log.len();
    log.extend_from_slice(record);
    log.push(LF);
    proof {
        assert(log@ =~= old(log)@ + record@ + seq![LF]);
    }
    (offset as u64, log.len() - offset)
}

/// The bytes without one trailing LF.
pub open spec fn chomp(s: Seq<u8>) -> Seq<u8> {
    if s.len() > 0 && s.last() == LF {
        s.drop_last()
    } else {
        s
    }
}

/// The line at `(offset, len)` without its LF, or `None` when the extent
/// reaches past the end of the log.
pub fn read_record_slice(log: &[u8], offset: u64, len: usize) -> (r: Option<Vec<u8>>)
    ensures
        offset + len > log@.len() ==> r is None,
        offset + len <= log@.len() ==> r is Some && r->Some_0@ == chomp(
            log@.subrange(offset as int, offset + len),
        ),
{
    if offset > log.len() as u64 {
        return None;
    }
    let start = offset as usize;
    if len > log.len() - start {
        return None;
    }
    let end = start + len;
    let ghost s = log@.subrange(start as int, end as int);
    if len > 0 && log[end - 1] == LF {
        let out = slice_copy(log, start, end - 1);
        proof {
            assert(s.last() == log@[end - 1]);
            assert(out@ =~= s.drop_last());
        }
        Some(out)
    } else {
        let out = slice_copy(log, start, end);
        proof {
            if len > 0 {
                assert(s.last() == log@[end - 1]);
            }
        }
        Some(out)
    }
}

/// The index that one forward scan of the log gives, the records applied
/// in file order; with a clock, a `put` that has expired by it removes its
/// key, without one no `put` counts as expired.
pub fn scan_log(log: &[u8], clock: Option<u64>) -> (r: OffsetIndex)
    ensures
        r.wf(),
        r@ == replay(records(log@), clock),
{
    let mut idx = OffsetIndex::new();
    let mut pos: usize = 0;
    proof {
        assert(log@.take(0) =~= Seq::<u8>::empty());
    }
    loop
        invariant
            pos <= log.len(),
            idx.wf(),
            terminated(log@.take(pos as int)),
            idx@ == replay(records(log@.take(pos as int)), clock),
        decreases log.len() - pos,
    {
        let end = find_byte(log, pos, LF);
        let ghost head = log@.take(pos as int);
        if end >= log.len() {
            proof {
                let tail = log@.skip(pos as int);
                assert(!tail.contains(LF)) by {
                    if tail.contains(LF) {
                        let j = choose|j: int| 0 <= j < tail.len() && tail[j] == LF;
                        assert(log@[pos + j] == LF);
                    }
                }
                lemma_records_tail(head, tail);
                assert(head + tail =~= log@);
            }
            return idx;
        }
        let line = slice_copy(log, pos, end);
        proof {
            assert(!line@.contains(LF)) by {
                if line@.contains(LF) {
                    let j = choose|j: int| 0 <= j < line@.len() && line@[j] == LF;
                    assert(log@[pos + j] == LF);
                }
            }
            lemma_records_append(head, line@);
            assert(head + line@ + seq![LF] =~= log@.take(end + 1));
            let l = LogLine { offset: pos as int, line: line@ };
            assert(records(log@.take(end + 1)).drop_last() =~= records(head));
        }
        match decode(line.as_slice()) {
            Ok(Record::Put { key, value, expiry }) => {
                let is_expired = match (expiry, clock) {
                    (Some(e), Some(now)) => e <= now,
                    _ => false,
                };
                if is_expired {
                    idx.remove(key.as_slice());
                } else {
                    idx.insert(key, Extent { offset: pos as u64, len: end - pos + 1 });
                }
            },
            Ok(Record::Del { key }) => {
                idx.remove(key.as_slice());
            },
            Err(_) => {},
        }
        pos = end + 1;
    }
}

/// The offset index of the log as of `now`: one forward scan, applying the
/// records in file order.
pub fn build_offset_index(log: &[u8], now: u64) -> (r: OffsetIndex)
    ensures
        r.wf(),
        r@ == live_index(log@, now),
{
    scan_log(log, Some(now))
}

/// What has expired by some time has expired by every later time, so an
/// index that follows the log at one time follows it at every later time.
pub proof fn lemma_filtered_later(
    log: Seq<u8>,
    index: Map<Seq<u8>, Extent>,
    all: Map<Seq<u8>, Extent>,
    clock: u64,
    now: u64,
)
    requires
        filtered(log, index, all, clock),
        clock <= now,
    ensures
        filtered(log, index, all, now),
{
    assert forall|k: Seq<u8>| all.contains_key(k) && !index.contains_key(k) implies expired(
        expiry_at(log, #[trigger] all[k]),
        now,
    ) by {
        assert(expired(expiry_at(log, all[k]), clock));
    }
}

/// The key of a line that is a record.
pub open spec fn line_key(l: LogLine) -> Seq<u8> {
    decode_record(l.line)->Some_0.key()
}

/// Every line is a `put` that has not expired at `now`.
pub open spec fn live_puts(lines: Seq<LogLine>, now: u64) -> bool {
    forall|i: int|
        0 <= i < lines.len() ==> (decode_record(
            (#[trigger] lines[i]).line,
        ) matches Some(RecordView::Put { key, value, expiry }) && !expired(expiry, now))
}

/// The keys of the lines stand in strictly ascending order.
pub open spec fn ascending_keys(lines: Seq<LogLine>) -> bool {
    forall|i: int, j: int|
        0 <= i < j < lines.len() ==> lex_lt(line_key(#[trigger] lines[i]), line_key(#[trigger] lines[j]))
}

/// Replaying live `put`s of distinct keys indexes each line under its key.
pub proof fn lemma_replay_puts(lines: Seq<LogLine>, now: u64, clock: Option<u64>)
    requires
        live_puts(lines, now),
        ascending_keys(lines),
        clock is Some ==> clock->Some_0 == now,
    ensures
        forall|k: Seq<u8>| #[trigger]
            replay(lines, clock).contains_key(k) <==> exists|i: int|
                0 <= i < lines.len() && line_key(#[trigger] lines[i]) == k,
        forall|i: int|
            0 <= i < lines.len() ==> replay(lines, clock)[line_key(#[trigger] lines[i])]
                == extent_of(lines[i]),
    decreases lines.len(),
{
    if lines.len() > 0 {
        let init = lines.drop_last();
        let l = lines.last();
        assert forall|i: int| 0 <= i < init.len() implies (decode_record(
            (#[trigger] init[i]).line,
        ) matches Some(RecordView::Put { key, value, expiry }) && !expired(expiry, now)) by {
            assert(init[i] == lines[i]);
        }
        assert forall|i: int, j: int| 0 <= i < j < init.len() implies lex_lt(
            line_key(#[trigger] init[i]),
            line_key(#[trigger] init[j]),
        ) by {
            assert(init[i] == lines[i] && init[j] == lines[j]);
        }
        lemma_replay_puts(init, now, clock);
        let m0 = replay(init, clock);
        let m1 = replay(lines, clock);
        assert(decode_record(l.line) is Some);
        assert(m1 == m0.insert(line_key(l), extent_of(l)));
        assert forall|k: Seq<u8>| #[trigger] m1.contains_key(k) <==> exists|i: int|
            0 <= i < lines.len() && line_key(#[trigger] lines[i]) == k by {
            if m1.contains_key(k) {
                if k == line_key(l) {
                    assert(line_key(lines[lines.len() - 1]) == k);
                } else {
                    assert(m0.contains_key(k));
                    let i = choose|i: int| 0 <= i < init.len() && line_key(#[trigger] init[i]) == k;
                    assert(line_key(lines[i]) == k);
                }
            }
            if exists|i: int| 0 <= i < lines.len() && line_key(#[trigger] lines[i]) == k {
                let i = choose|i: int| 0 <= i < lines.len() && line_key(#[trigger] lines[i]) == k;
                if i < init.len() {
                    assert(line_key(init[i]) == k);
                }
            }
        }
        assert forall|i: int| 0 <= i < lines.len() implies m1[line_key(#[trigger] lines[i])]
            == extent_of(lines[i]) by {
            if i < init.len() {
                assert(init[i] == lines[i]);
                lemma_lex_total(line_key(lines[i]), line_key(l));
            }
        }
    }
}

/// What compaction owes: the new log holds the live records of the old one
/// and nothing else, one line per key, in key order.
pub open spec fn compacted(log: Seq<u8>, out: Seq<u8>, now: u64) -> bool {
    let lines = records(out);
    let live = live_index(log, now);
    &&& terminated(out)
    &&& live_puts(lines, now)
    &&& ascending_keys(lines)
    &&& forall|i: int|
        0 <= i < lines.len() ==> live.contains_key(line_key(#[trigger] lines[i])) && line_at(
            log,
            live[line_key(lines[i])],
        ) == lines[i].line
    &&& forall|k: Seq<u8>| #[trigger]
        live.contains_key(k) ==> exists|i: int|
            0 <= i < lines.len() && line_key(#[trigger] lines[i]) == k
    &&& live_index(out, now) == stored_index(out)
    &&& live_index(out, now).dom() == live.dom()
    &&& forall|i: int|
        0 <= i < lines.len() ==> live_index(out, now)[line_key(#[trigger] lines[i])] == extent_of(
            lines[i],
        )
}

/// Rewrites the log as of `now`: for each key the latest record is kept if
/// it is a `put` that has not expired; everything else is dropped.
pub fn compact_log(log: &[u8], now: u64) -> (out: Vec<u8>)
    ensures
        compacted(log@, out@, now),
{
    let idx = build_offset_index(log, now);
    let mut out: Vec<u8> = Vec::new();
    let mut i: usize = 0;
    let ghost slots = idx.slots();
    proof {
        assert(log@.len() == log.len());
        lemma_live_index(log@, now);
        lemma_slots_map(slots);
    }
    while i < idx.len()
        invariant
            i <= slots.len(),
            slots == idx.slots(),
            idx.wf(),
            idx@ == live_index(log@, now),
            entries_ok(log@, idx@, Some(now)),
            forall|j: int|
                0 <= j < slots.len() ==> idx@.contains_key(#[trigger] slots[j].key) && idx@[slots[j].key]
                    == slots[j].extent,
            terminated(out@),
            log@.len() <= usize::MAX,
            records(out@).len() == i,
            forall|j: int|
                0 <= j < i ==> (#[trigger] records(out@)[j]).line == line_at(
                    log@,
                    slots[j].extent,
                ),
        decreases slots.len() - i,
    {
        let e = idx.extent_at(i);
        proof {
            assert(idx@.contains_key(slots[i as int].key));
            assert(extent_ok(log@, slots[i as int].key, e));
        }
        let start = e.offset as usize;
        let end = start + e.len;
        let line = slice_copy(log, start, end - 1);
        let ghost before = out@;
        proof {
            assert(line@ == line_at(log@, e));
            lemma_records_append(before, line@);
        }
        out.extend_from_slice(line.as_slice());
        out.push(LF);
        proof {
            assert(out@ =~= before + line@ + seq![LF]);
            assert forall|j: int| 0 <= j < i + 1 implies (#[trigger] records(out@)[j]).line
                == line_at(log@, slots[j].extent) by {
                if j < i {
                    assert(records(out@)[j] == records(before)[j]);
                }
            }
        }
        i += 1;
    }
    proof {
        let lines = records(out@);
        let live = live_index(log@, now);
        assert forall|j: int| 0 <= j < lines.len() implies (decode_record(
            (#[trigger] lines[j]).line,
        ) matches Some(RecordView::Put { key, value, expiry }) && !expired(expiry, now))
            && line_key(lines[j]) == slots[j].key by {
            assert(idx@.contains_key(slots[j].key));
            assert(extent_ok(log@, slots[j].key, slots[j].extent));
        }
        assert(ascending_keys(lines)) by {
            assert forall|a: int, b: int| 0 <= a < b < lines.len() implies lex_lt(
                line_key(#[trigger] lines[a]),
                line_key(#[trigger] lines[b]),
            ) by {
                assert(lex_lt(slots[a].key, slots[b].key));
            }
        }
        lemma_replay_puts(lines, now, Some(now));
        lemma_replay_puts(lines, now, None);
        assert(live_index(out@, now) =~= stored_index(out@));
        assert forall|k: Seq<u8>| #[trigger] live.contains_key(k) implies exists|j: int|
            0 <= j < lines.len() && line_key(#[trigger] lines[j]) == k by {
            assert(slots_have(slots, k));
            let j = choose|j: int| 0 <= j < slots.len() && #[trigger] slots[j].key == k;
            assert(line_key(lines[j]) == k);
        }
        assert(live_index(out@, now).dom() =~= live.dom()) by {
            assert forall|k: Seq<u8>| live_index(out@, now).contains_key(k) == live.contains_key(
                k,
            ) by {
                if live_index(out@, now).contains_key(k) {
                    let j = choose|j: int|
                        0 <= j < lines.len() && line_key(#[trigger] lines[j]) == k;
                    assert(idx@.contains_key(slots[j].key));
                }
            }
        }
    }
    out
}

/// The views of a vector of records.
pub open spec fn record_views(v: Seq<Record>) -> Seq<RecordView> {
    Seq::new(v.len(), |i: int| v[i]@)
}

/// The records that the lines hold, in order; lines that are no record are
/// passed over.
pub open spec fn decoded(lines: Seq<LogLine>) -> Seq<RecordView>
    decreases lines.len(),
{
    if lines.len() == 0 {
        Seq::<RecordView>::empty()
    } else {
        let init = decoded(lines.drop_last());
        match decode_record(lines.last().line) {
            Some(r) => init.push(r),
            None => init,
        }
    }
}

/// All records of the log in file order.
pub fn read_records(log: &[u8]) -> (r: Vec<Record>)
    ensures
        record_views(r@) == decoded(records(log@)),
{
    let mut out: Vec<Record> = Vec::new();
    let mut pos: usize = 0;
    proof {
        assert(log@.take(0) =~= Seq::<u8>::empty());
        assert(record_views(out@) =~= Seq::<RecordView>::empty());
    }
    loop
        invariant
            pos <= log.len(),
            terminated(log@.take(pos as int)),
            record_views(out@) == decoded(records(log@.take(pos as int))),
        decreases log.len() - pos,
    {
        let end = find_byte(log, pos, LF);
        let ghost head = log@.take(pos as int);
        if end >= log.len() {
            proof {
                let tail = log@.skip(pos as int);
                assert(!tail.contains(LF)) by {
                    if tail.contains(LF) {
                        let j = choose|j: int| 0 <= j < tail.len() && tail[j] == LF;
                        assert(log@[pos + j] == LF);
                    }
                }
                lemma_records_tail(head, tail);
                assert(head + tail =~= log@);
            }
            return out;
        }
        let line = slice_copy(log, pos, end);
        proof {
            assert(!line@.contains(LF)) by {
                if line@.contains(LF) {
                    let j = choose|j: int| 0 <= j < line@.len() && line@[j] == LF;
                    assert(log@[pos + j] == LF);
                }
            }
            lemma_records_append(head, line@);
            assert(head + line@ + seq![LF] =~= log@.take(end + 1));
            assert(records(log@.take(end + 1)).drop_last() =~= records(head));
        }
        let ghost before = record_views(out@);
        match decode(line.as_slice()) {
            Ok(rec) => {
                out.push(rec);
                proof {
                    assert(record_views(out@) =~= before.push(rec@));
                }
            },
            Err(_) => {},
        }
        pos = end + 1;
    }
}

/// Cuts off the bytes after the last LF: an unfinished write.
pub fn drop_torn_tail(log: &mut Vec<u8>)
    ensures
        final(log)@ == old(log)@.take(last_line_start(old(log)@)),
        terminated(final(log)@),
        records(final(log)@) == records(old(log)@),
{
    let mut n: usize = log.len();
    proof {
        assert(log@.take(n as int) =~= log@);
    }
    while n > 0 && log[n - 1] != LF
        invariant
            n <= log.len(),
            log@ == old(log)@,
            last_line_start(log@.take(n as int)) == last_line_start(log@),
        decreases n,
    {
        proof {
            assert(log@.take(n as int).drop_last() =~= log@.take(n - 1));
        }
        n -= 1;
    }
    proof {
        lemma_last_line_start(log@);
        let head = log@.take(n as int);
        if n > 0 {
            assert(head.last() == log@[n - 1]);
        }
        assert(last_line_start(head) == n);
        let tail = log@.skip(n as int);
        lemma_records_tail(head, tail);
        assert(head + tail =~= log@);
    }
    log.truncate(n);
}

} // verus!
