//! What the store holds, as a mapping from key to stored entry, and how the
//! log, the cache and the secondary index stand to it.

use vstd::prelude::*;
use vstd::utf8::encode_utf8;

use crate::cache::Cached;
use crate::codec::{
    base64_data, decode_record, expired, lemma_decode_encode, lemma_encode_no_newline,
    encode_record, well_formed, RecordView, LF,
};
use crate::index::{bindings_of, text_pairs, Triple};
use crate::offsets::Extent;
use crate::serialization::Serializer;
use crate::storage::{
    expiry_at, extent_of, extent_ok, filtered, lemma_live_index, lemma_records_append, line_at,
    record_at, records, stored_index, terminated, LogLine,
};

verus! {

/// What is stored for a key: the base64 text of the serialized value, and
/// when it expires.
pub struct Entry {
    pub value: Seq<u8>,
    pub expiry: Option<u64>,
}

/// The store as a mapping from key bytes to entry.
pub type Store = Map<Seq<u8>, Entry>;

/// The entry that the record at an extent holds.
pub open spec fn entry_at(log: Seq<u8>, e: Extent) -> Entry {
    match record_at(log, e) {
        Some(RecordView::Put { key, value, expiry }) => Entry { value, expiry },
        _ => Entry { value: Seq::empty(), expiry: None },
    }
}

/// The store that an index over a log stands for.
pub open spec fn store_of(log: Seq<u8>, index: Map<Seq<u8>, Extent>) -> Store {
    Map::new(|k: Seq<u8>| index.contains_key(k), |k: Seq<u8>| entry_at(log, index[k]))
}

/// The value that an entry reads as.
pub open spec fn value_text<S: Serializer>(s: S, e: Entry) -> Option<Seq<char>> {
    match base64_data(e.value) {
        Some(data) => s.decoded(data),
        None => None,
    }
}

/// The value stored for `key`, expired or not.
pub open spec fn stored_text<S: Serializer>(s: S, m: Store, key: Seq<u8>) -> Option<Seq<char>> {
    if m.contains_key(key) {
        value_text(s, m[key])
    } else {
        None
    }
}

/// The store without the entries that have expired at `now`.
pub open spec fn purged(m: Store, now: u64) -> Store {
    Map::new(|k: Seq<u8>| m.contains_key(k) && !expired(m[k].expiry, now), |k: Seq<u8>| m[k])
}

/// The bindings that the stored values give: `(field, value, key)` for each
/// key whose value reads as a JSON object with that field.
pub open spec fn mirror<S: Serializer>(s: S, m: Store) -> Set<Triple> {
    Set::new(
        |t: Triple|
            m.contains_key(encode_utf8(t.2)) && text_pairs(
                value_text(s, m[encode_utf8(t.2)]),
            ).contains((t.0, t.1)),
    )
}

/// Every cached value is the stored value of its key, and that never expires.
pub open spec fn cache_agrees<S: Serializer>(s: S, m: Store, c: Seq<Cached>) -> bool {
    forall|i: int|
        0 <= i < c.len() ==> {
            let kb = encode_utf8((#[trigger] c[i]).0);
            m.contains_key(kb) && m[kb].expiry is None && value_text(s, m[kb]) == Some(c[i].1)
        }
}

/// Different texts have different UTF-8 bytes.
pub proof fn lemma_utf8_injective(a: Seq<char>, b: Seq<char>)
    requires
        encode_utf8(a) == encode_utf8(b),
    ensures
        a == b,
{
    vstd::utf8::encode_utf8_decode_utf8(a);
    vstd::utf8::encode_utf8_decode_utf8(b);
}

/// A line that lies in a log reads the same in every extension of the log.
pub proof fn lemma_line_at_longer(log: Seq<u8>, more: Seq<u8>, e: Extent)
    requires
        e.len >= 1,
        e.offset + e.len <= log.len(),
    ensures
        line_at(log + more, e) == line_at(log, e),
        (log + more)[e.offset + e.len - 1] == log[e.offset + e.len - 1],
{
    assert(line_at(log + more, e) =~= line_at(log, e));
}

/// The extent that a line appended to `log` gets.
pub open spec fn appended_extent(log: Seq<u8>, line: Seq<u8>) -> Extent {
    Extent { offset: log.len() as u64, len: (line.len() + 1) as usize }
}

/// Appending a record line to the log: what becomes of the index without a
/// clock, and what stays as it is.
pub proof fn lemma_append_line(log: Seq<u8>, line: Seq<u8>)
    requires
        terminated(log),
        !line.contains(LF),
        log.len() + line.len() + 1 <= usize::MAX,
    ensures
        terminated(log + line + seq![LF]),
        line_at(log + line + seq![LF], appended_extent(log, line)) == line,
        stored_index(log + line + seq![LF]) == crate::storage::apply_line(
            stored_index(log),
            LogLine { offset: log.len() as int, line },
            None,
        ),
        extent_of(LogLine { offset: log.len() as int, line }) == appended_extent(log, line),
        forall|k: Seq<u8>| #[trigger]
            stored_index(log).contains_key(k) ==> extent_ok(log, k, stored_index(log)[k])
                && line_at(log + line + seq![LF], stored_index(log)[k]) == line_at(
                log,
                stored_index(log)[k],
            ),
{
    let ext = log + line + seq![LF];
    lemma_records_append(log, line);
    assert(records(ext).drop_last() =~= records(log));
    assert(line_at(ext, appended_extent(log, line)) =~= line);
    lemma_live_index(log, 0);
    assert forall|k: Seq<u8>| #[trigger] stored_index(log).contains_key(k) implies extent_ok(
        log,
        k,
        stored_index(log)[k],
    ) && line_at(ext, stored_index(log)[k]) == line_at(log, stored_index(log)[k]) by {
        let e = stored_index(log)[k];
        assert(extent_ok(log, k, e));
        assert(ext =~= log + (line + seq![LF]));
        lemma_line_at_longer(log, line + seq![LF], e);
    }
}

/// After a `put` line is appended and its key indexed at the new extent,
/// the index still follows the log, and the store has the new entry.
pub proof fn lemma_append_put(
    log: Seq<u8>,
    index: Map<Seq<u8>, Extent>,
    clock: u64,
    r: RecordView,
)
    requires
        terminated(log),
        filtered(log, index, stored_index(log), clock),
        well_formed(r),
        r is Put,
        log.len() + encode_record(r).len() + 1 <= usize::MAX,
    ensures
        ({
            let line = encode_record(r);
            let log2 = log + line + seq![LF];
            let index2 = index.insert(r.key(), appended_extent(log, line));
            &&& terminated(log2)
            &&& filtered(log2, index2, stored_index(log2), clock)
            &&& store_of(log2, index2) == store_of(log, index).insert(
                r.key(),
                Entry { value: r->Put_value, expiry: r->Put_expiry },
            )
            &&& line_at(log2, index2[r.key()]) == line
            &&& record_at(log2, index2[r.key()]) == Some(r)
        }),
{
    let line = encode_record(r);
    let log2 = log + line + seq![LF];
    let ext = appended_extent(log, line);
    let index2 = index.insert(r.key(), ext);
    lemma_encode_no_newline(r);
    lemma_decode_encode(r);
    lemma_append_line(log, line);
    let all = stored_index(log);
    let all2 = stored_index(log2);
    assert(all2 == all.insert(r.key(), ext));
    assert forall|k: Seq<u8>| all2.contains_key(k) && !index2.contains_key(k) implies expired(
        expiry_at(log2, #[trigger] all2[k]),
        clock,
    ) by {
        assert(all.contains_key(k));
        assert(all2[k] == all[k]);
        assert(expired(expiry_at(log, all[k]), clock));
    }
    assert forall|k: Seq<u8>| #[trigger] index2.contains_key(k) implies all2.contains_key(k)
        && all2[k] == index2[k] by {
        if k != r.key() {
            assert(index.contains_key(k));
        }
    }
    let m2 = store_of(log2, index2);
    let m1 = store_of(log, index).insert(
        r.key(),
        Entry { value: r->Put_value, expiry: r->Put_expiry },
    );
    assert forall|k: Seq<u8>| m2.contains_key(k) implies m2[k] == m1[k] by {
        if k != r.key() {
            assert(index.contains_key(k));
            assert(all.contains_key(k) && all[k] == index[k]);
        }
    }
    assert(m2 =~= m1);
}

/// After a `del` line is appended and its key taken out of the index, the
/// index still follows the log, and the store has lost the entry.
pub proof fn lemma_append_del(
    log: Seq<u8>,
    index: Map<Seq<u8>, Extent>,
    clock: u64,
    r: RecordView,
)
    requires
        terminated(log),
        filtered(log, index, stored_index(log), clock),
        well_formed(r),
        r is Del,
        log.len() + encode_record(r).len() + 1 <= usize::MAX,
    ensures
        ({
            let line = encode_record(r);
            let log2 = log + line + seq![LF];
            let index2 = index.remove(r.key());
            &&& terminated(log2)
            &&& filtered(log2, index2, stored_index(log2), clock)
            &&& store_of(log2, index2) == store_of(log, index).remove(r.key())
        }),
{
    let line = encode_record(r);
    let log2 = log + line + seq![LF];
    let index2 = index.remove(r.key());
    lemma_encode_no_newline(r);
    lemma_decode_encode(r);
    lemma_append_line(log, line);
    let all = stored_index(log);
    let all2 = stored_index(log2);
    assert(all2 == all.remove(r.key()));
    assert forall|k: Seq<u8>| all2.contains_key(k) && !index2.contains_key(k) implies expired(
        expiry_at(log2, #[trigger] all2[k]),
        clock,
    ) by {
        assert(all.contains_key(k));
        assert(all2[k] == all[k]);
        assert(expired(expiry_at(log, all[k]), clock));
    }
    assert forall|k: Seq<u8>| #[trigger] index2.contains_key(k) implies all2.contains_key(k)
        && all2[k] == index2[k] by {
        assert(index.contains_key(k));
    }
    let m2 = store_of(log2, index2);
    let m1 = store_of(log, index).remove(r.key());
    assert forall|k: Seq<u8>| m2.contains_key(k) implies m2[k] == m1[k] by {
        assert(index.contains_key(k));
        assert(all.contains_key(k) && all[k] == index[k]);
    }
    assert(m2 =~= m1);
}

/// The secondary index after a write: the bindings of the key's old value
/// are out, those of its new value are in.
pub proof fn lemma_mirror_insert<S: Serializer>(s: S, m: Store, key: Seq<char>, e: Entry)
    ensures
        mirror(s, m.insert(encode_utf8(key), e)) == mirror(s, m).difference(
            bindings_of(key, text_pairs(stored_text(s, m, encode_utf8(key)))),
        ).union(bindings_of(key, text_pairs(value_text(s, e)))),
{
    let kb = encode_utf8(key);
    let a = mirror(s, m.insert(kb, e));
    let b = mirror(s, m).difference(bindings_of(key, text_pairs(stored_text(s, m, kb)))).union(
        bindings_of(key, text_pairs(value_text(s, e))),
    );
    assert forall|t: Triple| a.contains(t) == b.contains(t) by {
        if encode_utf8(t.2) == kb {
            lemma_utf8_injective(t.2, key);
        }
    }
    assert(a =~= b);
}

/// The secondary index after a delete: the bindings of the key's value are
/// out.
pub proof fn lemma_mirror_remove<S: Serializer>(s: S, m: Store, key: Seq<char>)
    ensures
        mirror(s, m.remove(encode_utf8(key))) == mirror(s, m).difference(
            bindings_of(key, text_pairs(stored_text(s, m, encode_utf8(key)))),
        ),
{
    let kb = encode_utf8(key);
    let a = mirror(s, m.remove(kb));
    let b = mirror(s, m).difference(bindings_of(key, text_pairs(stored_text(s, m, kb))));
    assert forall|t: Triple| a.contains(t) == b.contains(t) by {
        if encode_utf8(t.2) == kb {
            lemma_utf8_injective(t.2, key);
        }
    }
    assert(a =~= b);
}

/// A cache whose entries are old ones of other keys, or the new value of a
/// key written without expiry, agrees with the store after the write.
pub proof fn lemma_cache_after_write<S: Serializer>(
    s: S,
    m: Store,
    c: Seq<Cached>,
    c2: Seq<Cached>,
    key: Seq<char>,
    e: Option<Entry>,
)
    requires
        cache_agrees(s, m, c),
        forall|i: int|
            0 <= i < c2.len() ==> {
                let x = #[trigger] c2[i];
                (x.0 != key && c.contains(x)) || (x.0 == key && e is Some && e->Some_0.expiry is None
                    && value_text(s, e->Some_0) == Some(x.1))
            },
    ensures
        e is Some ==> cache_agrees(s, m.insert(encode_utf8(key), e->Some_0), c2),
        e is None ==> cache_agrees(s, m.remove(encode_utf8(key)), c2),
{
    let m2 = if e is Some {
        m.insert(encode_utf8(key), e->Some_0)
    } else {
        m.remove(encode_utf8(key))
    };
    assert forall|i: int| 0 <= i < c2.len() implies {
        let kb = encode_utf8((#[trigger] c2[i]).0);
        m2.contains_key(kb) && m2[kb].expiry is None && value_text(s, m2[kb]) == Some(c2[i].1)
    } by {
        let x = c2[i];
        if x.0 != key {
            let j = choose|j: int| 0 <= j < c.len() && c[j] == x;
            assert(c[j] == x);
            if encode_utf8(x.0) == encode_utf8(key) {
                lemma_utf8_injective(x.0, key);
            }
        }
    }
}

/// A cache whose entries are all old ones agrees with the store as before.
pub proof fn lemma_cache_subset<S: Serializer>(s: S, m: Store, c: Seq<Cached>, c2: Seq<Cached>)
    requires
        cache_agrees(s, m, c),
        forall|i: int| 0 <= i < c2.len() ==> c.contains(#[trigger] c2[i]),
    ensures
        cache_agrees(s, m, c2),
{
    assert forall|i: int| 0 <= i < c2.len() implies {
        let kb = encode_utf8((#[trigger] c2[i]).0);
        m.contains_key(kb) && m[kb].expiry is None && value_text(s, m[kb]) == Some(c2[i].1)
    } by {
        let x = c2[i];
        let j = choose|j: int| 0 <= j < c.len() && c[j] == x;
        assert(c[j] == x);
    }
}

/// What a key holds as a reader sees it: the text of its value, if the
/// stored bytes read as one, and when it expires.
pub struct Held {
    pub text: Option<Seq<char>>,
    pub expiry: Option<u64>,
}

/// The store as readers see it.
pub type Values = Map<Seq<u8>, Held>;

/// The values that the stored entries read as.
pub open spec fn held_of<S: Serializer>(s: S, m: Store) -> Values {
    Map::new(
        |k: Seq<u8>| m.contains_key(k),
        |k: Seq<u8>| Held { text: value_text(s, m[k]), expiry: m[k].expiry },
    )
}

/// What a read of `key` at `now` gives.
pub open spec fn read(v: Values, key: Seq<u8>, now: u64) -> Option<Seq<char>> {
    if v.contains_key(key) && !expired(v[key].expiry, now) {
        v[key].text
    } else {
        None
    }
}

/// The values without those that have expired at `now`.
pub open spec fn unexpired(v: Values, now: u64) -> Values {
    Map::new(|k: Seq<u8>| v.contains_key(k) && !expired(v[k].expiry, now), |k: Seq<u8>| v[k])
}

/// Readers see a new entry as its value and expiry.
pub proof fn lemma_held_insert<S: Serializer>(s: S, m: Store, key: Seq<u8>, e: Entry)
    ensures
        held_of(s, m.insert(key, e)) == held_of(s, m).insert(
            key,
            Held { text: value_text(s, e), expiry: e.expiry },
        ),
{
    assert(held_of(s, m.insert(key, e)) =~= held_of(s, m).insert(
        key,
        Held { text: value_text(s, e), expiry: e.expiry },
    ));
}

/// Readers see no entry where one was removed.
pub proof fn lemma_held_remove<S: Serializer>(s: S, m: Store, key: Seq<u8>)
    ensures
        held_of(s, m.remove(key)) == held_of(s, m).remove(key),
{
    assert(held_of(s, m.remove(key)) =~= held_of(s, m).remove(key));
}

/// Readers see the store without what has expired.
pub proof fn lemma_held_purged<S: Serializer>(s: S, m: Store, now: u64)
    ensures
        held_of(s, purged(m, now)) == unexpired(held_of(s, m), now),
{
    assert(held_of(s, purged(m, now)) =~= unexpired(held_of(s, m), now));
}

/// A scan of the log at `now`, not before the last scan, gives the store
/// that the index stands for, less what has expired.
pub proof fn lemma_rescan(log: Seq<u8>, index: Map<Seq<u8>, Extent>, clock: u64, now: u64)
    requires
        log.len() <= usize::MAX,
        filtered(log, index, stored_index(log), clock),
        clock <= now,
    ensures
        store_of(log, crate::storage::live_index(log, now)) == purged(store_of(log, index), now),
        filtered(log, crate::storage::live_index(log, now), stored_index(log), now),
{
    let live = crate::storage::live_index(log, now);
    let all = stored_index(log);
    lemma_live_index(log, now);
    let a = store_of(log, live);
    let b = purged(store_of(log, index), now);
    assert forall|k: Seq<u8>| a.contains_key(k) == b.contains_key(k) by {
        if live.contains_key(k) {
            assert(all.contains_key(k) && all[k] == live[k]);
            assert(!expired(expiry_at(log, live[k]), now));
            if !index.contains_key(k) {
                assert(expired(expiry_at(log, all[k]), clock));
            }
        }
        if index.contains_key(k) && !expired(entry_at(log, index[k]).expiry, now) {
            assert(all.contains_key(k) && all[k] == index[k]);
            if !live.contains_key(k) {
                assert(expired(expiry_at(log, all[k]), now));
            }
        }
    }
    assert forall|k: Seq<u8>| a.contains_key(k) implies a[k] == b[k] by {
        assert(all.contains_key(k) && all[k] == live[k]);
        if !index.contains_key(k) {
            assert(expired(expiry_at(log, all[k]), clock));
        }
        assert(all[k] == index[k]);
    }
    assert(a =~= b);
}

/// The store of a compacted log is the store of the old log as a scan at
/// the same time gives it.
pub proof fn lemma_compacted_store(log: Seq<u8>, out: Seq<u8>, now: u64)
    requires
        log.len() <= usize::MAX,
        out.len() <= usize::MAX,
        crate::storage::compacted(log, out, now),
    ensures
        store_of(out, crate::storage::live_index(out, now)) == store_of(
            log,
            crate::storage::live_index(log, now),
        ),
{
    let live = crate::storage::live_index(log, now);
    let live2 = crate::storage::live_index(out, now);
    let lines = records(out);
    crate::storage::lemma_records_in(out);
    let a = store_of(out, live2);
    let b = store_of(log, live);
    assert(live2.dom() == live.dom());
    assert forall|k: Seq<u8>| a.contains_key(k) == b.contains_key(k) by {
        assert(live2.dom().contains(k) == live.dom().contains(k));
    }
    assert forall|k: Seq<u8>| a.contains_key(k) implies a[k] == b[k] by {
        assert(live.dom().contains(k));
        let i = choose|i: int|
            0 <= i < lines.len() && crate::storage::line_key(#[trigger] lines[i]) == k;
        crate::storage::lemma_extent_of_line(out, lines[i]);
        assert(live2[k] == extent_of(lines[i]));
        assert(line_at(out, live2[k]) == lines[i].line);
        assert(line_at(log, live[k]) == lines[i].line);
    }
    assert(a =~= b);
}

/// One write, as readers see it.
pub enum Write {
    Put { key: Seq<u8>, text: Option<Seq<char>>, expiry: Option<u64> },
    Delete { key: Seq<u8> },
}

impl Write {
    /// The key that is written.
    pub open spec fn key(self) -> Seq<u8> {
        match self {
            Write::Put { key, .. } => key,
            Write::Delete { key } => key,
        }
    }
}

/// The values after one write.
pub open spec fn apply_write(v: Values, w: Write) -> Values {
    match w {
        Write::Put { key, text, expiry } => v.insert(key, Held { text, expiry }),
        Write::Delete { key } => v.remove(key),
    }
}

/// The values after the writes, applied in order.
pub open spec fn apply_writes(v: Values, ws: Seq<Write>) -> Values
    decreases ws.len(),
{
    if ws.len() == 0 {
        v
    } else {
        apply_write(apply_writes(v, ws.drop_last()), ws.last())
    }
}

/// The last write to `key` among the writes.
pub open spec fn last_write(ws: Seq<Write>, key: Seq<u8>) -> Option<Write>
    decreases ws.len(),
{
    if ws.len() == 0 {
        None
    } else if ws.last().key() == key {
        Some(ws.last())
    } else {
        last_write(ws.drop_last(), key)
    }
}

/// After any sequence of writes a read of a key gives what the last write
/// to it left: the value of a `put` that has not expired, nothing after a
/// delete; a key that was not written reads as before.
pub proof fn law_last_write_wins(v: Values, ws: Seq<Write>, key: Seq<u8>, now: u64)
    ensures
        read(apply_writes(v, ws), key, now) == match last_write(ws, key) {
            Some(Write::Put { key: k, text, expiry }) => if expired(expiry, now) {
                None
            } else {
                text
            },
            Some(Write::Delete { key: k }) => None,
            None => read(v, key, now),
        },
    decreases ws.len(),
{
    if ws.len() > 0 {
        law_last_write_wins(v, ws.drop_last(), key, now);
    }
}

/// What the last write to a key leaves under it: the value and expiry of a
/// `put`, nothing after a delete; a key that was not written holds what it
/// held.
pub proof fn lemma_writes_settle(v: Values, ws: Seq<Write>, key: Seq<u8>)
    ensures
        match last_write(ws, key) {
            Some(Write::Put { key: k, text, expiry }) => apply_writes(v, ws).contains_key(key)
                && apply_writes(v, ws)[key] == (Held { text, expiry }),
            Some(Write::Delete { key: k }) => !apply_writes(v, ws).contains_key(key),
            None => apply_writes(v, ws).contains_key(key) == v.contains_key(key) && (
            v.contains_key(key) ==> apply_writes(v, ws)[key] == v[key]),
        },
    decreases ws.len(),
{
    if ws.len() > 0 {
        lemma_writes_settle(v, ws.drop_last(), key);
    }
}

/// A key written among the first writes is written among all of them.
pub proof fn lemma_last_write_of_part(ws: Seq<Write>, part: int, key: Seq<u8>)
    requires
        0 <= part <= ws.len(),
        last_write(ws.take(part), key) is Some,
    ensures
        last_write(ws, key) is Some,
    decreases ws.len() - part,
{
    if part == ws.len() {
        assert(ws.take(part) =~= ws);
    } else {
        assert(ws.take(part + 1).drop_last() =~= ws.take(part));
        lemma_last_write_of_part(ws, part + 1, key);
    }
}

/// Writes that are applied again over a part of them leave what they leave
/// when applied once.
pub proof fn law_writes_repeat(v: Values, ws: Seq<Write>, part: int)
    requires
        0 <= part <= ws.len(),
    ensures
        apply_writes(apply_writes(v, ws.take(part)), ws) == apply_writes(v, ws),
{
    let mid = apply_writes(v, ws.take(part));
    let a = apply_writes(mid, ws);
    let b = apply_writes(v, ws);
    assert forall|key: Seq<u8>| #[trigger]
        a.dom().contains(key) == b.dom().contains(key) && (a.dom().contains(key) ==> a[key]
            == b[key]) by {
        lemma_writes_settle(mid, ws, key);
        lemma_writes_settle(v, ws, key);
        if last_write(ws, key) is None {
            lemma_writes_settle(v, ws.take(part), key);
            if last_write(ws.take(part), key) is Some {
                lemma_last_write_of_part(ws, part, key);
            }
        }
    }
    assert(a.dom() =~= b.dom());
    assert(a =~= b);
}

/// What replaying one recovered line does to the store. A `put` whose
/// value reads as text is written anew through the serializer; one whose
/// value does not is passed over; `None` when the serializer refuses.
pub open spec fn replay_line<S: Serializer>(s: S, m: Store, line: Seq<u8>) -> Option<Store> {
    match decode_record(line) {
        Some(RecordView::Put { key, value, expiry }) => match value_text(
            s,
            Entry { value, expiry },
        ) {
            Some(text) => match s.encoded(text) {
                Some(data) => if crate::codec::base64_encodable(data.len()) {
                    Some(m.insert(key, Entry { value: crate::codec::base64_text(data), expiry }))
                } else {
                    None
                },
                None => None,
            },
            None => Some(m),
        },
        Some(RecordView::Del { key }) => Some(m.remove(key)),
        None => Some(m),
    }
}

/// What replaying the recovered lines in order does to the store.
pub open spec fn replay_lines<S: Serializer>(s: S, m: Store, lines: Seq<Seq<u8>>) -> Option<Store>
    decreases lines.len(),
{
    if lines.len() == 0 {
        Some(m)
    } else {
        match replay_lines(s, m, lines.drop_last()) {
            Some(m1) => replay_line(s, m1, lines.last()),
            None => None,
        }
    }
}

/// The record line that replaying a recovered line writes, if it writes
/// one.
pub open spec fn replay_written<S: Serializer>(s: S, line: Seq<u8>) -> Option<Seq<u8>> {
    match decode_record(line) {
        Some(RecordView::Put { key, value, expiry }) => match value_text(
            s,
            Entry { value, expiry },
        ) {
            Some(text) => match s.encoded(text) {
                Some(data) => Some(
                    encode_record(
                        RecordView::Put { key, value: crate::codec::base64_text(data), expiry },
                    ),
                ),
                None => None,
            },
            None => None,
        },
        Some(RecordView::Del { key }) => Some(encode_record(RecordView::Del { key })),
        None => None,
    }
}

/// The record lines that replaying the recovered lines writes, in order.
pub open spec fn replay_trace<S: Serializer>(s: S, lines: Seq<Seq<u8>>) -> Seq<Seq<u8>>
    decreases lines.len(),
{
    if lines.len() == 0 {
        Seq::empty()
    } else {
        match replay_written(s, lines.last()) {
            Some(l) => replay_trace(s, lines.drop_last()).push(l),
            None => replay_trace(s, lines.drop_last()),
        }
    }
}

/// The cache after one recovered line was replayed: a `put` that wrote a
/// value without expiry cached it, any other write made the cache forget
/// the key, and a line that wrote nothing left the cache as it was.
pub open spec fn replay_cached<S: Serializer>(s: S, c: Seq<Cached>, limit: nat, line: Seq<u8>) -> Seq<
    Cached,
> {
    match decode_record(line) {
        Some(RecordView::Put { key, value, expiry }) => match value_text(
            s,
            Entry { value, expiry },
        ) {
            Some(text) => match s.encoded(text) {
                Some(data) => match (expiry, s.decoded(data)) {
                    (None, Some(t)) => crate::cache::after_put(
                        c,
                        limit,
                        vstd::utf8::decode_utf8(key),
                        t,
                    ),
                    _ => crate::cache::without_key(c, vstd::utf8::decode_utf8(key)),
                },
                None => c,
            },
            None => c,
        },
        Some(RecordView::Del { key }) => crate::cache::without_key(c, vstd::utf8::decode_utf8(key)),
        None => c,
    }
}

/// The cache after the recovered lines were replayed over an empty cache.
pub open spec fn replay_cache<S: Serializer>(s: S, limit: nat, lines: Seq<Seq<u8>>) -> Seq<Cached>
    decreases lines.len(),
{
    if lines.len() == 0 {
        Seq::empty()
    } else {
        replay_cached(s, replay_cache(s, limit, lines.drop_last()), limit, lines.last())
    }
}

/// The lines as bytes, each followed by LF.
pub open spec fn lines_bytes(lines: Seq<Seq<u8>>) -> Seq<u8>
    decreases lines.len(),
{
    if lines.len() == 0 {
        Seq::empty()
    } else {
        lines_bytes(lines.drop_last()) + lines.last() + seq![LF]
    }
}

/// The bytes of the lines with one more line.
pub proof fn lemma_lines_bytes_push(lines: Seq<Seq<u8>>, line: Seq<u8>)
    ensures
        lines_bytes(lines.push(line)) == lines_bytes(lines) + line + seq![LF],
        lines_bytes(Seq::<Seq<u8>>::empty()) == Seq::<u8>::empty(),
{
    assert(lines.push(line).drop_last() =~= lines);
}

/// The bindings that the stored values of the keys in `done` give.
pub open spec fn mirror_of_keys<S: Serializer>(s: S, m: Store, done: Set<Seq<u8>>) -> Set<Triple> {
    Set::new(
        |t: Triple|
            done.contains(encode_utf8(t.2)) && m.contains_key(encode_utf8(t.2)) && text_pairs(
                value_text(s, m[encode_utf8(t.2)]),
            ).contains((t.0, t.1)),
    )
}

/// Taking one more key into account adds the bindings of its value.
pub proof fn lemma_mirror_step<S: Serializer>(s: S, m: Store, done: Set<Seq<u8>>, key: Seq<char>)
    requires
        m.contains_key(encode_utf8(key)),
    ensures
        mirror_of_keys(s, m, done.insert(encode_utf8(key))) == mirror_of_keys(s, m, done).union(
            bindings_of(key, text_pairs(value_text(s, m[encode_utf8(key)]))),
        ),
{
    let kb = encode_utf8(key);
    let a = mirror_of_keys(s, m, done.insert(kb));
    let b = mirror_of_keys(s, m, done).union(bindings_of(key, text_pairs(value_text(s, m[kb]))));
    assert forall|t: Triple| a.contains(t) == b.contains(t) by {
        if encode_utf8(t.2) == kb {
            lemma_utf8_injective(t.2, key);
        }
    }
    assert(a =~= b);
}

/// With every key taken into account the bindings are the mirror.
pub proof fn lemma_mirror_all<S: Serializer>(s: S, m: Store, done: Set<Seq<u8>>)
    requires
        forall|k: Seq<u8>| m.contains_key(k) ==> done.contains(k),
    ensures
        mirror_of_keys(s, m, done) == mirror(s, m),
{
    assert(mirror_of_keys(s, m, done) =~= mirror(s, m));
}

/// Once a replay has failed it stays failed.
pub proof fn lemma_replay_fails<S: Serializer>(s: S, m: Store, lines: Seq<Seq<u8>>, n: int)
    requires
        0 <= n <= lines.len(),
        replay_lines(s, m, lines.take(n)) is None,
    ensures
        replay_lines(s, m, lines) is None,
    decreases lines.len() - n,
{
    if n == lines.len() {
        assert(lines.take(n) =~= lines);
    } else {
        assert(lines.take(n + 1).drop_last() =~= lines.take(n));
        lemma_replay_fails(s, m, lines, n + 1);
    }
}

} // verus!
