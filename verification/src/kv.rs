//! The engine: the public operations of the store.

use lru::LruCache;
use vstd::prelude::*;
use vstd::utf8::encode_utf8;

use crate::bytes::{has_prefix, lex_lt, Order, order_of, starts_with, views};
use crate::cache::{
    after_hit, after_put, cache_entries, cache_get, cache_limit, cache_new, cache_pop, cache_put,
    Cached, cached_value, lemma_after_hit, lemma_after_put, lemma_cached_value, lemma_without_key,
    without_key,
};
use crate::codec::{
    base64_decode, base64_encodable, base64_encode, base64_text, decode, encode, encode_record,
    expired, lemma_base64_plain, lemma_encode_no_newline, LF, Record, RecordView, utf8_text,
    valid_key,
};
use crate::hint::{hint_index, hint_text, lemma_hint_round_trip, load_hint, save_hint};
use crate::index::{bindings_of, keys_bound, SecondaryIndex, text_pairs, Triple};
use crate::json::{index_pairs, pairs_view, parse_doc, texts_view};
use crate::offsets::{Extent, lemma_slots_map, lemma_sorted_slots_unique, OffsetIndex, slots_have};
use crate::serialization::Serializer;
use crate::storage::{
    append_record, build_offset_index, compact_log, compacted, drop_torn_tail, entries_ok, expiry_at,
    lemma_filtered_later, scan_log,
    extent_ok, filtered, last_line_start, lemma_live_index, line_at, live_index, read_record_slice,
    records, stored_index, terminated,
};
use crate::store::{
    appended_extent, apply_writes, cache_agrees, Entry, entry_at, Held, held_of, lemma_append_del,
    lemma_append_put, lemma_cache_after_write, lemma_cache_subset, lemma_compacted_store,
    lemma_held_insert, lemma_held_purged, lemma_held_remove, lemma_lines_bytes_push,
    lemma_mirror_all, lemma_mirror_insert, lemma_mirror_remove, lemma_mirror_step,
    lemma_replay_fails, lemma_rescan, lines_bytes, mirror, mirror_of_keys, purged, read,
    replay_cache, replay_cached, replay_line, replay_lines, replay_trace, replay_written, Store,
    store_of, stored_text, unexpired, value_text, Values, Write,
};
use crate::types::{BatchOp, BatchOpView, Error, ops_view, Stats};
use crate::wal::{
    begin_line, begin_token, committed_lines, end_line, end_token, line_texts, recovery_plan, WAL,
};

verus! {

/// How many entries the read cache holds.
pub const CACHE_CAPACITY: usize = 1024;

/// A counter one higher, or unchanged at the top of its range.
pub open spec fn bumped(n: u64) -> u64 {
    if n < u64::MAX {
        (n + 1) as u64
    } else {
        n
    }
}

fn bump(n: u64) -> (r: u64)
    ensures
        r == bumped(n),
{
    if n < u64::MAX {
        n + 1
    } else {
        n
    }
}

/// The text of an optional string.
pub open spec fn opt_seq(text: Option<String>) -> Option<Seq<char>> {
    match text {
        Some(t) => Some(t@),
        None => None,
    }
}

/// The bytes of an optional file image.
pub open spec fn opt_image(image: Option<Vec<u8>>) -> Option<Seq<u8>> {
    match image {
        Some(bytes) => Some(bytes@),
        None => None,
    }
}

/// A key as text is valid when its bytes are: no TAB, no LF.
pub open spec fn valid_key_text(key: Seq<char>) -> bool {
    valid_key(encode_utf8(key))
}

/// Whether `key` may be used as a key: no TAB, no LF.
pub fn key_is_valid(key: &str) -> (r: bool)
    ensures
        r == valid_key_text(key@),
{
    crate::codec::is_valid_key(key.as_bytes())
}

/// The record that a `put` writes.
pub open spec fn put_record(key: Seq<char>, data: Seq<u8>, expiry: Option<u64>) -> RecordView {
    RecordView::Put { key: encode_utf8(key), value: base64_text(data), expiry }
}

/// The record that a `delete` writes.
pub open spec fn del_record(key: Seq<char>) -> RecordView {
    RecordView::Del { key: encode_utf8(key) }
}

/// The store engine over in-memory images of its files.
pub struct SlackbaseEngine<S: Serializer> {
    log: Vec<u8>,
    index: OffsetIndex,
    sec_index: SecondaryIndex,
    wal: WAL,
    serializer: S,
    lru: LruCache<String, String>,
    read_ops: u64,
    write_ops: u64,
    hits: u64,
    misses: u64,
    clock: u64,
}

impl<S: Serializer> SlackbaseEngine<S> {
    /// The data log.
    pub closed spec fn log(&self) -> Seq<u8> {
        self.log@
    }

    /// The offset index.
    pub closed spec fn index(&self) -> Map<Seq<u8>, Extent> {
        self.index@
    }

    /// The indexed keys in ascending order.
    pub closed spec fn keys(&self) -> Seq<Seq<u8>> {
        Seq::new(self.index.slots().len(), |i: int| self.index.slots()[i].key)
    }

    /// The journal.
    pub closed spec fn wal_bytes(&self) -> Seq<u8> {
        self.wal.bytes()
    }

    /// How much of the journal is flushed.
    pub closed spec fn wal_durable(&self) -> nat {
        self.wal.durable()
    }

    /// The lines of the journal.
    pub closed spec fn wal_lines(&self) -> Seq<Seq<u8>> {
        self.wal.lines()
    }

    /// The hint file of the index.
    pub closed spec fn hint(&self) -> Seq<u8> {
        hint_text(self.index.slots())
    }

    /// The bindings of the secondary index.
    pub closed spec fn bindings(&self) -> Set<Triple> {
        self.sec_index@
    }

    /// The read cache, the entry used most recently first.
    pub closed spec fn cache(&self) -> Seq<Cached> {
        cache_entries(&self.lru)
    }

    /// How many entries the read cache holds at most.
    pub closed spec fn cache_capacity(&self) -> nat {
        cache_limit(&self.lru)
    }

    /// The serializer of the values.
    pub closed spec fn serializer(&self) -> S {
        self.serializer
    }

    /// How many reads were made.
    pub closed spec fn reads(&self) -> u64 {
        self.read_ops
    }

    /// How many writes were made.
    pub closed spec fn writes(&self) -> u64 {
        self.write_ops
    }

    /// How many reads gave a value.
    pub closed spec fn hit_count(&self) -> u64 {
        self.hits
    }

    /// How many reads found the value expired.
    pub closed spec fn miss_count(&self) -> u64 {
        self.misses
    }

    /// The latest time at which the log was scanned.
    pub closed spec fn clock(&self) -> u64 {
        self.clock
    }

    /// The index, the secondary index and the journal are each in order.
    pub closed spec fn parts_wf(&self) -> bool {
        self.index.wf() && self.sec_index.wf() && self.wal.wf()
    }

    /// What is stored, key by key.
    pub open spec fn stored(&self) -> Store {
        store_of(self.log(), self.index())
    }

    /// What is stored, as readers see it.
    pub open spec fn held(&self) -> Values {
        held_of(self.serializer(), self.stored())
    }

    /// What holds of the engine between operations: the log ends with a
    /// complete line; every indexed key points at its latest record in the
    /// log, a `put`, and a key that the log would give but the index lacks
    /// had expired when the log was scanned; the cache agrees with the
    /// store; the secondary index mirrors the stored values.
    #[verifier::opaque]
    pub open spec fn wf(&self) -> bool {
        &&& self.parts_wf()
        &&& terminated(self.log())
        &&& self.log().len() <= usize::MAX
        &&& filtered(self.log(), self.index(), stored_index(self.log()), self.clock())
        &&& cache_agrees(self.serializer(), self.stored(), self.cache())
        &&& self.bindings() == mirror(self.serializer(), self.stored())
    }

    /// Everything but the cache and the read counters is as in `before`.
    pub open spec fn same_data(&self, before: &Self) -> bool {
        &&& self.log() == before.log()
        &&& self.index() == before.index()
        &&& self.keys() == before.keys()
        &&& self.wal_bytes() == before.wal_bytes()
        &&& self.wal_lines() == before.wal_lines()
        &&& self.wal_durable() == before.wal_durable()
        &&& self.hint() == before.hint()
        &&& self.bindings() == before.bindings()
        &&& self.serializer() == before.serializer()
        &&& self.clock() == before.clock()
        &&& self.writes() == before.writes()
        &&& self.cache_capacity() == before.cache_capacity()
    }

    /// Nothing at all differs from `before`.
    pub open spec fn unchanged(&self, before: &Self) -> bool {
        &&& self.same_data(before)
        &&& self.cache() == before.cache()
        &&& self.reads() == before.reads()
        &&& self.hit_count() == before.hit_count()
        &&& self.miss_count() == before.miss_count()
    }

    /// The engine after `value` was written under `key`, to expire at
    /// `expires_at`, with the result `r`.
    ///
    /// If the serializer takes the value and its bytes can be encoded, the
    /// record of the write stands at the end of the journal, all of which
    /// is flushed, and at the end of the log; the index points at it; the
    /// key holds the value as the serializer reads it back; the cache holds
    /// that value if it never expires and has forgotten the key if it
    /// does. Else the result is `Serde` and nothing has changed.
    pub open spec fn wrote(
        &self,
        before: &Self,
        key: Seq<char>,
        value: Seq<char>,
        expires_at: Option<u64>,
        r: Result<(), Error>,
    ) -> bool {
        let s = before.serializer();
        &&& self.wf()
        &&& self.serializer() == s
        &&& self.clock() == before.clock()
        &&& self.reads() == before.reads()
        &&& self.hit_count() == before.hit_count()
        &&& self.miss_count() == before.miss_count()
        &&& self.cache_capacity() == before.cache_capacity()
        &&& match s.encoded(value) {
            Some(data) if base64_encodable(data.len()) => {
                let record = put_record(key, data, expires_at);
                let line = encode_record(record);
                let entry = Entry { value: base64_text(data), expiry: expires_at };
                &&& r is Ok
                &&& self.log() == before.log() + line + seq![LF]
                &&& self.index() == before.index().insert(
                    encode_utf8(key),
                    appended_extent(before.log(), line),
                )
                &&& crate::storage::record_at(self.log(), self.index()[encode_utf8(key)]) == Some(
                    record,
                )
                &&& self.stored() == before.stored().insert(encode_utf8(key), entry)
                &&& self.held() == before.held().insert(
                    encode_utf8(key),
                    Held { text: s.decoded(data), expiry: expires_at },
                )
                &&& self.wal_bytes() == before.wal_bytes() + line + seq![LF]
                &&& self.wal_lines() == before.wal_lines().push(line)
                &&& self.wal_durable() == self.wal_bytes().len()
                &&& self.writes() == bumped(before.writes())
                &&& self.cache() == match (expires_at, s.decoded(data)) {
                    (None, Some(text)) => after_put(
                        before.cache(),
                        before.cache_capacity(),
                        key,
                        text,
                    ),
                    _ => without_key(before.cache(), key),
                }
            },
            _ => r == Err::<(), Error>(Error::Serde) && self.unchanged(before),
        }
    }

    /// The engine after `key` was read at `now` with the result `r`.
    ///
    /// The result is the value that the key holds, unless that has
    /// expired. Nothing that is stored has changed. The read is counted; a
    /// value that was returned counts as a hit, a value found expired as a
    /// miss. A cached value was served from the cache and is now its most
    /// recent entry; a value read from the log was cached if it never
    /// expires.
    pub open spec fn got(&self, before: &Self, key: Seq<char>, now: u64, r: Option<Seq<char>>) -> bool {
        let kb = encode_utf8(key);
        &&& self.wf()
        &&& self.same_data(before)
        &&& self.stored() == before.stored()
        &&& r == read(before.held(), kb, now)
        &&& self.reads() == bumped(before.reads())
        &&& self.hit_count() == if r is Some {
            bumped(before.hit_count())
        } else {
            before.hit_count()
        }
        &&& self.miss_count() == if before.stored().contains_key(kb) && expired(
            before.stored()[kb].expiry,
            now,
        ) {
            bumped(before.miss_count())
        } else {
            before.miss_count()
        }
        &&& self.cache() == if cached_value(before.cache(), key) is Some {
            after_hit(before.cache(), key)
        } else if r is Some && before.stored()[kb].expiry is None {
            after_put(before.cache(), before.cache_capacity(), key, r->Some_0)
        } else {
            before.cache()
        }
    }

    /// The engine after `key` was deleted: a `del` record stands at the end
    /// of the journal, all of which is flushed, and at the end of the log;
    /// the key has left the index, the store and the cache.
    pub open spec fn deleted(&self, before: &Self, key: Seq<char>) -> bool {
        let line = encode_record(del_record(key));
        &&& self.wf()
        &&& self.serializer() == before.serializer()
        &&& self.clock() == before.clock()
        &&& self.reads() == before.reads()
        &&& self.hit_count() == before.hit_count()
        &&& self.miss_count() == before.miss_count()
        &&& self.cache_capacity() == before.cache_capacity()
        &&& self.writes() == bumped(before.writes())
        &&& self.log() == before.log() + line + seq![LF]
        &&& self.index() == before.index().remove(encode_utf8(key))
        &&& self.stored() == before.stored().remove(encode_utf8(key))
        &&& self.held() == before.held().remove(encode_utf8(key))
        &&& self.wal_bytes() == before.wal_bytes() + line + seq![LF]
        &&& self.wal_lines() == before.wal_lines().push(line)
        &&& self.wal_durable() == self.wal_bytes().len()
        &&& self.cache() == without_key(before.cache(), key)
    }

    /// What always holds of an engine between operations. Every indexed
    /// extent lies in the log and holds a well-formed `put` of its key; the
    /// index holds no key whose latest record in the log is a `del`, and
    /// each indexed key points at its latest record; a key that the log
    /// would give and the index lacks had expired by the last scan; the
    /// cache holds only values that are stored and never expire; the
    /// secondary index holds exactly the bindings of the stored values.
    pub proof fn law_invariants(&self)
        requires
            self.wf(),
        ensures
            terminated(self.log()),
            entries_ok(self.log(), self.index(), None),
            filtered(self.log(), self.index(), stored_index(self.log()), self.clock()),
            cache_agrees(self.serializer(), self.stored(), self.cache()),
            self.bindings() == mirror(self.serializer(), self.stored()),
    {
        reveal(SlackbaseEngine::wf);
        self.lemma_index_ok();
    }

    /// The indexed extents lie in the log and hold `put`s of their keys.
    proof fn lemma_index_ok(&self)
        requires
            self.wf(),
        ensures
            entries_ok(self.log(), self.index(), None),
    {
        reveal(SlackbaseEngine::wf);
        lemma_live_index(self.log(), 0);
        assert forall|k: Seq<u8>| #[trigger] self.index().contains_key(k) implies extent_ok(
            self.log(),
            k,
            self.index()[k],
        ) by {
            assert(stored_index(self.log()).contains_key(k));
        }
    }

    /// The record stored for a key: its base64 text and its expiry.
    fn stored_record(&self, key: &[u8]) -> (r: Option<(Vec<u8>, Option<u64>)>)
        requires
            self.wf(),
        ensures
            match r {
                Some((value, expiry)) => self.stored().contains_key(key@) && self.stored()[key@]
                    == (Entry { value: value@, expiry }),
                None => !self.stored().contains_key(key@),
            },
    {
        proof {
            reveal(SlackbaseEngine::wf);
        }
        let extent = match self.index.get(key) {
            Some(e) => e,
            None => {
                return None;
            },
        };
        proof {
            self.lemma_index_ok();
            assert(self.index().contains_key(key@));
            assert(extent_ok(self.log(), key@, extent));
        }
        read_entry(self.log.as_slice(), extent)
    }

    /// The value that a stored base64 text reads as.
    fn text_for(&self, value: &[u8]) -> (r: Option<String>)
        ensures
            match value_text(self.serializer(), Entry { value: value@, expiry: None }) {
                Some(t) => r is Some && r->Some_0@ == t,
                None => r is None,
            },
    {
        read_text(&self.serializer, value)
    }

    /// The value stored for a key, expired or not.
    fn current_text(&self, key: &[u8]) -> (r: Option<String>)
        requires
            self.wf(),
        ensures
            match stored_text(self.serializer(), self.stored(), key@) {
                Some(t) => r is Some && r->Some_0@ == t,
                None => r is None,
            },
    {
        match self.stored_record(key) {
            Some((value, _)) => self.text_for(value.as_slice()),
            None => None,
        }
    }

    /// Writes `value` under `key`, to expire at `expires_at` if that is given.
    ///
    /// The value is serialized and its record appended to the journal, which
    /// is flushed, and then to the log; the index takes the new extent; the
    /// secondary index follows; the cache takes the value if it never
    /// expires. Fails with `Serde`, the engine unchanged, when the value
    /// cannot be serialized or is too long to be encoded.
    pub fn put_internal(&mut self, key: &str, value: &str, expires_at: Option<u64>) -> (r: Result<
        (),
        Error,
    >)
        requires
            old(self).wf(),
            valid_key_text(key@),
        ensures
            final(self).wrote(old(self), key@, value@, expires_at, r),
    {
        proof {
            reveal(SlackbaseEngine::wf);
        }
        let kb = key.as_bytes();
        let data = match self.serializer.serialize(value) {
            Ok(d) => d,
            Err(_) => {
                return Err(Error::Serde);
            },
        };
        if data.len() / 3 > (usize::MAX - 4) / 4 {
            return Err(Error::Serde);
        }
        let old_text = self.current_text(kb);
        let b64 = base64_encode(data.as_slice());
        let new_text = self.text_for(b64.as_slice());
        let record = Record::Put { key: vstd::slice::slice_to_vec(kb), value: b64, expiry: expires_at };
        let line = encode(&record);
        let ghost rv = put_record(key@, data@, expires_at);
        let ghost entry = Entry { value: base64_text(data@), expiry: expires_at };
        let ghost s = self.serializer();
        let ghost m0 = self.stored();
        let ghost c0 = self.cache();
        proof {
            assert(record@ == rv);
            lemma_base64_plain(base64_text(data@));
            lemma_encode_no_newline(rv);
        }
        self.sec_index.update(
            key,
            match &old_text {
                Some(t) => Some(t.as_str()),
                None => None,
            },
            match &new_text {
                Some(t) => Some(t.as_str()),
                None => None,
            },
        );
        self.wal.append(line.as_slice());
        self.wal.flush();
        let (offset, len) = append_record(&mut self.log, line.as_slice());
        proof {
            assert(self.log@.len() == self.log.len());
        }
        self.index.insert(vstd::slice::slice_to_vec(kb), Extent { offset, len });
        self.write_ops = bump(self.write_ops);
        match (expires_at, new_text) {
            (None, Some(text)) => {
                cache_put(&mut self.lru, key.to_owned(), text);
            },
            _ => {
                cache_pop(&mut self.lru, key);
            },
        }
        proof {
            lemma_append_put(old(self).log(), old(self).index(), old(self).clock(), rv);
            lemma_mirror_insert(s, m0, key@, entry);
            lemma_after_put(c0, old(self).cache_capacity(), key@, value_text(s, entry).unwrap_or(Seq::empty()));
            lemma_without_key(c0, key@);
            lemma_cache_after_write(s, m0, c0, self.cache(), key@, Some(entry));
            lemma_held_insert(s, m0, encode_utf8(key@), entry);
        }
        Ok(())
    }

    /// Writes `value` under `key`; the value never expires.
    pub fn put(&mut self, key: &str, value: &str) -> (r: Result<(), Error>)
        requires
            old(self).wf(),
            valid_key_text(key@),
        ensures
            final(self).wrote(old(self), key@, value@, None, r),
    {
        self.put_internal(key, value, None)
    }

    /// Reads `key` at time `now`.
    ///
    /// A cached value is returned at once. Else the indexed record is read
    /// from the log; it gives nothing if it has expired, or if its value
    /// does not decode; a value that never expires is cached.
    pub fn get_at(&mut self, key: &str, now: u64) -> (r: Option<String>)
        requires
            old(self).wf(),
        ensures
            final(self).got(old(self), key@, now, opt_seq(r)),
    {
        proof {
            reveal(SlackbaseEngine::wf);
        }
        let ghost s = self.serializer();
        let ghost m0 = self.stored();
        let ghost c0 = self.cache();
        let ghost kb = encode_utf8(key@);
        self.read_ops = bump(self.read_ops);
        proof {
            lemma_cached_value(c0, key@);
            lemma_after_hit(c0, key@);
        }
        match cache_get(&mut self.lru, key) {
            Some(text) => {
                self.hits = bump(self.hits);
                proof {
                    let j = choose|j: int| 0 <= j < c0.len() && c0[j] == (key@, text@);
                    assert(c0[j].0 == key@);
                    lemma_cache_subset(s, m0, c0, self.cache());
                }
                return Some(text);
            },
            None => {},
        }
        let (value, expiry) = match self.stored_record(key.as_bytes()) {
            Some(found) => found,
            None => {
                return None;
            },
        };
        let is_expired = match expiry {
            Some(e) => e <= now,
            None => false,
        };
        if is_expired {
            self.misses = bump(self.misses);
            return None;
        }
        let text = match self.text_for(value.as_slice()) {
            Some(t) => t,
            None => {
                return None;
            },
        };
        if expiry.is_none() {
            cache_put(&mut self.lru, key.to_owned(), text.clone());
            proof {
                lemma_after_put(c0, old(self).cache_capacity(), key@, text@);
                assert(m0.insert(kb, m0[kb]) =~= m0);
                lemma_cache_after_write(s, m0, c0, self.cache(), key@, Some(m0[kb]));
            }
        }
        self.hits = bump(self.hits);
        Some(text)
    }

    /// Deletes `key`: a `del` record goes to the journal, which is flushed,
    /// and to the log; the key leaves the index, the secondary index and
    /// the cache.
    pub fn delete(&mut self, key: &str) -> (r: Result<(), Error>)
        requires
            old(self).wf(),
            valid_key_text(key@),
        ensures
            r is Ok,
            final(self).deleted(old(self), key@),
    {
        proof {
            reveal(SlackbaseEngine::wf);
        }
        let kb = key.as_bytes();
        let old_text = self.current_text(kb);
        let record = Record::Del { key: vstd::slice::slice_to_vec(kb) };
        let line = encode(&record);
        let ghost rv = del_record(key@);
        let ghost s = self.serializer();
        let ghost m0 = self.stored();
        let ghost c0 = self.cache();
        proof {
            assert(record@ == rv);
            lemma_encode_no_newline(rv);
        }
        self.wal.append(line.as_slice());
        self.wal.flush();
        let (offset, len) = append_record(&mut self.log, line.as_slice());
        proof {
            assert(self.log@.len() == self.log.len());
        }
        self.index.remove(kb);
        self.sec_index.remove(
            key,
            match &old_text {
                Some(t) => Some(t.as_str()),
                None => None,
            },
        );
        cache_pop(&mut self.lru, key);
        self.write_ops = bump(self.write_ops);
        proof {
            lemma_append_del(old(self).log(), old(self).index(), old(self).clock(), rv);
            lemma_mirror_remove(s, m0, key@);
            lemma_without_key(c0, key@);
            lemma_cache_after_write(s, m0, c0, self.cache(), key@, None);
            lemma_held_remove(s, m0, encode_utf8(key@));
        }
        Ok(())
    }
}

/// The file images of a store at one moment.
pub struct Snapshot {
    pub log: Vec<u8>,
    pub wal: Vec<u8>,
    pub hint: Vec<u8>,
}

/// The entry at an extent that holds a `put`.
fn read_entry(log: &[u8], extent: Extent) -> (r: Option<(Vec<u8>, Option<u64>)>)
    requires
        extent.len >= 1,
        extent.offset + extent.len <= log@.len(),
        log@[extent.offset + extent.len - 1] == LF,
        crate::storage::record_at(log@, extent) is Some,
        crate::storage::record_at(log@, extent)->Some_0 is Put,
    ensures
        r is Some,
        entry_at(log@, extent) == (Entry { value: r->Some_0.0@, expiry: r->Some_0.1 }),
{
    proof {
        let s = log@.subrange(extent.offset as int, extent.offset + extent.len);
        assert(s.last() == LF);
        assert(s.drop_last() =~= line_at(log@, extent));
    }
    let line = match read_record_slice(log, extent.offset, extent.len) {
        Some(l) => l,
        None => {
            return None;
        },
    };
    match decode(line.as_slice()) {
        Ok(Record::Put { key: _, value, expiry }) => Some((value, expiry)),
        _ => None,
    }
}

/// The value that a stored base64 text reads as.
fn read_text<S: Serializer>(serializer: &S, value: &[u8]) -> (r: Option<String>)
    ensures
        match value_text(*serializer, Entry { value: value@, expiry: None }) {
            Some(t) => r is Some && r->Some_0@ == t,
            None => r is None,
        },
{
    match base64_decode(value) {
        Some(data) => match serializer.deserialize(data.as_slice()) {
            Ok(text) => Some(text),
            Err(_) => None,
        },
        None => None,
    }
}

/// The secondary index of what an index over a log stores.
fn build_bindings<S: Serializer>(log: &Vec<u8>, index: &OffsetIndex, serializer: &S) -> (r:
    SecondaryIndex)
    requires
        index.wf(),
        entries_ok(log@, index@, None),
    ensures
        r.wf(),
        r@ == mirror(*serializer, store_of(log@, index@)),
{
    let mut sec = SecondaryIndex::new();
    let mut i: usize = 0;
    let ghost slots = index.slots();
    let ghost m = store_of(log@, index@);
    let ghost mut done: Set<Seq<u8>> = Set::empty();
    let none: Vec<(String, String)> = Vec::new();
    proof {
        lemma_slots_map(slots);
        assert(mirror_of_keys(*serializer, m, done) =~= Set::<Triple>::empty());
        assert(pairs_view(none@) =~= Seq::<(Seq<char>, Seq<char>)>::empty());
        assert(bindings_of(Seq::<char>::empty(), pairs_view(none@)) =~= Set::<Triple>::empty());
    }
    while i < index.len()
        invariant
            i <= slots.len(),
            slots == index.slots(),
            index.wf(),
            entries_ok(log@, index@, None),
            m == store_of(log@, index@),
            pairs_view(none@) == Seq::<(Seq<char>, Seq<char>)>::empty(),
            forall|j: int|
                0 <= j < slots.len() ==> index@.contains_key(#[trigger] slots[j].key) && index@[slots[j].key]
                    == slots[j].extent,
            sec.wf(),
            sec@ == mirror_of_keys(*serializer, m, done),
            forall|j: int| 0 <= j < i ==> done.contains(#[trigger] slots[j].key),
        decreases slots.len() - i,
    {
        let key = index.key_at(i);
        let extent = index.extent_at(i);
        proof {
            assert(index@.contains_key(slots[i as int].key));
            assert(extent_ok(log@, key@, extent));
        }
        let text = match read_entry(log.as_slice(), extent) {
            Some((value, _)) => read_text(serializer, value.as_slice()),
            None => None,
        };
        let pairs = match &text {
            Some(t) => index_pairs(&parse_doc(t.as_str())),
            None => {
                let v: Vec<(String, String)> = Vec::new();
                proof {
                    assert(pairs_view(v@) =~= Seq::<(Seq<char>, Seq<char>)>::empty());
                }
                v
            },
        };
        let name = match utf8_text(key.as_slice()) {
            Some(n) => n,
            None => "",
        };
        let ghost before = sec@;
        sec.rebind(name, &none, &pairs);
        proof {
            assert(encode_utf8(name@) == key@);
            assert(bindings_of(name@, pairs_view(none@)) =~= Set::<Triple>::empty());
            assert(before.difference(Set::<Triple>::empty()) =~= before);
            assert(pairs_view(pairs@) == text_pairs(value_text(*serializer, m[key@])));
            lemma_mirror_step(*serializer, m, done, name@);
            done = done.insert(key@);
        }
        i += 1;
    }
    proof {
        assert forall|k: Seq<u8>| m.contains_key(k) implies done.contains(k) by {
            assert(slots_have(slots, k));
            let j = choose|j: int| 0 <= j < slots.len() && #[trigger] slots[j].key == k;
            assert(done.contains(slots[j].key));
        }
        lemma_mirror_all(*serializer, m, done);
    }
    sec
}

impl<S: Serializer> SlackbaseEngine<S> {
    /// The log without an unfinished last line.
    pub open spec fn whole_lines(log: Seq<u8>) -> Seq<u8> {
        log.take(last_line_start(log))
    }

    /// Whether a hint fits the log at `now`: every key of the hint points at
    /// the latest record of the key in the log, a `put`, whether or not it
    /// has expired since; and a key that the log would give and the hint
    /// lacks has expired by `now`.
    pub open spec fn hint_fits(log: Seq<u8>, hint: Seq<u8>, now: u64) -> bool {
        filtered(log, hint_index(records(hint)), stored_index(log), now)
    }

    /// The index with which a store is opened at `now`. With a hint that
    /// fits the log it is the index that the hint holds, keys that have
    /// expired since included; without a hint, or with one that does not
    /// fit, it is the index that a scan of the log at `now` gives.
    pub open spec fn opening_index(log: Seq<u8>, hint: Option<Seq<u8>>, now: u64) -> Map<
        Seq<u8>,
        Extent,
    > {
        let whole = Self::whole_lines(log);
        match hint {
            Some(h) => if Self::hint_fits(whole, h, now) {
                hint_index(records(h))
            } else {
                live_index(whole, now)
            },
            None => live_index(whole, now),
        }
    }

    /// The store with which a store is opened at `now`, before anything is
    /// replayed from the journal.
    pub open spec fn scanned(log: Seq<u8>, hint: Option<Seq<u8>>, now: u64) -> Store {
        store_of(Self::whole_lines(log), Self::opening_index(log, hint, now))
    }

    /// Whether a loaded hint fits the log at `now`; `all` is the index of
    /// the log without a clock.
    fn fits(log: &Vec<u8>, hint: &OffsetIndex, all: &OffsetIndex, now: u64) -> (r: bool)
        requires
            hint.wf(),
            all.wf(),
            all@ == stored_index(log@),
        ensures
            r == filtered(log@, hint@, all@, now),
    {
        let ghost hs = hint.slots();
        let ghost ls = all.slots();
        proof {
            assert(log@.len() == log.len());
            lemma_live_index(log@, 0);
            lemma_slots_map(hs);
            lemma_slots_map(ls);
        }
        let mut i: usize = 0;
        while i < hint.len()
            invariant
                i <= hs.len(),
                hs == hint.slots(),
                hint.wf(),
                all.wf(),
                forall|j: int|
                    0 <= j < hs.len() ==> hint@.contains_key(#[trigger] hs[j].key) && hint@[hs[j].key]
                        == hs[j].extent,
                forall|j: int|
                    0 <= j < i ==> all@.contains_key(#[trigger] hs[j].key) && all@[hs[j].key]
                        == hs[j].extent,
            decreases hs.len() - i,
        {
            let want = hint.extent_at(i);
            let same = match all.get(hint.key_at(i).as_slice()) {
                Some(e) => e.offset == want.offset && e.len == want.len,
                None => false,
            };
            if !same {
                proof {
                    assert(hint@.contains_key(hs[i as int].key));
                }
                return false;
            }
            i += 1;
        }
        let mut k: usize = 0;
        while k < all.len()
            invariant
                k <= ls.len(),
                ls == all.slots(),
                hint.wf(),
                all.wf(),
                all@ == stored_index(log@),
                log@.len() <= usize::MAX,
                entries_ok(log@, all@, None),
                forall|j: int|
                    0 <= j < ls.len() ==> all@.contains_key(#[trigger] ls[j].key) && all@[ls[j].key]
                        == ls[j].extent,
                forall|j: int|
                    0 <= j < k && !hint@.contains_key(#[trigger] ls[j].key) ==> expired(
                        expiry_at(log@, ls[j].extent),
                        now,
                    ),
            decreases ls.len() - k,
        {
            let extent = all.extent_at(k);
            proof {
                assert(all@.contains_key(ls[k as int].key));
                assert(extent_ok(log@, ls[k as int].key, extent));
            }
            if hint.get(all.key_at(k).as_slice()).is_none() {
                let gone = match read_entry(log.as_slice(), extent) {
                    Some((_, Some(e))) => e <= now,
                    _ => false,
                };
                if !gone {
                    proof {
                        assert(all@[ls[k as int].key] == extent);
                    }
                    return false;
                }
            }
            k += 1;
        }
        proof {
            assert forall|key: Seq<u8>| #[trigger] hint@.contains_key(key) implies all@.contains_key(
                key,
            ) && all@[key] == hint@[key] by {
                assert(slots_have(hs, key));
                let j = choose|j: int| 0 <= j < hs.len() && #[trigger] hs[j].key == key;
                assert(all@.contains_key(hs[j].key));
            }
            assert forall|key: Seq<u8>|
                all@.contains_key(key) && !hint@.contains_key(key) implies expired(
                expiry_at(log@, #[trigger] all@[key]),
                now,
            ) by {
                assert(slots_have(ls, key));
                let j = choose|j: int| 0 <= j < ls.len() && #[trigger] ls[j].key == key;
                assert(all@[ls[j].key] == ls[j].extent);
            }
        }
        true
    }

    /// An engine over a log as it stands, opened at `now` with the index of
    /// a hint that fits or else of a scan, and with nothing replayed from
    /// the journal.
    fn start(log: Vec<u8>, wal: WAL, hint: Option<Vec<u8>>, serializer: S, now: u64) -> (r: Self)
        requires
            wal.wf(),
        ensures
            r.wf(),
            r.log() == Self::whole_lines(log@),
            r.index() == Self::opening_index(log@, opt_image(hint), now),
            r.stored() == Self::scanned(log@, opt_image(hint), now),
            r.serializer() == serializer,
            r.clock() == now,
            r.cache() == Seq::<Cached>::empty(),
            r.cache_capacity() == CACHE_CAPACITY,
            r.wal_bytes() == wal.bytes(),
            r.wal_lines() == wal.lines(),
            r.wal_durable() == wal.durable(),
            r.reads() == 0 && r.writes() == 0 && r.hit_count() == 0 && r.miss_count() == 0,
    {
        proof {
            reveal(SlackbaseEngine::wf);
        }
        let mut log = log;
        drop_torn_tail(&mut log);
        proof {
            assert(log@.len() == log.len());
            lemma_live_index(log@, now);
        }
        let index = match hint {
            Some(h) => {
                let loaded = load_hint(h.as_slice());
                let all = scan_log(log.as_slice(), None);
                if Self::fits(&log, &loaded, &all, now) {
                    loaded
                } else {
                    build_offset_index(log.as_slice(), now)
                }
            },
            None => build_offset_index(log.as_slice(), now),
        };
        proof {
            assert(filtered(log@, index@, stored_index(log@), now));
            assert(entries_ok(log@, index@, None)) by {
                assert forall|k: Seq<u8>| #[trigger] index@.contains_key(k) implies extent_ok(
                    log@,
                    k,
                    index@[k],
                ) by {
                    assert(stored_index(log@).contains_key(k));
                }
            }
        }
        let sec_index = build_bindings(&log, &index, &serializer);
        let lru = cache_new(CACHE_CAPACITY);
        SlackbaseEngine {
            log,
            index,
            sec_index,
            wal,
            serializer,
            lru,
            read_ops: 0,
            write_ops: 0,
            hits: 0,
            misses: 0,
            clock: now,
        }
    }

    /// Replays one recovered line.
    fn replay_one(&mut self, line: &[u8]) -> (r: Result<(), Error>)
        requires
            old(self).wf(),
        ensures
            final(self).wf(),
            final(self).serializer() == old(self).serializer(),
            final(self).clock() == old(self).clock(),
            final(self).cache_capacity() == old(self).cache_capacity(),
            match replay_line(old(self).serializer(), old(self).stored(), line@) {
                Some(m) => {
                    &&& r is Ok
                    &&& final(self).stored() == m
                    &&& final(self).cache() == replay_cached(
                        old(self).serializer(),
                        old(self).cache(),
                        old(self).cache_capacity(),
                        line@,
                    )
                    &&& match replay_written(old(self).serializer(), line@) {
                        Some(l) => {
                            &&& final(self).log() == old(self).log() + l + seq![LF]
                            &&& final(self).wal_bytes() == old(self).wal_bytes() + l + seq![LF]
                            &&& final(self).wal_lines() == old(self).wal_lines().push(l)
                            &&& final(self).wal_durable() == final(self).wal_bytes().len()
                        },
                        None => {
                            &&& final(self).log() == old(self).log()
                            &&& final(self).wal_bytes() == old(self).wal_bytes()
                            &&& final(self).wal_lines() == old(self).wal_lines()
                            &&& final(self).wal_durable() == old(self).wal_durable()
                        },
                    }
                },
                None => r == Err::<(), Error>(Error::Serde),
            },
    {
        let ghost s = self.serializer();
        let ghost m0 = self.stored();
        match decode(line) {
            Ok(Record::Put { key, value, expiry }) => {
                let text = match read_text(&self.serializer, value.as_slice()) {
                    Some(t) => t,
                    None => {
                        return Ok(());
                    },
                };
                let name = match utf8_text(key.as_slice()) {
                    Some(n) => n,
                    None => "",
                };
                proof {
                    assert(encode_utf8(name@) == key@);
                }
                self.put_internal(name, text.as_str(), expiry)
            },
            Ok(Record::Del { key }) => {
                let name = match utf8_text(key.as_slice()) {
                    Some(n) => n,
                    None => "",
                };
                proof {
                    assert(encode_utf8(name@) == key@);
                }
                self.delete(name)
            },
            Err(_) => Ok(()),
        }
    }

    /// What is stored once the closed batches of the journal are replayed
    /// over the store with which the log is opened at `now`; `None` when
    /// the serializer refuses a replayed value.
    pub open spec fn recovered(
        log: Seq<u8>,
        wal: Seq<u8>,
        hint: Option<Seq<u8>>,
        serializer: S,
        now: u64,
    ) -> Option<Store> {
        replay_lines(
            serializer,
            Self::scanned(log, hint, now),
            committed_lines(line_texts(records(wal))),
        )
    }

    /// The engine as it stands after it was opened at `now` on the images
    /// `log`, `wal` and `hint`: it stores what recovery gives; where the
    /// journal holds no closed batch its index is the opening index, that
    /// of the hint if one was handed in and fits the log; its log and its
    /// journal are the images without an unfinished last line, followed by
    /// the records that the replay wrote; all of the journal is flushed;
    /// the cache holds what the replay left in it; the counters stand at
    /// zero.
    pub open spec fn opened(
        &self,
        log: Seq<u8>,
        wal: Seq<u8>,
        hint: Option<Seq<u8>>,
        serializer: S,
        now: u64,
    ) -> bool {
        let trace = replay_trace(serializer, committed_lines(line_texts(records(wal))));
        &&& self.wf()
        &&& Self::recovered(log, wal, hint, serializer, now) == Some(self.stored())
        &&& committed_lines(line_texts(records(wal))).len() == 0 ==> self.index()
            == Self::opening_index(log, hint, now)
        &&& self.serializer() == serializer
        &&& self.clock() == now
        &&& self.cache_capacity() == CACHE_CAPACITY
        &&& self.reads() == 0 && self.writes() == 0 && self.hit_count() == 0 && self.miss_count()
            == 0
        &&& self.log() == Self::whole_lines(log) + lines_bytes(trace)
        &&& self.wal_bytes() == Self::whole_lines(wal) + lines_bytes(trace)
        &&& self.wal_lines() == line_texts(records(wal)) + trace
        &&& self.wal_durable() == self.wal_bytes().len()
        &&& self.cache() == replay_cache(
            serializer,
            CACHE_CAPACITY as nat,
            committed_lines(line_texts(records(wal))),
        )
    }

    /// Opens a store at time `now` from the images of its files: the data
    /// log, the journal, and the hint file if it is no older than the log.
    ///
    /// An unfinished last line of the log or the journal is dropped. With
    /// a hint the index is loaded from it, provided that it fits the log:
    /// each of its keys points at the key's latest record, a `put`, and a
    /// key that it lacks has expired; what has expired since the hint was
    /// written stays indexed. Without a hint, or with one that does not
    /// fit, the index is rebuilt by a scan of the log at `now`. Then the
    /// closed batches of the journal are replayed through `put` and
    /// `delete`. Fails with `Serde` when the serializer refuses a replayed
    /// value.
    pub fn open_at(log: Vec<u8>, wal: Vec<u8>, hint: Option<Vec<u8>>, serializer: S, now: u64) -> (r:
        Result<Self, Error>)
        ensures
            match Self::recovered(log@, wal@, opt_image(hint), serializer, now) {
                Some(m) => r is Ok && r->Ok_0.opened(
                    log@,
                    wal@,
                    opt_image(hint),
                    serializer,
                    now,
                ),
                None => r == Err::<Self, Error>(Error::Serde),
            },
    {
        proof {
            reveal(SlackbaseEngine::wf);
        }
        let journal = WAL::open(wal);
        let lines = journal.iter();
        let plan = recovery_plan(&lines);
        let mut engine = Self::start(log, journal, hint, serializer, now);
        let ghost replayed = views(plan@);
        let ghost m0 = engine.stored();
        let ghost log0 = engine.log();
        let ghost wal0 = engine.wal_bytes();
        let ghost lines0 = engine.wal_lines();
        let mut i: usize = 0;
        proof {
            assert(replayed.take(0) =~= Seq::<Seq<u8>>::empty());
            assert(log0 + Seq::<u8>::empty() =~= log0);
            assert(wal0 + Seq::<u8>::empty() =~= wal0);
            assert(lines0 + Seq::<Seq<u8>>::empty() =~= lines0);
        }
        while i < plan.len()
            invariant
                i <= plan.len(),
                replayed == views(plan@),
                replayed == committed_lines(line_texts(records(wal@))),
                m0 == Self::scanned(log@, opt_image(hint), now),
                i == 0 ==> engine.index() == Self::opening_index(log@, opt_image(hint), now),
                log0 == Self::whole_lines(log@),
                engine.wf(),
                engine.serializer() == serializer,
                engine.clock() == now,
                engine.cache_capacity() == CACHE_CAPACITY,
                wal0 == Self::whole_lines(wal@),
                lines0 == line_texts(records(wal@)),
                engine.log() == log0 + lines_bytes(replay_trace(serializer, replayed.take(i as int))),
                engine.wal_bytes() == wal0 + lines_bytes(
                    replay_trace(serializer, replayed.take(i as int)),
                ),
                engine.wal_lines() == lines0 + replay_trace(serializer, replayed.take(i as int)),
                engine.wal_durable() == engine.wal_bytes().len(),
                engine.cache() == replay_cache(
                    serializer,
                    CACHE_CAPACITY as nat,
                    replayed.take(i as int),
                ),
                replay_lines(serializer, m0, replayed.take(i as int)) == Some(engine.stored()),
            decreases plan.len() - i,
        {
            let ghost before = engine.log();
            let ghost cur = engine.stored();
            proof {
                assert(replayed.take(i + 1).drop_last() =~= replayed.take(i as int));
                assert(replayed.take(i + 1).last() == plan@[i as int]@);
                assert(replay_lines(serializer, m0, replayed.take(i + 1)) == replay_line(
                    serializer,
                    cur,
                    plan@[i as int]@,
                ));
            }
            match engine.replay_one(plan[i].as_slice()) {
                Ok(()) => {},
                Err(_) => {
                    proof {
                        assert(replay_lines(serializer, m0, replayed.take(i + 1)) is None);
                        lemma_replay_fails(serializer, m0, replayed, i + 1);
                        assert(replayed == committed_lines(line_texts(records(wal@))));
                        assert(m0 == Self::scanned(log@, opt_image(hint), now));
                    }
                    return Err(Error::Serde);
                },
            }
            proof {
                let t0 = replay_trace(serializer, replayed.take(i as int));
                match replay_written(serializer, plan@[i as int]@) {
                    Some(l) => {
                        assert(t0.push(l).drop_last() =~= t0);
                        assert(lines_bytes(t0.push(l)) == lines_bytes(t0) + l + seq![LF]);
                        assert(engine.log() =~= log0 + lines_bytes(t0.push(l)));
                        assert(engine.wal_bytes() =~= wal0 + lines_bytes(t0.push(l)));
                        assert(engine.wal_lines() =~= lines0 + t0.push(l));
                    },
                    None => {},
                }
            }
            i += 1;
        }
        proof {
            assert(replayed.take(i as int) =~= replayed);
        }
        engine.read_ops = 0;
        engine.write_ops = 0;
        engine.hits = 0;
        engine.misses = 0;
        Ok(engine)
    }

    /// The engine after a compaction at `now`.
    ///
    /// The compaction was made at `now`, or at the time of the last scan
    /// if that is later. The new log holds, for each key, its latest record
    /// if that is a `put` that had not expired, one line per key in key
    /// order, and nothing else; the index is the index of the new log; what
    /// had expired is gone from the store and nothing else is; the journal
    /// and the cache are empty; the counters stand at zero.
    pub open spec fn compacted_at(&self, before: &Self, now: u64) -> bool {
        &&& self.wf()
        &&& self.serializer() == before.serializer()
        &&& self.cache_capacity() == CACHE_CAPACITY
        &&& self.clock() == if before.clock() <= now {
            now
        } else {
            before.clock()
        }
        &&& compacted(before.log(), self.log(), self.clock())
        &&& self.index() == live_index(self.log(), self.clock())
        &&& self.stored() == purged(before.stored(), self.clock())
        &&& self.held() == unexpired(before.held(), self.clock())
        &&& self.wal_bytes() == Seq::<u8>::empty()
        &&& self.wal_lines() == Seq::<Seq<u8>>::empty()
        &&& self.wal_durable() == 0
        &&& self.cache() == Seq::<Cached>::empty()
        &&& self.reads() == 0 && self.writes() == 0 && self.hit_count() == 0 && self.miss_count()
            == 0
    }

    /// Compacts the store at time `now`, or at the time of the last scan
    /// if that is later.
    ///
    /// The log is rewritten to hold, for each key, its latest record if
    /// that is a `put` that has not expired; the index is rebuilt from the
    /// new log; the journal and the cache are emptied, the counters start
    /// anew.
    pub fn compact_at(&mut self, now: u64) -> (r: Result<(), Error>)
        requires
            old(self).wf(),
        ensures
            r is Ok,
            final(self).compacted_at(old(self), now),
    {
        proof {
            reveal(SlackbaseEngine::wf);
        }
        let at = if self.clock <= now {
            now
        } else {
            self.clock
        };
        let compact = compact_log(self.log.as_slice(), at);
        proof {
            assert(compact@.len() == compact.len());
            assert(self.log@.len() == self.log.len());
        }
        proof {
            lemma_rescan(self.log(), self.index(), self.clock(), at);
            lemma_compacted_store(self.log(), compact@, at);
            lemma_held_purged(self.serializer(), self.stored(), at);
        }
        let mut journal = WAL::open(Vec::new());
        journal.clear();
        let fresh = Self::start(compact, journal, None, self.serializer.box_clone(), at);
        proof {
            assert(terminated(compact@));
            crate::storage::lemma_last_line_start_append(compact@, Seq::<u8>::empty());
            assert(compact@ + Seq::<u8>::empty() =~= compact@);
            assert(compact@.take(compact@.len() as int) =~= compact@);
        }
        *self = fresh;
        proof {
            assert(self.clock() == at);
            assert(self.log() == compact@);
            assert(compacted(old(self).log(), self.log(), at));
            assert(self.index() == live_index(self.log(), at));
            assert(self.stored() == purged(old(self).stored(), at));
            assert(self.held() == unexpired(old(self).held(), at));
            assert(self.wal_lines() =~= Seq::<Seq<u8>>::empty());
        }
        Ok(())
    }

    /// The keys whose stored value is a JSON object that binds `field` to
    /// `value`, each once, in no particular order.
    pub fn find(&self, field: &str, value: &str) -> (r: Vec<String>)
        requires
            self.wf(),
        ensures
            texts_view(r@).no_duplicates(),
            texts_view(r@).to_set() == Set::new(
                |key: Seq<char>|
                    self.stored().contains_key(encode_utf8(key)) && text_pairs(
                        value_text(self.serializer(), self.stored()[encode_utf8(key)]),
                    ).contains((field@, value@)),
            ),
    {
        proof {
            reveal(SlackbaseEngine::wf);
        }
        let r = self.sec_index.find(field, value);
        proof {
            assert(keys_bound(self.bindings(), field@, value@) =~= Set::new(
                |key: Seq<char>|
                    self.stored().contains_key(encode_utf8(key)) && text_pairs(
                        value_text(self.serializer(), self.stored()[encode_utf8(key)]),
                    ).contains((field@, value@)),
            ));
        }
        r
    }

    /// The data log.
    pub fn log_bytes(&self) -> (r: &Vec<u8>)
        ensures
            r@ == self.log(),
    {
        &self.log
    }

    /// The journal.
    pub fn journal_bytes(&self) -> (r: &Vec<u8>)
        ensures
            r@ == self.wal_bytes(),
    {
        self.wal.as_bytes()
    }

    /// The hint file of the index as it stands.
    pub fn hint_bytes(&self) -> (r: Vec<u8>)
        ensures
            r@ == self.hint(),
    {
        save_hint(&self.index)
    }

    /// The secondary index.
    pub fn secondary_index(&self) -> (r: &SecondaryIndex)
        ensures
            r@ == self.bindings(),
            self.wf() ==> r.wf(),
    {
        proof {
            reveal(SlackbaseEngine::wf);
        }
        &self.sec_index
    }

    /// The hint file reads back as the offset index.
    pub proof fn law_hint_is_index(&self)
        requires
            self.wf(),
        ensures
            hint_index(records(self.hint())) == self.index(),
    {
        reveal(SlackbaseEngine::wf);
        self.lemma_index_ok();
        let slots = self.index.slots();
        lemma_slots_map(slots);
        assert forall|i: int| 0 <= i < slots.len() implies !(#[trigger] slots[i]).key.contains(
            LF,
        ) by {
            assert(self.index().contains_key(slots[i].key));
            assert(extent_ok(self.log(), slots[i].key, self.index()[slots[i].key]));
        }
        lemma_hint_round_trip(slots);
    }

    /// Restarting changes nothing but the cache and the counters. A store
    /// whose journal holds no closed batch, opened again from its own log,
    /// journal and hint at a time not before its last scan, has the same
    /// log and journal, the same index with the same keys in the same
    /// order, the same hint, the same store and the same bindings; so every
    /// read, every scan and every `find` gives what it gave before, keys
    /// that have expired in between included.
    pub proof fn law_restart(&self, after: Self, now: u64)
        requires
            self.wf(),
            self.clock() <= now,
            committed_lines(self.wal_lines()).len() == 0,
            after.opened(
                self.log(),
                self.wal_bytes(),
                Some(self.hint()),
                self.serializer(),
                now,
            ),
        ensures
            Self::hint_fits(self.log(), self.hint(), now),
            Self::opening_index(self.log(), Some(self.hint()), now) == self.index(),
            after.log() == self.log(),
            after.wal_bytes() == self.wal_bytes(),
            after.index() == self.index(),
            after.keys() == self.keys(),
            after.hint() == self.hint(),
            after.stored() == self.stored(),
            after.held() == self.held(),
            after.bindings() == self.bindings(),
    {
        reveal(SlackbaseEngine::wf);
        crate::storage::lemma_last_line_start_append(self.log(), Seq::<u8>::empty());
        assert(self.log() + Seq::<u8>::empty() =~= self.log());
        assert(self.log().take(self.log().len() as int) =~= self.log());
        crate::storage::lemma_last_line_start_append(self.wal_bytes(), Seq::<u8>::empty());
        assert(self.wal_bytes() + Seq::<u8>::empty() =~= self.wal_bytes());
        assert(self.wal_bytes().take(self.wal_bytes().len() as int) =~= self.wal_bytes());
        self.law_hint_is_index();
        lemma_filtered_later(
            self.log(),
            self.index(),
            stored_index(self.log()),
            self.clock(),
            now,
        );
        let none = committed_lines(self.wal_lines());
        assert(none =~= Seq::<Seq<u8>>::empty());
        assert(replay_trace(self.serializer(), none) =~= Seq::<Seq<u8>>::empty());
        assert(after.log() =~= self.log());
        assert(after.wal_bytes() =~= self.wal_bytes());
        assert(after.index() == self.index());
        lemma_sorted_slots_unique(after.index.slots(), self.index.slots());
        assert(after.keys() =~= self.keys());
    }

    /// Restarting without a hint changes no read. A store whose journal
    /// holds no closed batch, opened again from its own log and journal by
    /// a scan at a time not before its last scan, stores what it stored
    /// before, less what has expired by then; every read at or after that
    /// time gives what it gave before.
    pub proof fn law_restart_by_scan(&self, now: u64)
        requires
            self.wf(),
            self.clock() <= now,
            committed_lines(self.wal_lines()).len() == 0,
        ensures
            Self::recovered(self.log(), self.wal_bytes(), None, self.serializer(), now) == Some(
                purged(self.stored(), now),
            ),
            forall|key: Seq<u8>, later: u64|
                now <= later ==> #[trigger] read(
                    held_of(self.serializer(), purged(self.stored(), now)),
                    key,
                    later,
                ) == read(self.held(), key, later),
    {
        reveal(SlackbaseEngine::wf);
        crate::storage::lemma_last_line_start_append(self.log(), Seq::<u8>::empty());
        assert(self.log() + Seq::<u8>::empty() =~= self.log());
        assert(self.log().take(self.log().len() as int) =~= self.log());
        lemma_rescan(self.log(), self.index(), self.clock(), now);
        assert(committed_lines(self.wal_lines()) =~= Seq::<Seq<u8>>::empty());
    }

    /// The indexed keys are exactly those of `keys`, which stand in
    /// strictly ascending order of their bytes.
    pub proof fn law_keys_ascending(&self)
        requires
            self.wf(),
        ensures
            forall|i: int, j: int|
                0 <= i < j < self.keys().len() ==> lex_lt(
                    #[trigger] self.keys()[i],
                    #[trigger] self.keys()[j],
                ),
            forall|k: Seq<u8>| self.index().contains_key(k) <==> self.keys().contains(k),
    {
        reveal(SlackbaseEngine::wf);
        let slots = self.index.slots();
        assert forall|i: int, j: int| 0 <= i < j < self.keys().len() implies lex_lt(
            #[trigger] self.keys()[i],
            #[trigger] self.keys()[j],
        ) by {
            assert(lex_lt(slots[i].key, slots[j].key));
        }
        assert forall|k: Seq<u8>| self.index().contains_key(k) <==> self.keys().contains(k) by {
            if self.index().contains_key(k) {
                assert(slots_have(slots, k));
                let i = choose|i: int| 0 <= i < slots.len() && #[trigger] slots[i].key == k;
                assert(self.keys()[i] == k);
            }
            if self.keys().contains(k) {
                let i = choose|i: int| 0 <= i < self.keys().len() && self.keys()[i] == k;
                assert(slots[i].key == k);
            }
        }
    }

    /// Counters and sizes.
    pub fn stats(&self) -> (r: Stats)
        ensures
            r.reads == self.reads(),
            r.writes == self.writes(),
            r.hits == self.hit_count(),
            r.misses == self.miss_count(),
            r.key_count == self.keys().len(),
            r.log_bytes == self.log().len(),
            r.wal_bytes == self.wal_bytes().len(),
            r.hint_bytes == self.hint().len(),
            r.total_bytes == if r.log_bytes + r.wal_bytes + r.hint_bytes <= u64::MAX {
                r.log_bytes + r.wal_bytes + r.hint_bytes
            } else {
                u64::MAX as int
            },
    {
        let log_bytes = self.log.len() as u64;
        let wal_bytes = self.wal.as_bytes().len() as u64;
        let hint_bytes = save_hint(&self.index).len() as u64;
        let mut total: u64 = u64::MAX;
        if wal_bytes <= u64::MAX - log_bytes {
            let part = log_bytes + wal_bytes;
            if hint_bytes <= u64::MAX - part {
                total = part + hint_bytes;
            }
        }
        Stats {
            reads: self.read_ops,
            writes: self.write_ops,
            hits: self.hits,
            misses: self.misses,
            key_count: self.index.len() as u64,
            log_bytes,
            wal_bytes,
            hint_bytes,
            total_bytes: total,
        }
    }

    /// The file images of the store as it stands, with the journal flushed.
    pub fn snapshot(&mut self) -> (r: Snapshot)
        requires
            old(self).wf(),
        ensures
            final(self).wf(),
            final(self).log() == old(self).log(),
            final(self).index() == old(self).index(),
            final(self).keys() == old(self).keys(),
            final(self).hint() == old(self).hint(),
            final(self).stored() == old(self).stored(),
            final(self).bindings() == old(self).bindings(),
            final(self).wal_bytes() == old(self).wal_bytes(),
            final(self).wal_lines() == old(self).wal_lines(),
            final(self).wal_durable() == final(self).wal_bytes().len(),
            final(self).cache() == old(self).cache(),
            final(self).cache_capacity() == old(self).cache_capacity(),
            final(self).serializer() == old(self).serializer(),
            final(self).clock() == old(self).clock(),
            final(self).reads() == old(self).reads(),
            final(self).writes() == old(self).writes(),
            final(self).hit_count() == old(self).hit_count(),
            final(self).miss_count() == old(self).miss_count(),
            r.log@ == old(self).log(),
            r.wal@ == old(self).wal_bytes(),
            r.hint@ == old(self).hint(),
    {
        proof {
            reveal(SlackbaseEngine::wf);
        }
        self.wal.flush();
        Snapshot {
            log: self.log.clone(),
            wal: self.wal.as_bytes().clone(),
            hint: save_hint(&self.index),
        }
    }

    /// Puts the images of a snapshot in the place of the store's own and
    /// opens them at time `now`. On failure the store stays as it is.
    pub fn restore_at(&mut self, snapshot: &Snapshot, now: u64) -> (r: Result<(), Error>)
        requires
            old(self).wf(),
        ensures
            final(self).wf(),
            final(self).serializer() == old(self).serializer(),
            match Self::recovered(
                snapshot.log@,
                snapshot.wal@,
                Some(snapshot.hint@),
                old(self).serializer(),
                now,
            ) {
                Some(m) => r is Ok && final(self).opened(
                    snapshot.log@,
                    snapshot.wal@,
                    Some(snapshot.hint@),
                    old(self).serializer(),
                    now,
                ),
                None => r == Err::<(), Error>(Error::Serde) && final(self).unchanged(old(self)),
            },
    {
        let opened = Self::open_at(
            snapshot.log.clone(),
            snapshot.wal.clone(),
            Some(snapshot.hint.clone()),
            self.serializer.box_clone(),
            now,
        );
        match opened {
            Ok(engine) => {
                *self = engine;
                Ok(())
            },
            Err(e) => Err(Error::Serde),
        }
    }
}

/// What one mutation of a batch writes, as readers see it; `None` when
/// the serializer refuses the value or the value is too long to encode.
pub open spec fn op_write<S: Serializer>(s: S, op: BatchOpView) -> Option<Write> {
    match op {
        BatchOpView::Put(k, v) => match s.encoded(v) {
            Some(data) => if base64_encodable(data.len()) {
                Some(Write::Put { key: encode_utf8(k), text: s.decoded(data), expiry: None })
            } else {
                None
            },
            None => None,
        },
        BatchOpView::Del(k) => Some(Write::Delete { key: encode_utf8(k) }),
    }
}

/// The record line of one mutation of a batch.
pub open spec fn op_line<S: Serializer>(s: S, op: BatchOpView) -> Seq<u8> {
    match op {
        BatchOpView::Put(k, v) => encode_record(put_record(k, s.encoded(v)->Some_0, None)),
        BatchOpView::Del(k) => encode_record(del_record(k)),
    }
}

/// Every mutation of the batch can be written.
pub open spec fn ops_ok<S: Serializer>(s: S, ops: Seq<BatchOp>) -> bool {
    forall|i: int| 0 <= i < ops.len() ==> op_write(s, (#[trigger] ops[i])@) is Some
}

/// What the mutations of a batch write, as readers see it.
pub open spec fn ops_writes<S: Serializer>(s: S, ops: Seq<BatchOp>) -> Seq<Write> {
    Seq::new(ops.len(), |i: int| op_write(s, ops[i]@)->Some_0)
}

/// The record lines of the mutations of a batch.
pub open spec fn ops_lines<S: Serializer>(s: S, ops: Seq<BatchOp>) -> Seq<Seq<u8>> {
    Seq::new(ops.len(), |i: int| op_line(s, ops[i]@))
}

/// The record line of the mutation can be read back: the base64 text of
/// the bytes of a value holds neither TAB nor LF and decodes to the bytes.
/// `batch` has this of every value once it has made the line.
pub open spec fn op_readable<S: Serializer>(s: S, op: BatchOpView) -> bool {
    match op {
        BatchOpView::Put(k, v) => {
            let data = s.encoded(v)->Some_0;
            crate::codec::plain_field(base64_text(data)) && crate::codec::base64_data(
                base64_text(data),
            ) == Some(data)
        },
        BatchOpView::Del(k) => true,
    }
}

/// The record lines of the batch can be read back.
pub open spec fn ops_readable<S: Serializer>(s: S, ops: Seq<BatchOp>) -> bool {
    forall|i: int| 0 <= i < ops.len() ==> op_readable(s, (#[trigger] ops[i])@)
}

/// The serializer reads every value of the batch back as a text, and
/// writes that text as the same bytes again.
pub open spec fn ops_stable<S: Serializer>(s: S, ops: Seq<BatchOp>) -> bool {
    forall|i: int|
        0 <= i < ops.len() ==> (match (#[trigger] ops[i])@ {
            BatchOpView::Put(k, v) => {
                let data = s.encoded(v)->Some_0;
                s.decoded(data) is Some && s.encoded(s.decoded(data)->Some_0) == Some(data)
            },
            BatchOpView::Del(k) => true,
        })
}

/// Every key of the batch is valid.
pub open spec fn ops_keys_valid(ops: Seq<BatchOp>) -> bool {
    forall|i: int| 0 <= i < ops.len() ==> valid_key_text((#[trigger] ops[i])@.key())
}

/// A key passes the filter of a scan: it starts with the prefix, if one is
/// given, and lies within the range, both ends included, if one is given.
pub open spec fn key_selected(
    key: Seq<u8>,
    prefix: Option<Seq<u8>>,
    range: Option<(Seq<u8>, Seq<u8>)>,
) -> bool {
    &&& prefix matches Some(p) ==> has_prefix(key, p)
    &&& range matches Some(r) ==> !lex_lt(key, r.0) && !lex_lt(r.1, key)
}

/// The keys that pass the filter, in the order in which they stand.
pub open spec fn selected(
    keys: Seq<Seq<u8>>,
    prefix: Option<Seq<u8>>,
    range: Option<(Seq<u8>, Seq<u8>)>,
) -> Seq<Seq<u8>>
    decreases keys.len(),
{
    if keys.len() == 0 {
        Seq::empty()
    } else if key_selected(keys.last(), prefix, range) {
        selected(keys.drop_last(), prefix, range).push(keys.last())
    } else {
        selected(keys.drop_last(), prefix, range)
    }
}

/// The keys of the entries of a scan.
pub open spec fn scan_names(entries: Seq<(String, Option<String>)>) -> Seq<Seq<char>> {
    Seq::new(entries.len(), |i: int| entries[i].0@)
}

/// The bytes of an optional prefix.
pub open spec fn opt_bytes(s: Option<&str>) -> Option<Seq<u8>> {
    match s {
        Some(t) => Some(encode_utf8(t@)),
        None => None,
    }
}

/// The bytes of the ends of an optional range.
pub open spec fn opt_range(r: Option<(&str, &str)>) -> Option<(Seq<u8>, Seq<u8>)> {
    match r {
        Some(p) => Some((encode_utf8(p.0@), encode_utf8(p.1@))),
        None => None,
    }
}

/// The time at which a value written at `now` to live `ttl` seconds
/// expires; the end of time if the sum is beyond it.
pub open spec fn expiry_after(now: u64, ttl: u64) -> u64 {
    if now + ttl <= u64::MAX {
        (now + ttl) as u64
    } else {
        u64::MAX
    }
}

impl<S: Serializer> SlackbaseEngine<S> {
    /// Nothing but the journal differs from `before`.
    pub open spec fn unchanged_but_journal(&self, before: &Self) -> bool {
        &&& self.log() == before.log()
        &&& self.index() == before.index()
        &&& self.keys() == before.keys()
        &&& self.hint() == before.hint()
        &&& self.bindings() == before.bindings()
        &&& self.serializer() == before.serializer()
        &&& self.clock() == before.clock()
        &&& self.cache() == before.cache()
        &&& self.cache_capacity() == before.cache_capacity()
        &&& self.reads() == before.reads()
        &&& self.writes() == before.writes()
        &&& self.hit_count() == before.hit_count()
        &&& self.miss_count() == before.miss_count()
    }

    /// The engine after the keys were read at `now`, one after another.
    pub open spec fn read_all(&self, before: &Self, keys: Seq<Seq<char>>, now: u64) -> bool
        decreases keys.len(),
    {
        if keys.len() == 0 {
            self.wf() && self.unchanged(before)
        } else {
            exists|mid: Self|
                mid.read_all(before, keys.drop_last(), now) && #[trigger] self.got(
                    &mid,
                    keys.last(),
                    now,
                    read(before.held(), encode_utf8(keys.last()), now),
                )
        }
    }

    /// The engine after the frame of a batch was written to the journal:
    /// `BEGIN`, the lines, `END`, all flushed. Nothing else has changed.
    pub open spec fn framed(&self, before: &Self, lines: Seq<Seq<u8>>) -> bool {
        let frame = seq![begin_token()] + lines + seq![end_token()];
        &&& self.wf()
        &&& self.unchanged_but_journal(before)
        &&& self.wal_lines() == before.wal_lines() + frame
        &&& self.wal_bytes() == before.wal_bytes() + lines_bytes(frame)
        &&& self.wal_durable() == self.wal_bytes().len()
    }

    /// The engine after one mutation of a batch was applied: as after a
    /// `put` that succeeded, or as after a `delete`.
    pub open spec fn did(&self, before: &Self, op: BatchOpView) -> bool {
        match op {
            BatchOpView::Put(k, v) => self.wrote(before, k, v, None, Ok(())),
            BatchOpView::Del(k) => self.deleted(before, k),
        }
    }

    /// The engine after the mutations were applied one after another, each
    /// as a `put` or a `delete` of its own.
    pub open spec fn applied(&self, before: &Self, ops: Seq<BatchOpView>) -> bool
        decreases ops.len(),
    {
        if ops.len() == 0 {
            self.wf() && self.unchanged(before)
        } else {
            exists|mid: Self|
                mid.applied(before, ops.drop_last()) && #[trigger] self.did(&mid, ops.last())
        }
    }

    /// Writes `value` under `key` at time `now`, to expire `ttl_secs`
    /// seconds later.
    pub fn putex_at(&mut self, key: &str, value: &str, ttl_secs: u64, now: u64) -> (r: Result<
        (),
        Error,
    >)
        requires
            old(self).wf(),
            valid_key_text(key@),
        ensures
            final(self).wrote(old(self), key@, value@, Some(expiry_after(now, ttl_secs)), r),
    {
        let expiry = if ttl_secs <= u64::MAX - now {
            now + ttl_secs
        } else {
            u64::MAX
        };
        self.put_internal(key, value, Some(expiry))
    }

    /// The record line of one mutation of a batch.
    fn frame_line(&self, op: &BatchOp) -> (r: Option<Vec<u8>>)
        requires
            valid_key_text(op@.key()),
        ensures
            match op_write(self.serializer(), op@) {
                Some(_) => r is Some && r->Some_0@ == op_line(self.serializer(), op@)
                    && !r->Some_0@.contains(LF) && op_readable(self.serializer(), op@),
                None => r is None,
            },
    {
        match op {
            BatchOp::Put(k, v) => {
                let data = match self.serializer.serialize(v.as_str()) {
                    Ok(d) => d,
                    Err(_) => {
                        return None;
                    },
                };
                if data.len() / 3 > (usize::MAX - 4) / 4 {
                    return None;
                }
                let b64 = base64_encode(data.as_slice());
                let record = Record::Put {
                    key: vstd::slice::slice_to_vec(k.as_str().as_bytes()),
                    value: b64,
                    expiry: None,
                };
                proof {
                    lemma_base64_plain(base64_text(data@));
                    lemma_encode_no_newline(record@);
                }
                Some(encode(&record))
            },
            BatchOp::Del(k) => {
                let record = Record::Del { key: vstd::slice::slice_to_vec(k.as_str().as_bytes()) };
                proof {
                    lemma_encode_no_newline(record@);
                }
                Some(encode(&record))
            },
        }
    }

    proof fn lemma_applied_put(
        before: Self,
        mid: Self,
        after: Self,
        ops: Seq<BatchOpView>,
        k: Seq<char>,
        v: Seq<char>,
    )
        requires
            ops.len() > 0,
            ops.last() == BatchOpView::Put(k, v),
            mid.applied(&before, ops.drop_last()),
            after.wrote(&mid, k, v, None, Ok(())),
        ensures
            after.applied(&before, ops),
    {
        assert(after.did(&mid, ops.last()));
    }

    proof fn lemma_applied_del(
        before: Self,
        mid: Self,
        after: Self,
        ops: Seq<BatchOpView>,
        k: Seq<char>,
    )
        requires
            ops.len() > 0,
            ops.last() == BatchOpView::Del(k),
            mid.applied(&before, ops.drop_last()),
            after.deleted(&mid, k),
        ensures
            after.applied(&before, ops),
    {
        assert(after.did(&mid, ops.last()));
    }

    proof fn lemma_read_all_step(
        before: Self,
        mid: Self,
        after: Self,
        keys: Seq<Seq<char>>,
        now: u64,
    )
        requires
            keys.len() > 0,
            mid.read_all(&before, keys.drop_last(), now),
            after.got(&mid, keys.last(), now, read(before.held(), encode_utf8(keys.last()), now)),
        ensures
            after.read_all(&before, keys, now),
    {
    }

    /// Writes the frame of a batch to the journal and flushes it.
    fn write_frame(&mut self, lines: &Vec<Vec<u8>>)
        requires
            old(self).wf(),
            forall|k: int| 0 <= k < lines@.len() ==> !(#[trigger] lines@[k])@.contains(LF),
        ensures
            final(self).framed(old(self), views(lines@)),
    {
        proof {
            assert(self.parts_wf()) by {
                reveal(SlackbaseEngine::wf);
            }
        }
        let ghost want = views(lines@);
        let ghost w0 = self.wal_lines();
        let ghost b0 = self.wal_bytes();
        let begin = begin_line();
        let end = end_line();
        self.wal.append(begin.as_slice());
        let mut j: usize = 0;
        proof {
            lemma_lines_bytes_push(Seq::<Seq<u8>>::empty(), begin_token());
            assert(Seq::<Seq<u8>>::empty().push(begin_token()) =~= seq![begin_token()] + want.take(
                0,
            ));
            assert(w0.push(begin_token()) =~= w0 + (seq![begin_token()] + want.take(0)));
            assert(b0 + begin_token() + seq![LF] =~= b0 + (Seq::<u8>::empty() + begin_token()
                + seq![LF]));
        }
        while j < lines.len()
            invariant
                j <= lines.len(),
                want == views(lines@),
                forall|k: int| 0 <= k < lines@.len() ==> !(#[trigger] lines@[k])@.contains(LF),
                self.wal.wf(),
                self.wal.lines() == w0 + (seq![begin_token()] + want.take(j as int)),
                self.wal.bytes() == b0 + lines_bytes(seq![begin_token()] + want.take(j as int)),
                self.unchanged_but_journal(old(self)),
                self.parts_wf(),
            decreases lines.len() - j,
        {
            let ghost f0 = seq![begin_token()] + want.take(j as int);
            let ghost cl = self.wal.lines();
            let ghost cb = self.wal.bytes();
            self.wal.append(lines[j].as_slice());
            proof {
                let f1 = seq![begin_token()] + want.take(j + 1);
                assert(f1 =~= f0.push(want[j as int]));
                lemma_lines_bytes_push(f0, want[j as int]);
                assert(cl.push(want[j as int]) =~= w0 + f1);
                assert(cb + want[j as int] + seq![LF] =~= b0 + (lines_bytes(f0) + want[j as int]
                    + seq![LF]));
            }
            j += 1;
        }
        let ghost f0 = seq![begin_token()] + want;
        let ghost cl = self.wal.lines();
        let ghost cb = self.wal.bytes();
        proof {
            assert(want.take(j as int) =~= want);
        }
        self.wal.append(end.as_slice());
        self.wal.flush();
        proof {
            let frame = seq![begin_token()] + want + seq![end_token()];
            assert(frame =~= f0.push(end_token()));
            lemma_lines_bytes_push(f0, end_token());
            assert(cl.push(end_token()) =~= w0 + frame);
            assert(cb + end_token() + seq![LF] =~= b0 + (lines_bytes(f0) + end_token() + seq![
                LF,
            ]));
            assert(self.wf()) by {
                reveal(SlackbaseEngine::wf);
            }
        }
    }

    /// Applies the mutations one after another.
    fn apply_ops(&mut self, ops: &Vec<BatchOp>)
        requires
            old(self).wf(),
            ops_keys_valid(ops@),
            ops_ok(old(self).serializer(), ops@),
        ensures
            final(self).applied(old(self), ops_view(ops@)),
            final(self).wf(),
            final(self).serializer() == old(self).serializer(),
            final(self).clock() == old(self).clock(),
            final(self).held() == apply_writes(
                old(self).held(),
                ops_writes(old(self).serializer(), ops@),
            ),
            final(self).log() == old(self).log() + lines_bytes(
                ops_lines(old(self).serializer(), ops@),
            ),
            final(self).wal_lines() == old(self).wal_lines() + ops_lines(
                old(self).serializer(),
                ops@,
            ),
            ops@.len() > 0 ==> final(self).wal_durable() == final(self).wal_bytes().len(),
            ops@.len() == 0 ==> final(self).wal_durable() == old(self).wal_durable()
                && final(self).wal_bytes() == old(self).wal_bytes(),
    {
        let ghost s = self.serializer();
        let ghost want = ops_lines(s, ops@);
        let ghost ws = ops_writes(s, ops@);
        let ghost ov = ops_view(ops@);
        let ghost v0 = self.held();
        let ghost w0 = self.wal_lines();
        let mut k: usize = 0;
        proof {
            assert(ws.take(0) =~= Seq::<Write>::empty());
            assert(want.take(0) =~= Seq::<Seq<u8>>::empty());
            assert(ov.take(0) =~= Seq::<BatchOpView>::empty());
            assert(w0 + want.take(0) =~= w0);
            assert(self.log() + Seq::<u8>::empty() =~= self.log());
        }
        while k < ops.len()
            invariant
                k <= ops.len(),
                self.wf(),
                s == self.serializer(),
                s == old(self).serializer(),
                ops_ok(s, ops@),
                ops_keys_valid(ops@),
                ws == ops_writes(s, ops@),
                want == ops_lines(s, ops@),
                ov == ops_view(ops@),
                self.applied(old(self), ov.take(k as int)),
                self.held() == apply_writes(v0, ws.take(k as int)),
                self.log() == old(self).log() + lines_bytes(want.take(k as int)),
                self.clock() == old(self).clock(),
                self.wal_lines() == w0 + want.take(k as int),
                k > 0 ==> self.wal_durable() == self.wal_bytes().len(),
                k == 0 ==> self.wal_durable() == old(self).wal_durable() && self.wal_bytes()
                    == old(self).wal_bytes(),
            decreases ops.len() - k,
        {
            let ghost cur = self.wal_lines();
            let ghost mid = *self;
            proof {
                assert(op_write(s, ops@[k as int]@) is Some);
                assert(ws.take(k + 1).drop_last() =~= ws.take(k as int));
                assert(ws.take(k + 1).last() == ws[k as int]);
                assert(ov.take(k + 1).drop_last() =~= ov.take(k as int));
                assert(ov.take(k + 1).last() == ops@[k as int]@);
                assert(want.take(k + 1) =~= want.take(k as int).push(want[k as int]));
                lemma_lines_bytes_push(want.take(k as int), want[k as int]);
            }
            match &ops[k] {
                BatchOp::Put(key, value) => {
                    let _ = self.put(key.as_str(), value.as_str());
                    proof {
                        assert(self.wrote(&mid, key@, value@, None, Ok(())));
                        Self::lemma_applied_put(
                            *old(self),
                            mid,
                            *self,
                            ov.take(k + 1),
                            key@,
                            value@,
                        );
                    }
                },
                BatchOp::Del(key) => {
                    let _ = self.delete(key.as_str());
                    proof {
                        Self::lemma_applied_del(*old(self), mid, *self, ov.take(k + 1), key@);
                    }
                },
            }
            proof {
                assert(cur.push(want[k as int]) =~= w0 + want.take(k + 1));
                assert(self.log() =~= old(self).log() + lines_bytes(want.take(k + 1)));
            }
            k += 1;
        }
        proof {
            assert(ws.take(k as int) =~= ws);
            assert(want.take(k as int) =~= want);
            assert(ov.take(k as int) =~= ov);
        }
    }

    /// Applies the mutations as one batch.
    ///
    /// The journal takes `BEGIN`, the record of each mutation in order, and
    /// `END`, and is flushed; then each mutation is applied through `put`
    /// or `delete`. Fails with `Serde`, nothing written, when some value
    /// cannot be serialized. Every line of the frame can be read back.
    pub fn batch(&mut self, ops: Vec<BatchOp>) -> (r: Result<(), Error>)
        requires
            old(self).wf(),
            ops_keys_valid(ops@),
        ensures
            final(self).wf(),
            final(self).serializer() == old(self).serializer(),
            if ops_ok(old(self).serializer(), ops@) {
                let lines = ops_lines(old(self).serializer(), ops@);
                &&& r is Ok
                &&& exists|framed: Self|
                    (#[trigger] framed.framed(old(self), lines)) && final(self).applied(
                        &framed,
                        ops_view(ops@),
                    )
                &&& final(self).held() == apply_writes(
                    old(self).held(),
                    ops_writes(old(self).serializer(), ops@),
                )
                &&& final(self).wal_lines() == old(self).wal_lines() + seq![begin_token()] + lines
                    + seq![end_token()] + lines
                &&& final(self).wal_durable() == final(self).wal_bytes().len()
                &&& final(self).log() == old(self).log() + lines_bytes(lines)
                &&& final(self).clock() == old(self).clock()
                &&& ops_readable(old(self).serializer(), ops@)
            } else {
                r == Err::<(), Error>(Error::Serde) && final(self).unchanged(old(self))
            },
    {
        let ghost s = self.serializer();
        let ghost want = ops_lines(s, ops@);
        let mut lines: Vec<Vec<u8>> = Vec::new();
        let mut i: usize = 0;
        while i < ops.len()
            invariant
                i <= ops.len(),
                self.wf(),
                self.unchanged(old(self)),
                s == self.serializer(),
                want == ops_lines(s, ops@),
                ops_keys_valid(ops@),
                lines@.len() == i,
                forall|j: int|
                    0 <= j < i ==> op_write(s, (#[trigger] ops@[j])@) is Some && lines@[j]@ == want[j]
                        && !lines@[j]@.contains(LF) && op_readable(s, ops@[j]@),
            decreases ops.len() - i,
        {
            match self.frame_line(&ops[i]) {
                Some(line) => {
                    lines.push(line);
                },
                None => {
                    proof {
                        assert(op_write(s, ops@[i as int]@) is None);
                    }
                    return Err(Error::Serde);
                },
            }
            i += 1;
        }
        proof {
            assert(views(lines@) =~= want);
            assert forall|k: int| 0 <= k < lines@.len() implies !(#[trigger] lines@[k])@.contains(
                LF,
            ) by {
                assert(op_write(s, ops@[k]@) is Some);
            }
        }
        self.write_frame(&lines);
        let ghost framed = *self;
        self.apply_ops(&ops);
        proof {
            assert(framed.framed(old(self), want));
            assert(framed.held() == old(self).held());
            assert(self.wal_lines() =~= old(self).wal_lines() + seq![begin_token()] + want + seq![
                end_token(),
            ] + want);
        }
        Ok(())
    }

    /// The engine after a scan at `now` that gave `r`: the entries are the
    /// indexed keys that pass the filter, in the order of the index, each
    /// with what a read of it at `now` gives; the keys were read one after
    /// another, and nothing that is stored has changed.
    pub open spec fn scan_done(
        &self,
        before: &Self,
        prefix: Option<Seq<u8>>,
        range: Option<(Seq<u8>, Seq<u8>)>,
        now: u64,
        r: Seq<(String, Option<String>)>,
    ) -> bool {
        let keys = selected(before.keys(), prefix, range);
        &&& self.wf()
        &&& self.same_data(before)
        &&& self.stored() == before.stored()
        &&& self.read_all(before, scan_names(r), now)
        &&& r.len() == keys.len()
        &&& forall|i: int|
            0 <= i < r.len() ==> encode_utf8((#[trigger] r[i]).0@) == keys[i] && opt_seq(r[i].1)
                == read(before.held(), keys[i], now)
    }

    /// The indexed keys that pass the filter, in ascending order of their
    /// bytes, each with what a read of it at `now` gives.
    pub fn scan_at(&mut self, prefix: Option<&str>, range: Option<(&str, &str)>, now: u64) -> (r:
        Vec<(String, Option<String>)>)
        requires
            old(self).wf(),
        ensures
            final(self).scan_done(old(self), opt_bytes(prefix), opt_range(range), now, r@),
    {
        let mut out: Vec<(String, Option<String>)> = Vec::new();
        let mut i: usize = 0;
        let ghost all = self.keys();
        let ghost p = opt_bytes(prefix);
        let ghost g = opt_range(range);
        let ghost v0 = self.held();
        proof {
            assert(all.take(0) =~= Seq::<Seq<u8>>::empty());
            assert(scan_names(out@) =~= Seq::<Seq<char>>::empty());
        }
        while i < self.index.len()
            invariant
                i <= all.len(),
                all == self.keys(),
                all.len() == self.index.slots().len(),
                p == opt_bytes(prefix),
                g == opt_range(range),
                self.wf(),
                self.same_data(old(self)),
                self.stored() == old(self).stored(),
                v0 == old(self).held(),
                self.read_all(old(self), scan_names(out@), now),
                out@.len() == selected(all.take(i as int), p, g).len(),
                forall|j: int|
                    0 <= j < out@.len() ==> encode_utf8((#[trigger] out@[j]).0@) == selected(
                        all.take(i as int),
                        p,
                        g,
                    )[j] && (match read(v0, selected(all.take(i as int), p, g)[j], now) {
                        Some(text) => out@[j].1 is Some && out@[j].1->Some_0@ == text,
                        None => out@[j].1 is None,
                    }),
            decreases all.len() - i,
        {
            let key = self.index.key_at(i).clone();
            let ghost kb = all[i as int];
            proof {
                assert(key@ == kb);
                assert(all.take(i + 1).drop_last() =~= all.take(i as int));
                assert(all.take(i + 1).last() == kb);
                self.lemma_index_ok();
                assert(self.index.wf()) by {
                    reveal(SlackbaseEngine::wf);
                }
                lemma_slots_map(self.index.slots());
                assert(self.index().contains_key(self.index.slots()[i as int].key));
                assert(extent_ok(self.log(), kb, self.index()[kb]));
            }
            let by_prefix = match prefix {
                Some(pfx) => starts_with(key.as_slice(), pfx.as_bytes()),
                None => true,
            };
            let by_range = match range {
                Some((lo, hi)) => {
                    let below = order_of(key.as_slice(), lo.as_bytes());
                    let above = order_of(hi.as_bytes(), key.as_slice());
                    below != Order::Before && above != Order::Before
                },
                None => true,
            };
            if by_prefix && by_range {
                let name = match utf8_text(key.as_slice()) {
                    Some(n) => n.to_owned(),
                    None => String::new(),
                };
                let ghost sel = selected(all.take(i as int), p, g);
                let ghost old_out = out@;
                let ghost mid = *self;
                let value = self.get_at(name.as_str(), now);
                out.push((name, value));
                proof {
                    assert(scan_names(out@).drop_last() =~= scan_names(old_out));
                    assert(scan_names(out@).last() == name@);
                    assert(mid.read_all(old(self), scan_names(out@).drop_last(), now));
                    assert(mid.held() == old(self).held());
                    assert(self.got(
                        &mid,
                        name@,
                        now,
                        read(old(self).held(), encode_utf8(name@), now),
                    ));
                    Self::lemma_read_all_step(*old(self), mid, *self, scan_names(out@), now);
                    let sel2 = selected(all.take(i + 1), p, g);
                    assert(sel2 == sel.push(kb));
                    assert forall|j: int| 0 <= j < out@.len() implies encode_utf8(
                        (#[trigger] out@[j]).0@,
                    ) == sel2[j] && (match read(v0, sel2[j], now) {
                        Some(text) => out@[j].1 is Some && out@[j].1->Some_0@ == text,
                        None => out@[j].1 is None,
                    }) by {
                        if j < old_out.len() {
                            assert(out@[j] == old_out[j]);
                            assert(sel2[j] == sel[j]);
                        }
                    }
                }
            }
            i += 1;
        }
        proof {
            assert(all.take(i as int) =~= all);
        }
        out
    }
}

} // verus!
