//! The read cache: a bounded mapping from key to value that forgets the
//! entry used least recently when it is full.

use lru::LruCache;
use vstd::prelude::*;

verus! {

/// `lru::LruCache`, taken as it is: nothing is known of what is inside.
#[verifier::external_type_specification]
#[verifier::external_body]
#[verifier::reject_recursive_types(K)]
#[verifier::reject_recursive_types(V)]
#[verifier::reject_recursive_types(S)]
pub struct ExLruCache<K, V, S>(LruCache<K, V, S>);

/// `lru::DefaultHasher`, the hasher of a cache made by `LruCache::new`.
#[verifier::external_type_specification]
#[verifier::external_body]
pub struct ExDefaultHasher(lru::DefaultHasher);

/// An entry of the cache as a plain value: key and value.
pub type Cached = (Seq<char>, Seq<char>);

/// What the cache holds, the entry used most recently first.
pub uninterp spec fn cache_entries(c: &LruCache<String, String>) -> Seq<Cached>;

/// How many entries the cache was made to hold.
pub uninterp spec fn cache_limit(c: &LruCache<String, String>) -> nat;

/// Position of the entry of `key`, or the number of entries.
pub open spec fn cached_position(s: Seq<Cached>, key: Seq<char>) -> int
    decreases s.len(),
{
    if s.len() == 0 || s[0].0 == key {
        0
    } else {
        1 + cached_position(s.skip(1), key)
    }
}

/// The value cached for `key`.
pub open spec fn cached_value(s: Seq<Cached>, key: Seq<char>) -> Option<Seq<char>> {
    let p = cached_position(s, key);
    if 0 <= p < s.len() {
        Some(s[p].1)
    } else {
        None
    }
}

/// The entries without that of `key`.
pub open spec fn without_key(s: Seq<Cached>, key: Seq<char>) -> Seq<Cached>
    decreases s.len(),
{
    if s.len() == 0 {
        s
    } else if s.last().0 == key {
        without_key(s.drop_last(), key)
    } else {
        without_key(s.drop_last(), key).push(s.last())
    }
}

/// The entries after `key` was put: the new entry stands first; an old entry
/// of the key is gone; if the key is new and the cache was full, the last
/// entry is gone.
pub open spec fn after_put(s: Seq<Cached>, limit: nat, key: Seq<char>, value: Seq<char>) -> Seq<
    Cached,
> {
    if cached_value(s, key) is Some {
        seq![(key, value)] + without_key(s, key)
    } else if s.len() >= limit && s.len() > 0 {
        seq![(key, value)] + s.drop_last()
    } else {
        seq![(key, value)] + s
    }
}

/// The entries after a hit on `key`: its entry stands first.
pub open spec fn after_hit(s: Seq<Cached>, key: Seq<char>) -> Seq<Cached> {
    match cached_value(s, key) {
        Some(v) => seq![(key, v)] + without_key(s, key),
        None => s,
    }
}

/// The largest limit with which a cache is made.
pub const CACHE_LIMIT_MAX: usize = 65536;

/// `LruCache::new`. Believed of it: the new cache is empty and holds at most
/// `limit` entries. A limit of zero is left out: no cache can be made of it.
/// So is a limit above `CACHE_LIMIT_MAX`: the cache sets up a table of that
/// size at once, which fails for sizes that no machine holds.
#[verifier::external_body]
pub(crate) fn cache_new(limit: usize) -> (r: LruCache<String, String>)
    requires
        0 < limit <= CACHE_LIMIT_MAX,
    ensures
        cache_entries(&r) == Seq::<Cached>::empty(),
        cache_limit(&r) == limit,
{
    LruCache::new(core::num::NonZeroUsize::new(limit).unwrap())
}

/// `LruCache::put`. Believed of it: the entry becomes the most recent; an
/// old entry of the key is replaced; else, in a full cache, the entry used
/// least recently leaves.
#[verifier::external_body]
pub(crate) fn cache_put(c: &mut LruCache<String, String>, key: String, value: String)
    ensures
        cache_limit(final(c)) == cache_limit(old(c)),
        cache_entries(final(c)) == after_put(
            cache_entries(old(c)),
            cache_limit(old(c)),
            key@,
            value@,
        ),
{
    c.put(key, value);
}

/// `LruCache::get`. Believed of it: a key that is held gives its value and
/// becomes the most recent; a key that is not changes nothing.
#[verifier::external_body]
pub(crate) fn cache_get(c: &mut LruCache<String, String>, key: &str) -> (r: Option<String>)
    ensures
        cache_limit(final(c)) == cache_limit(old(c)),
        cache_entries(final(c)) == after_hit(cache_entries(old(c)), key@),
        match cached_value(cache_entries(old(c)), key@) {
            Some(v) => r is Some && r->Some_0@ == v,
            None => r is None,
        },
{
    c.get(key).cloned()
}

/// `LruCache::pop`. Believed of it: the entry of the key leaves, the others
/// stay as they stand.
#[verifier::external_body]
pub(crate) fn cache_pop(c: &mut LruCache<String, String>, key: &str)
    ensures
        cache_limit(final(c)) == cache_limit(old(c)),
        cache_entries(final(c)) == without_key(cache_entries(old(c)), key@),
{
    c.pop(key);
}

/// What stands in `without_key(s, key)` stands in `s` under another key.
pub proof fn lemma_without_key(s: Seq<Cached>, key: Seq<char>)
    ensures
        forall|i: int|
            0 <= i < without_key(s, key).len() ==> (#[trigger] without_key(s, key)[i]).0 != key
                && s.contains(without_key(s, key)[i]),
    decreases s.len(),
{
    if s.len() > 0 {
        let init = s.drop_last();
        lemma_without_key(init, key);
        let w = without_key(s, key);
        assert forall|i: int| 0 <= i < w.len() implies (#[trigger] w[i]).0 != key && s.contains(
            w[i],
        ) by {
            if i < without_key(init, key).len() {
                let x = without_key(init, key)[i];
                assert(init.contains(x));
                let j = choose|j: int| 0 <= j < init.len() && init[j] == x;
                assert(s[j] == x);
            } else {
                assert(s[s.len() - 1] == w[i]);
            }
        }
    }
}

/// The cached value of a key stands in the entries under that key.
pub proof fn lemma_cached_value(s: Seq<Cached>, key: Seq<char>)
    ensures
        0 <= cached_position(s, key) <= s.len(),
        cached_value(s, key) matches Some(v) ==> s.contains((key, v)),
        cached_value(s, key) is None ==> forall|i: int| 0 <= i < s.len() ==> (#[trigger] s[i]).0 != key,
    decreases s.len(),
{
    if s.len() == 0 {
    } else if s[0].0 == key {
        assert(s[0] == (key, s[0].1));
        assert(s.contains(s[0]));
    } else {
        let t = s.skip(1);
        lemma_cached_value(t, key);
        let p = cached_position(t, key);
        assert(cached_position(s, key) == p + 1);
        if p < t.len() {
            assert(t[p] == s[p + 1]);
            assert(cached_value(t, key) == Some(t[p].1));
            let v = t[p].1;
            let j = choose|j: int| 0 <= j < t.len() && t[j] == (key, v);
            assert(s[j + 1] == (key, v));
        } else {
            assert forall|i: int| 0 <= i < s.len() implies (#[trigger] s[i]).0 != key by {
                if i > 0 {
                    assert(t[i - 1] == s[i]);
                }
            }
        }
    }
}

/// Every entry after a put is the new one or an old one of another key.
pub proof fn lemma_after_put(s: Seq<Cached>, limit: nat, key: Seq<char>, value: Seq<char>)
    ensures
        forall|i: int|
            0 <= i < after_put(s, limit, key, value).len() ==> {
                let e = #[trigger] after_put(s, limit, key, value)[i];
                e == (key, value) || (e.0 != key && s.contains(e))
            },
{
    let r = after_put(s, limit, key, value);
    lemma_without_key(s, key);
    lemma_cached_value(s, key);
    assert forall|i: int| 0 <= i < r.len() implies {
        let e = #[trigger] r[i];
        e == (key, value) || (e.0 != key && s.contains(e))
    } by {
        if i > 0 {
            if cached_value(s, key) is Some {
                assert(r[i] == without_key(s, key)[i - 1]);
            } else {
                assert(r[i] == s[i - 1]);
                assert(s.contains(s[i - 1]));
            }
        }
    }
}

/// Every entry after a hit is an old one.
pub proof fn lemma_after_hit(s: Seq<Cached>, key: Seq<char>)
    ensures
        forall|i: int|
            0 <= i < after_hit(s, key).len() ==> s.contains(#[trigger] after_hit(s, key)[i]),
{
    let r = after_hit(s, key);
    lemma_without_key(s, key);
    lemma_cached_value(s, key);
    assert forall|i: int| 0 <= i < r.len() implies s.contains(#[trigger] r[i]) by {
        if cached_value(s, key) is Some {
            if i > 0 {
                assert(r[i] == without_key(s, key)[i - 1]);
            }
        } else {
            assert(s.contains(s[i]));
        }
    }
}

} // verus!
