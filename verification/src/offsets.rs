//! The offset index: for each live key, the extent of its latest record in
//! the log. Keys are kept in lexicographic order of their bytes.

use vstd::prelude::*;

use crate::bytes::{bytes_equal, lemma_lex_total, lemma_lex_transitive, lex_lt, order_of, Order};

verus! {

/// Where a record stands in the log: the position of its first byte, and its
/// length with the terminating LF.
#[derive(Clone, Copy, Debug, PartialEq, Eq, Structural)]
pub struct Extent {
    pub offset: u64,
    pub len: usize,
}

/// An entry of the index: a key and the extent of its record.
pub struct IndexEntry {
    pub key: Vec<u8>,
    pub extent: Extent,
}

/// An entry of the index as a plain value.
pub struct Slot {
    pub key: Seq<u8>,
    pub extent: Extent,
}

/// The offset index.
pub struct OffsetIndex {
    entries: Vec<IndexEntry>,
}

/// Each key is smaller than all keys after it.
pub open spec fn strictly_sorted(s: Seq<Slot>) -> bool {
    forall|i: int, j: int| 0 <= i < j < s.len() ==> lex_lt(#[trigger] s[i].key, #[trigger] s[j].key)
}

/// Some slot has the key.
pub open spec fn slots_have(s: Seq<Slot>, k: Seq<u8>) -> bool {
    exists|i: int| 0 <= i < s.len() && #[trigger] s[i].key == k
}

/// The mapping that a sequence of slots stands for.
pub open spec fn slots_map(s: Seq<Slot>) -> Map<Seq<u8>, Extent> {
    Map::new(
        |k: Seq<u8>| slots_have(s, k),
        |k: Seq<u8>| s[choose|i: int| 0 <= i < s.len() && #[trigger] s[i].key == k].extent,
    )
}

/// In a sorted sequence each key stands once, with its own extent.
pub proof fn lemma_slots_map(s: Seq<Slot>)
    requires
        strictly_sorted(s),
    ensures
        forall|i: int|
            0 <= i < s.len() ==> slots_map(s).contains_key(#[trigger] s[i].key) && slots_map(
                s,
            )[s[i].key] == s[i].extent,
        forall|i: int, j: int| 0 <= i < j < s.len() ==> #[trigger] s[i].key != #[trigger] s[j].key,
{
    assert forall|i: int, j: int| 0 <= i < j < s.len() implies #[trigger] s[i].key
        != #[trigger] s[j].key by {
        lemma_lex_total(s[i].key, s[j].key);
    }
    assert forall|i: int| 0 <= i < s.len() implies slots_map(s).contains_key(#[trigger] s[i].key)
        && slots_map(s)[s[i].key] == s[i].extent by {
        let k = s[i].key;
        assert(slots_have(s, k));
        let c = choose|c: int| 0 <= c < s.len() && #[trigger] s[c].key == k;
        if c < i {
            assert(s[c].key != s[i].key);
        } else if i < c {
            assert(s[i].key != s[c].key);
        }
    }
}

/// Two sorted sequences of slots that stand for the same mapping agree
/// slot by slot up to the length of the shorter.
proof fn lemma_sorted_slots_agree(a: Seq<Slot>, b: Seq<Slot>, n: int)
    requires
        strictly_sorted(a),
        strictly_sorted(b),
        slots_map(a) == slots_map(b),
        0 <= n <= a.len(),
        n <= b.len(),
    ensures
        forall|i: int| 0 <= i < n ==> a[i] == b[i],
    decreases n,
{
    if n > 0 {
        lemma_sorted_slots_agree(a, b, n - 1);
        lemma_slots_map(a);
        lemma_slots_map(b);
        let i = n - 1;
        assert(slots_map(b).contains_key(a[i].key));
        assert(slots_have(b, a[i].key));
        let j = choose|j: int| 0 <= j < b.len() && #[trigger] b[j].key == a[i].key;
        assert(slots_map(a).contains_key(b[i].key));
        assert(slots_have(a, b[i].key));
        let g = choose|g: int| 0 <= g < a.len() && #[trigger] a[g].key == b[i].key;
        if j < i {
            assert(a[j] == b[j]);
            assert(a[j].key != a[i].key);
        }
        if g < i {
            assert(a[g] == b[g]);
            assert(b[g].key != b[i].key);
        }
        if j > i {
            assert(lex_lt(b[i].key, b[j].key));
            if g > i {
                assert(lex_lt(a[i].key, a[g].key));
                lemma_lex_total(a[i].key, b[i].key);
            } else {
                lemma_lex_total(a[i].key, a[i].key);
                lemma_lex_total(b[i].key, a[i].key);
            }
        }
        assert(j == i);
        assert(slots_map(a)[a[i].key] == a[i].extent);
        assert(slots_map(b)[b[i].key] == b[i].extent);
    }
}

/// There is one sorted sequence of slots for a mapping.
pub proof fn lemma_sorted_slots_unique(a: Seq<Slot>, b: Seq<Slot>)
    requires
        strictly_sorted(a),
        strictly_sorted(b),
        slots_map(a) == slots_map(b),
    ensures
        a == b,
{
    lemma_slots_map(a);
    lemma_slots_map(b);
    if a.len() <= b.len() {
        lemma_sorted_slots_agree(a, b, a.len() as int);
        if a.len() < b.len() {
            let k = b[a.len() as int].key;
            assert(slots_map(a).contains_key(k));
            assert(slots_have(a, k));
            let g = choose|g: int| 0 <= g < a.len() && #[trigger] a[g].key == k;
            assert(a[g] == b[g]);
            assert(b[g].key != b[a.len() as int].key);
        }
    } else {
        lemma_sorted_slots_agree(a, b, b.len() as int);
        let k = a[b.len() as int].key;
        assert(slots_map(b).contains_key(k));
        assert(slots_have(b, k));
        let g = choose|g: int| 0 <= g < b.len() && #[trigger] b[g].key == k;
        assert(a[g] == b[g]);
        assert(a[g].key != a[b.len() as int].key);
    }
    assert(a =~= b);
}

impl OffsetIndex {
    /// The entries in key order.
    pub closed spec fn slots(&self) -> Seq<Slot> {
        Seq::new(
            self.entries@.len(),
            |i: int| Slot { key: self.entries@[i].key@, extent: self.entries@[i].extent },
        )
    }

    /// The keys stand in strictly ascending order.
    pub open spec fn wf(&self) -> bool {
        strictly_sorted(self.slots())
    }

    /// The index as a mapping from key to extent.
    pub open spec fn view(&self) -> Map<Seq<u8>, Extent> {
        slots_map(self.slots())
    }

    /// An index without keys.
    pub fn new() -> (r: OffsetIndex)
        ensures
            r.wf(),
            r.slots() == Seq::<Slot>::empty(),
            r@ == Map::<Seq<u8>, Extent>::empty(),
    {
        let r = OffsetIndex { entries: Vec::new() };
        proof {
            assert(r.slots() =~= Seq::<Slot>::empty());
            assert(r@ =~= Map::<Seq<u8>, Extent>::empty());
        }
        r
    }

    /// The number of keys.
    pub fn len(&self) -> (r: usize)
        ensures
            r == self.slots().len(),
    {
        self.entries.len()
    }

    /// The key at position `i` in key order.
    pub fn key_at(&self, i: usize) -> (r: &Vec<u8>)
        requires
            i < self.slots().len(),
        ensures
            r@ == self.slots()[i as int].key,
    {
        &self.entries[i].key
    }

    /// The extent at position `i` in key order.
    pub fn extent_at(&self, i: usize) -> (r: Extent)
        requires
            i < self.slots().len(),
        ensures
            r == self.slots()[i as int].extent,
    {
        self.entries[i].extent
    }

    /// The position of `key`, or the position where it would be inserted.
    fn locate(&self, key: &[u8]) -> (r: (usize, bool))
        requires
            self.wf(),
        ensures
            r.0 <= self.slots().len(),
            r.1 ==> r.0 < self.slots().len() && self.slots()[r.0 as int].key == key@,
            !r.1 ==> !slots_have(self.slots(), key@),
            forall|i: int| 0 <= i < r.0 ==> lex_lt(#[trigger] self.slots()[i].key, key@),
            forall|i: int|
                r.0 <= i < self.slots().len() && !(r.1 && i == r.0) ==> lex_lt(
                    key@,
                    #[trigger] self.slots()[i].key,
                ),
    {
        let mut lo: usize = 0;
        let mut hi: usize = self.entries.len();
        let ghost s = self.slots();
        while lo < hi
            invariant
                lo <= hi <= s.len(),
                s == self.slots(),
                s.len() == self.entries@.len(),
                strictly_sorted(s),
                forall|i: int| 0 <= i < lo ==> lex_lt(#[trigger] s[i].key, key@),
                forall|i: int| hi <= i < s.len() ==> lex_lt(key@, #[trigger] s[i].key),
            decreases hi - lo,
        {
            let mid = lo + (hi - lo) / 2;
            assert(s[mid as int].key == self.entries@[mid as int].key@);
            match order_of(self.entries[mid].key.as_slice(), key) {
                Order::Before => {
                    proof {
                        assert forall|i: int| 0 <= i < mid + 1 implies lex_lt(
                            #[trigger] s[i].key,
                            key@,
                        ) by {
                            if i < mid {
                                lemma_lex_transitive(s[i].key, s[mid as int].key, key@);
                            }
                        }
                    }
                    lo = mid + 1;
                },
                Order::Same => {
                    proof {
                        assert forall|i: int| 0 <= i < mid implies lex_lt(
                            #[trigger] s[i].key,
                            key@,
                        ) by {}
                        assert forall|i: int| mid < i < s.len() implies lex_lt(
                            key@,
                            #[trigger] s[i].key,
                        ) by {}
                    }
                    return (mid, true);
                },
                Order::After => {
                    proof {
                        assert forall|i: int| mid <= i < s.len() implies lex_lt(
                            key@,
                            #[trigger] s[i].key,
                        ) by {
                            if mid < i {
                                lemma_lex_transitive(key@, s[mid as int].key, s[i].key);
                            }
                        }
                    }
                    hi = mid;
                },
            }
        }
        proof {
            if slots_have(s, key@) {
                let i = choose|i: int| 0 <= i < s.len() && #[trigger] s[i].key == key@;
                lemma_lex_total(s[i].key, key@);
            }
        }
        (lo, false)
    }

    /// The extent of `key`, if the index holds it.
    pub fn get(&self, key: &[u8]) -> (r: Option<Extent>)
        requires
            self.wf(),
        ensures
            r == if self@.contains_key(key@) {
                Some(self@[key@])
            } else {
                None
            },
    {
        let (pos, found) = self.locate(key);
        proof {
            lemma_slots_map(self.slots());
        }
        if found {
            Some(self.entries[pos].extent)
        } else {
            None
        }
    }

    /// Sets the extent of `key`, adding the key if it is new.
    pub fn insert(&mut self, key: Vec<u8>, extent: Extent)
        requires
            old(self).wf(),
        ensures
            final(self).wf(),
            final(self)@ == old(self)@.insert(key@, extent),
    {
        let (pos, found) = self.locate(key.as_slice());
        let ghost s0 = self.slots();
        let ghost k = key@;
        if found {
            self.entries.set(pos, IndexEntry { key, extent });
            proof {
                let s1 = self.slots();
                assert(s1 =~= s0.update(pos as int, Slot { key: k, extent }));
                assert(strictly_sorted(s1)) by {
                    assert forall|i: int, j: int| 0 <= i < j < s1.len() implies lex_lt(
                        #[trigger] s1[i].key,
                        #[trigger] s1[j].key,
                    ) by {
                        assert(s1[i].key == s0[i].key && s1[j].key == s0[j].key);
                    }
                }
                lemma_slots_map(s0);
                lemma_slots_map(s1);
                assert forall|q: Seq<u8>| slots_have(s1, q) == (slots_have(s0, q) || q == k) by {
                    if slots_have(s1, q) {
                        let i = choose|i: int| 0 <= i < s1.len() && #[trigger] s1[i].key == q;
                        assert(s0[i].key == q);
                    }
                    if slots_have(s0, q) {
                        let i = choose|i: int| 0 <= i < s0.len() && #[trigger] s0[i].key == q;
                        assert(s1[i].key == q);
                    }
                    if q == k {
                        assert(s1[pos as int].key == q);
                    }
                }
                assert forall|q: Seq<u8>| slots_have(s1, q) implies slots_map(s1)[q] == slots_map(
                    s0,
                ).insert(k, extent)[q] by {
                    let i = choose|i: int| 0 <= i < s1.len() && #[trigger] s1[i].key == q;
                    assert(slots_map(s1)[s1[i].key] == s1[i].extent);
                    if i != pos {
                        assert(s0[i].key == q);
                        assert(slots_map(s0)[s0[i].key] == s0[i].extent);
                        assert(s0[i].key != s0[pos as int].key);
                    }
                }
                assert(slots_map(s1) =~= slots_map(s0).insert(k, extent));
            }
        } else {
            self.entries.insert(pos, IndexEntry { key, extent });
            proof {
                let s1 = self.slots();
                assert(s1 =~= s0.insert(pos as int, Slot { key: k, extent }));
                assert(strictly_sorted(s1)) by {
                    assert forall|i: int, j: int| 0 <= i < j < s1.len() implies lex_lt(
                        #[trigger] s1[i].key,
                        #[trigger] s1[j].key,
                    ) by {
                        if j < pos {
                            assert(s1[i] == s0[i] && s1[j] == s0[j]);
                        } else if j == pos {
                            assert(s1[i] == s0[i]);
                        } else if i < pos {
                            assert(s1[i] == s0[i] && s1[j] == s0[j - 1]);
                        } else if i == pos {
                            assert(s1[j] == s0[j - 1]);
                        } else {
                            assert(s1[i] == s0[i - 1] && s1[j] == s0[j - 1]);
                        }
                    }
                }
                lemma_slots_map(s0);
                lemma_slots_map(s1);
                assert forall|q: Seq<u8>| slots_have(s1, q) == (slots_have(s0, q) || q == k) by {
                    if slots_have(s1, q) {
                        let i = choose|i: int| 0 <= i < s1.len() && #[trigger] s1[i].key == q;
                        if i < pos {
                            assert(s0[i].key == q);
                        } else if i > pos {
                            assert(s0[i - 1].key == q);
                        }
                    }
                    if slots_have(s0, q) {
                        let i = choose|i: int| 0 <= i < s0.len() && #[trigger] s0[i].key == q;
                        if i < pos {
                            assert(s1[i].key == q);
                        } else {
                            assert(s1[i + 1].key == q);
                        }
                    }
                    if q == k {
                        assert(s1[pos as int].key == q);
                    }
                }
                assert forall|q: Seq<u8>| slots_have(s1, q) implies slots_map(s1)[q] == slots_map(
                    s0,
                ).insert(k, extent)[q] by {
                    let i = choose|i: int| 0 <= i < s1.len() && #[trigger] s1[i].key == q;
                    assert(slots_map(s1)[s1[i].key] == s1[i].extent);
                    if i < pos {
                        assert(s0[i].key == q);
                        assert(slots_map(s0)[s0[i].key] == s0[i].extent);
                    } else if i > pos {
                        assert(s0[i - 1].key == q);
                        assert(slots_map(s0)[s0[i - 1].key] == s0[i - 1].extent);
                    }
                }
                assert(slots_map(s1) =~= slots_map(s0).insert(k, extent));
            }
        }
    }

    /// Removes `key`; says whether the index held it.
    pub fn remove(&mut self, key: &[u8]) -> (r: bool)
        requires
            old(self).wf(),
        ensures
            final(self).wf(),
            final(self)@ == old(self)@.remove(key@),
            r == old(self)@.contains_key(key@),
    {
        let (pos, found) = self.locate(key);
        let ghost s0 = self.slots();
        let ghost k = key@;
        if !found {
            proof {
                assert(self@ =~= self@.remove(k));
            }
            return false;
        }
        self.entries.remove(pos);
        proof {
            let s1 = self.slots();
            assert(s1 =~= s0.remove(pos as int));
            assert(strictly_sorted(s1)) by {
                assert forall|i: int, j: int| 0 <= i < j < s1.len() implies lex_lt(
                    #[trigger] s1[i].key,
                    #[trigger] s1[j].key,
                ) by {
                    let a = if i < pos { i } else { i + 1 };
                    let b = if j < pos { j } else { j + 1 };
                    assert(s1[i] == s0[a] && s1[j] == s0[b]);
                }
            }
            lemma_slots_map(s0);
            lemma_slots_map(s1);
            assert forall|q: Seq<u8>| slots_have(s1, q) == (slots_have(s0, q) && q != k) by {
                if slots_have(s1, q) {
                    let i = choose|i: int| 0 <= i < s1.len() && #[trigger] s1[i].key == q;
                    let a = if i < pos { i } else { i + 1 };
                    assert(s0[a].key == q);
                    assert(s0[a].key != s0[pos as int].key);
                }
                if slots_have(s0, q) && q != k {
                    let i = choose|i: int| 0 <= i < s0.len() && #[trigger] s0[i].key == q;
                    if i < pos {
                        assert(s1[i].key == q);
                    } else {
                        assert(s1[i - 1].key == q);
                    }
                }
            }
            assert forall|q: Seq<u8>| slots_have(s1, q) implies slots_map(s1)[q] == slots_map(
                s0,
            )[q] by {
                let i = choose|i: int| 0 <= i < s1.len() && #[trigger] s1[i].key == q;
                let a = if i < pos { i } else { i + 1 };
                assert(slots_map(s1)[s1[i].key] == s1[i].extent);
                assert(s0[a].key == q);
                assert(slots_map(s0)[s0[a].key] == s0[a].extent);
            }
            assert(slots_map(s1) =~= slots_map(s0).remove(k));
        }
        true
    }

    /// Whether two indexes hold the same entries.
    pub fn same_as(&self, other: &OffsetIndex) -> (r: bool)
        ensures
            r == (self.slots() == other.slots()),
    {
        if self.entries.len() != other.entries.len() {
            proof {
                assert(self.slots().len() != other.slots().len());
            }
            return false;
        }
        let mut i: usize = 0;
        while i < self.entries.len()
            invariant
                i <= self.entries.len(),
                self.entries.len() == other.entries.len(),
                forall|j: int| 0 <= j < i ==> self.slots()[j] == other.slots()[j],
            decreases self.entries.len() - i,
        {
            let a = &self.entries[i];
            let b = &other.entries[i];
            if !bytes_equal(a.key.as_slice(), b.key.as_slice()) || a.extent.offset
                != b.extent.offset || a.extent.len != b.extent.len {
                proof {
                    assert(self.slots()[i as int] != other.slots()[i as int]);
                }
                return false;
            }
            i += 1;
        }
        proof {
            assert(self.slots() =~= other.slots());
        }
        true
    }
}

} // verus!
