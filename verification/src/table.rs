//! A small mapping from text keys to values, for the script registry.

use vstd::prelude::*;

use crate::json::text_equal;

verus! {

/// A mapping from text keys to values, in the order in which the keys came.
pub struct Table<V> {
    entries: Vec<(String, V)>,
}

/// No key stands twice.
pub open spec fn distinct_keys<V>(s: Seq<(Seq<char>, V)>) -> bool {
    forall|i: int, j: int| 0 <= i < j < s.len() ==> (#[trigger] s[i]).0 != (#[trigger] s[j]).0
}

/// Some pair has the key.
pub open spec fn pairs_have<V>(s: Seq<(Seq<char>, V)>, k: Seq<char>) -> bool {
    exists|i: int| 0 <= i < s.len() && (#[trigger] s[i]).0 == k
}

/// The mapping that a sequence of pairs stands for.
pub open spec fn pairs_map<V>(s: Seq<(Seq<char>, V)>) -> Map<Seq<char>, V> {
    Map::new(
        |k: Seq<char>| pairs_have(s, k),
        |k: Seq<char>| s[choose|i: int| 0 <= i < s.len() && (#[trigger] s[i]).0 == k].1,
    )
}

/// Where no key stands twice, each pair stands in the mapping.
pub proof fn lemma_pairs_map<V>(s: Seq<(Seq<char>, V)>)
    requires
        distinct_keys(s),
    ensures
        forall|i: int|
            0 <= i < s.len() ==> pairs_map(s).contains_key((#[trigger] s[i]).0) && pairs_map(
                s,
            )[s[i].0] == s[i].1,
{
    assert forall|i: int| 0 <= i < s.len() implies pairs_map(s).contains_key((#[trigger] s[i]).0)
        && pairs_map(s)[s[i].0] == s[i].1 by {
        let k = s[i].0;
        assert(pairs_have(s, k));
        let c = choose|c: int| 0 <= c < s.len() && (#[trigger] s[c]).0 == k;
        if c < i {
            assert(s[c].0 != s[i].0);
        } else if i < c {
            assert(s[i].0 != s[c].0);
        }
    }
}

impl<V> Table<V> {
    /// The pairs in the order in which they are held.
    pub closed spec fn pairs(&self) -> Seq<(Seq<char>, V)> {
        Seq::new(self.entries@.len(), |i: int| (self.entries@[i].0@, self.entries@[i].1))
    }

    /// No key stands twice.
    pub open spec fn wf(&self) -> bool {
        distinct_keys(self.pairs())
    }

    /// The table as a mapping.
    pub open spec fn view(&self) -> Map<Seq<char>, V> {
        pairs_map(self.pairs())
    }

    /// A table without keys.
    pub fn new() -> (r: Self)
        ensures
            r.wf(),
            r@ == Map::<Seq<char>, V>::empty(),
            r.pairs() == Seq::<(Seq<char>, V)>::empty(),
    {
        let r = Table { entries: Vec::new() };
        proof {
            assert(r.pairs() =~= Seq::<(Seq<char>, V)>::empty());
            assert(r@ =~= Map::<Seq<char>, V>::empty());
        }
        r
    }

    /// The number of keys.
    pub fn len(&self) -> (r: usize)
        ensures
            r == self.pairs().len(),
    {
        self.entries.len()
    }

    /// The key at position `i`.
    pub fn key_at(&self, i: usize) -> (r: &String)
        requires
            i < self.pairs().len(),
        ensures
            r@ == self.pairs()[i as int].0,
    {
        &self.entries[i].0
    }

    /// The value at position `i`.
    pub fn value_at(&self, i: usize) -> (r: &V)
        requires
            i < self.pairs().len(),
        ensures
            *r == self.pairs()[i as int].1,
    {
        &self.entries[i].1
    }

    fn locate(&self, key: &str) -> (r: usize)
        ensures
            r <= self.pairs().len(),
            r < self.pairs().len() ==> self.pairs()[r as int].0 == key@,
            r == self.pairs().len() ==> !pairs_have(self.pairs(), key@),
    {
        let mut i: usize = 0;
        let ghost s = self.pairs();
        while i < self.entries.len()
            invariant
                i <= self.entries.len(),
                s == self.pairs(),
                s.len() == self.entries@.len(),
                forall|j: int| 0 <= j < i ==> (#[trigger] s[j]).0 != key@,
            decreases self.entries.len() - i,
        {
            if text_equal(self.entries[i].0.as_str(), key) {
                proof {
                    assert(s[i as int].0 == key@);
                }
                return i;
            }
            proof {
                assert(s[i as int].0 != key@);
            }
            i += 1;
        }
        i
    }

    /// Whether the table holds `key`.
    pub fn contains(&self, key: &str) -> (r: bool)
        requires
            self.wf(),
        ensures
            r == self@.contains_key(key@),
    {
        let p = self.locate(key);
        p < self.entries.len()
    }

    /// The value of `key`.
    pub fn get(&self, key: &str) -> (r: Option<&V>)
        requires
            self.wf(),
        ensures
            match r {
                Some(v) => self@.contains_key(key@) && self@[key@] == *v,
                None => !self@.contains_key(key@),
            },
    {
        let p = self.locate(key);
        proof {
            lemma_pairs_map(self.pairs());
        }
        if p < self.entries.len() {
            Some(&self.entries[p].1)
        } else {
            None
        }
    }

    /// Binds `key` to `value`, in place of an old value of the key.
    pub fn insert(&mut self, key: &str, value: V)
        requires
            old(self).wf(),
        ensures
            final(self).wf(),
            final(self)@ == old(self)@.insert(key@, value),
    {
        let p = self.locate(key);
        let ghost s0 = self.pairs();
        let ghost k = key@;
        if p < self.entries.len() {
            self.entries.set(p, (key.to_owned(), value));
            proof {
                let s1 = self.pairs();
                assert(s1 =~= s0.update(p as int, (k, value)));
                assert(distinct_keys(s1)) by {
                    assert forall|i: int, j: int| 0 <= i < j < s1.len() implies (
                    #[trigger] s1[i]).0 != (#[trigger] s1[j]).0 by {
                        assert(s1[i].0 == s0[i].0 && s1[j].0 == s0[j].0);
                    }
                }
                lemma_pairs_map(s0);
                lemma_pairs_map(s1);
                assert forall|q: Seq<char>| pairs_have(s1, q) == (pairs_have(s0, q) || q == k) by {
                    if pairs_have(s1, q) {
                        let i = choose|i: int| 0 <= i < s1.len() && (#[trigger] s1[i]).0 == q;
                        assert(s0[i].0 == q);
                    }
                    if pairs_have(s0, q) {
                        let i = choose|i: int| 0 <= i < s0.len() && (#[trigger] s0[i]).0 == q;
                        assert(s1[i].0 == q);
                    }
                    if q == k {
                        assert(s1[p as int].0 == q);
                    }
                }
                assert forall|q: Seq<char>| pairs_have(s1, q) implies pairs_map(s1)[q] == pairs_map(
                    s0,
                ).insert(k, value)[q] by {
                    let i = choose|i: int| 0 <= i < s1.len() && (#[trigger] s1[i]).0 == q;
                    assert(pairs_map(s1)[s1[i].0] == s1[i].1);
                    if i != p {
                        assert(s0[i].0 == q);
                        assert(pairs_map(s0)[s0[i].0] == s0[i].1);
                        if i < p {
                            assert(s0[i].0 != s0[p as int].0);
                        } else {
                            assert(s0[p as int].0 != s0[i].0);
                        }
                    }
                }
                assert(pairs_map(s1) =~= pairs_map(s0).insert(k, value));
            }
        } else {
            self.entries.push((key.to_owned(), value));
            proof {
                let s1 = self.pairs();
                assert(s1 =~= s0.push((k, value)));
                assert(distinct_keys(s1)) by {
                    assert forall|i: int, j: int| 0 <= i < j < s1.len() implies (
                    #[trigger] s1[i]).0 != (#[trigger] s1[j]).0 by {
                        if j < s0.len() {
                            assert(s1[i] == s0[i] && s1[j] == s0[j]);
                        } else {
                            assert(s1[i] == s0[i]);
                            assert(pairs_have(s0, s0[i].0));
                        }
                    }
                }
                lemma_pairs_map(s0);
                lemma_pairs_map(s1);
                assert forall|q: Seq<char>| pairs_have(s1, q) == (pairs_have(s0, q) || q == k) by {
                    if pairs_have(s1, q) {
                        let i = choose|i: int| 0 <= i < s1.len() && (#[trigger] s1[i]).0 == q;
                        if i < s0.len() {
                            assert(s0[i].0 == q);
                        }
                    }
                    if pairs_have(s0, q) {
                        let i = choose|i: int| 0 <= i < s0.len() && (#[trigger] s0[i]).0 == q;
                        assert(s1[i].0 == q);
                    }
                    if q == k {
                        assert(s1[s0.len() as int].0 == q);
                    }
                }
                assert forall|q: Seq<char>| pairs_have(s1, q) implies pairs_map(s1)[q] == pairs_map(
                    s0,
                ).insert(k, value)[q] by {
                    let i = choose|i: int| 0 <= i < s1.len() && (#[trigger] s1[i]).0 == q;
                    assert(pairs_map(s1)[s1[i].0] == s1[i].1);
                    if i < s0.len() {
                        assert(s0[i].0 == q);
                        assert(pairs_map(s0)[s0[i].0] == s0[i].1);
                    }
                }
                assert(pairs_map(s1) =~= pairs_map(s0).insert(k, value));
            }
        }
    }

    /// Removes `key` and returns its value.
    pub fn remove(&mut self, key: &str) -> (r: Option<V>)
        requires
            old(self).wf(),
        ensures
            final(self).wf(),
            final(self)@ == old(self)@.remove(key@),
            match r {
                Some(v) => old(self)@.contains_key(key@) && old(self)@[key@] == v,
                None => !old(self)@.contains_key(key@),
            },
    {
        let p = self.locate(key);
        let ghost s0 = self.pairs();
        let ghost k = key@;
        if p >= self.entries.len() {
            proof {
                assert(self@ =~= self@.remove(k));
            }
            return None;
        }
        proof {
            lemma_pairs_map(s0);
        }
        let (_, value) = self.entries.remove(p);
        proof {
            let s1 = self.pairs();
            assert(s1 =~= s0.remove(p as int));
            assert(distinct_keys(s1)) by {
                assert forall|i: int, j: int| 0 <= i < j < s1.len() implies (#[trigger] s1[i]).0
                    != (#[trigger] s1[j]).0 by {
                    let a = if i < p { i } else { i + 1 };
                    let b = if j < p { j } else { j + 1 };
                    assert(s1[i] == s0[a] && s1[j] == s0[b]);
                }
            }
            lemma_pairs_map(s1);
            assert forall|q: Seq<char>| pairs_have(s1, q) == (pairs_have(s0, q) && q != k) by {
                if pairs_have(s1, q) {
                    let i = choose|i: int| 0 <= i < s1.len() && (#[trigger] s1[i]).0 == q;
                    let a = if i < p { i } else { i + 1 };
                    assert(s0[a].0 == q);
                    if a < p {
                        assert(s0[a].0 != s0[p as int].0);
                    } else {
                        assert(s0[p as int].0 != s0[a].0);
                    }
                }
                if pairs_have(s0, q) && q != k {
                    let i = choose|i: int| 0 <= i < s0.len() && (#[trigger] s0[i]).0 == q;
                    if i < p {
                        assert(s1[i].0 == q);
                    } else {
                        assert(s1[i - 1].0 == q);
                    }
                }
            }
            assert forall|q: Seq<char>| pairs_have(s1, q) implies pairs_map(s1)[q] == pairs_map(
                s0,
            )[q] by {
                let i = choose|i: int| 0 <= i < s1.len() && (#[trigger] s1[i]).0 == q;
                let a = if i < p { i } else { i + 1 };
                assert(pairs_map(s1)[s1[i].0] == s1[i].1);
                assert(s0[a].0 == q);
                assert(pairs_map(s0)[s0[a].0] == s0[a].1);
            }
            assert(pairs_map(s1) =~= pairs_map(s0).remove(k));
        }
        Some(value)
    }
}

} // verus!
