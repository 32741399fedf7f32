//! The secondary index: which keys hold a JSON object that binds a field to
//! a value.

use vstd::prelude::*;

use crate::json::{bound_pairs, index_pairs, json_doc_of, pairs_view, parse_doc, text_equal, texts_view};

verus! {

/// One entry of the index: `key` holds an object whose `field` is `value`.
pub struct Binding {
    pub field: String,
    pub value: String,
    pub key: String,
}

/// A binding as a plain value: field, value, key.
pub type Triple = (Seq<char>, Seq<char>, Seq<char>);

/// The inverted mapping from `(field, value)` to the keys bound to it. An
/// empty set of keys is not kept.
pub struct SecondaryIndex {
    bindings: Vec<Binding>,
}

/// The bindings of `key` to each of the pairs.
pub open spec fn bindings_of(key: Seq<char>, pairs: Seq<(Seq<char>, Seq<char>)>) -> Set<Triple> {
    Set::new(|t: Triple| t.2 == key && pairs.contains((t.0, t.1)))
}

/// The pairs that a stored text binds; no text binds none.
pub open spec fn text_pairs(text: Option<Seq<char>>) -> Seq<(Seq<char>, Seq<char>)> {
    match text {
        Some(t) => bound_pairs(json_doc_of(t)),
        None => Seq::empty(),
    }
}

/// The keys bound to `(field, value)`.
pub open spec fn keys_bound(s: Set<Triple>, field: Seq<char>, value: Seq<char>) -> Set<Seq<char>> {
    Set::new(|k: Seq<char>| s.contains((field, value, k)))
}

/// The text of an optional string slice.
pub open spec fn opt_text(s: Option<&str>) -> Option<Seq<char>> {
    match s {
        Some(t) => Some(t@),
        None => None,
    }
}

/// One more pair binds one more triple.
pub proof fn lemma_bindings_push(
    key: Seq<char>,
    pairs: Seq<(Seq<char>, Seq<char>)>,
    p: (Seq<char>, Seq<char>),
)
    ensures
        bindings_of(key, pairs.push(p)) == bindings_of(key, pairs).insert((p.0, p.1, key)),
{
    let a = bindings_of(key, pairs.push(p));
    let b = bindings_of(key, pairs).insert((p.0, p.1, key));
    assert forall|t: Triple| a.contains(t) == b.contains(t) by {
        if a.contains(t) {
            let i = choose|i: int| 0 <= i < pairs.push(p).len() && pairs.push(p)[i] == (t.0, t.1);
            if i < pairs.len() {
                assert(pairs[i] == (t.0, t.1));
            }
        }
        if b.contains(t) {
            if t == (p.0, p.1, key) {
                assert(pairs.push(p)[pairs.len() as int] == (t.0, t.1));
            } else {
                let i = choose|i: int| 0 <= i < pairs.len() && pairs[i] == (t.0, t.1);
                assert(pairs.push(p)[i] == (t.0, t.1));
            }
        }
    }
    assert(a =~= b);
}

impl SecondaryIndex {
    /// The bindings in the order in which they are held.
    pub closed spec fn triples(&self) -> Seq<Triple> {
        Seq::new(
            self.bindings@.len(),
            |i: int| (self.bindings@[i].field@, self.bindings@[i].value@, self.bindings@[i].key@),
        )
    }

    /// The index as a set of bindings.
    pub open spec fn view(&self) -> Set<Triple> {
        self.triples().to_set()
    }

    /// No binding is held twice.
    pub open spec fn wf(&self) -> bool {
        self.triples().no_duplicates()
    }

    /// An index without bindings.
    pub fn new() -> (r: Self)
        ensures
            r.wf(),
            r@ == Set::<Triple>::empty(),
    {
        let r = SecondaryIndex { bindings: Vec::new() };
        proof {
            assert(r.triples() =~= Seq::<Triple>::empty());
            assert(r@ =~= Set::<Triple>::empty());
        }
        r
    }

    /// Forgets every binding.
    pub fn clear(&mut self)
        ensures
            final(self).wf(),
            final(self)@ == Set::<Triple>::empty(),
    {
        self.bindings.clear();
        proof {
            assert(self.triples() =~= Seq::<Triple>::empty());
            assert(self@ =~= Set::<Triple>::empty());
        }
    }

    /// The number of bindings.
    pub fn len(&self) -> (r: usize)
        ensures
            r == self.triples().len(),
    {
        self.bindings.len()
    }

    /// The binding at position `i`: field, value, key.
    pub fn binding_at(&self, i: usize) -> (r: (&String, &String, &String))
        requires
            i < self.triples().len(),
        ensures
            (r.0@, r.1@, r.2@) == self.triples()[i as int],
    {
        (&self.bindings[i].field, &self.bindings[i].value, &self.bindings[i].key)
    }

    fn position(&self, field: &str, value: &str, key: &str) -> (r: usize)
        ensures
            r <= self.triples().len(),
            r < self.triples().len() ==> self.triples()[r as int] == (field@, value@, key@),
            r == self.triples().len() ==> !self.triples().contains((field@, value@, key@)),
    {
        let mut i: usize = 0;
        let ghost ts = self.triples();
        while i < self.bindings.len()
            invariant
                i <= self.bindings.len(),
                ts == self.triples(),
                ts.len() == self.bindings@.len(),
                forall|j: int| 0 <= j < i ==> ts[j] != (field@, value@, key@),
            decreases self.bindings.len() - i,
        {
            let b = &self.bindings[i];
            if text_equal(b.key.as_str(), key) && text_equal(b.field.as_str(), field) && text_equal(
                b.value.as_str(),
                value,
            ) {
                proof {
                    assert(ts[i as int] == (field@, value@, key@));
                }
                return i;
            }
            proof {
                assert(ts[i as int] != (field@, value@, key@));
            }
            i += 1;
        }
        i
    }

    /// Adds one binding.
    pub fn bind(&mut self, field: &str, value: &str, key: &str)
        requires
            old(self).wf(),
        ensures
            final(self).wf(),
            final(self)@ == old(self)@.insert((field@, value@, key@)),
    {
        let p = self.position(field, value, key);
        let ghost ts = self.triples();
        let ghost t = (field@, value@, key@);
        if p < self.bindings.len() {
            proof {
                assert(ts.contains(ts[p as int]));
                assert(self@ =~= self@.insert(t));
            }
            return ;
        }
        self.bindings.push(
            Binding { field: field.to_owned(), value: value.to_owned(), key: key.to_owned() },
        );
        proof {
            let ts1 = self.triples();
            assert(ts1 =~= ts.push(t));
            assert forall|x: Triple| ts1.contains(x) == (ts.contains(x) || x == t) by {
                if ts1.contains(x) {
                    let i = choose|i: int| 0 <= i < ts1.len() && ts1[i] == x;
                    if i < ts.len() {
                        assert(ts[i] == x);
                    }
                }
                if ts.contains(x) {
                    let i = choose|i: int| 0 <= i < ts.len() && ts[i] == x;
                    assert(ts1[i] == x);
                }
                if x == t {
                    assert(ts1[ts.len() as int] == x);
                }
            }
            assert(self@ =~= old(self)@.insert(t));
            assert forall|i: int, j: int| 0 <= i < ts1.len() && 0 <= j < ts1.len() && i != j implies ts1[i] != ts1[j] by {
                if i < ts.len() && j < ts.len() {
                } else if i < ts.len() {
                    assert(ts.contains(ts[i]));
                } else {
                    assert(ts.contains(ts[j]));
                }
            }
        }
    }

    /// Removes one binding.
    pub fn unbind(&mut self, field: &str, value: &str, key: &str)
        requires
            old(self).wf(),
        ensures
            final(self).wf(),
            final(self)@ == old(self)@.remove((field@, value@, key@)),
    {
        let p = self.position(field, value, key);
        let ghost ts = self.triples();
        let ghost t = (field@, value@, key@);
        if p >= self.bindings.len() {
            proof {
                assert(self@ =~= self@.remove(t));
            }
            return ;
        }
        self.bindings.remove(p);
        proof {
            let ts1 = self.triples();
            assert(ts1 =~= ts.remove(p as int));
            assert forall|x: Triple| ts1.contains(x) == (ts.contains(x) && x != t) by {
                if ts1.contains(x) {
                    let i = choose|i: int| 0 <= i < ts1.len() && ts1[i] == x;
                    let a = if i < p { i } else { i + 1 };
                    assert(ts[a] == x);
                }
                if ts.contains(x) && x != t {
                    let i = choose|i: int| 0 <= i < ts.len() && ts[i] == x;
                    if i < p {
                        assert(ts1[i] == x);
                    } else {
                        assert(ts1[i - 1] == x);
                    }
                }
            }
            assert(self@ =~= old(self)@.remove(t));
            assert forall|i: int, j: int| 0 <= i < ts1.len() && 0 <= j < ts1.len() && i != j implies ts1[i] != ts1[j] by {
                let a = if i < p { i } else { i + 1 };
                let b = if j < p { j } else { j + 1 };
                assert(ts1[i] == ts[a] && ts1[j] == ts[b]);
            }
        }
    }

    /// Takes the bindings of `key` to the old pairs out and puts its
    /// bindings to the new pairs in.
    pub fn rebind(
        &mut self,
        key: &str,
        old_pairs: &Vec<(String, String)>,
        new_pairs: &Vec<(String, String)>,
    )
        requires
            old(self).wf(),
        ensures
            final(self).wf(),
            final(self)@ == old(self)@.difference(bindings_of(key@, pairs_view(old_pairs@))).union(
                bindings_of(key@, pairs_view(new_pairs@)),
            ),
    {
        let ghost s0 = self@;
        let ghost op = pairs_view(old_pairs@);
        let ghost np = pairs_view(new_pairs@);
        let mut i: usize = 0;
        proof {
            assert(bindings_of(key@, op.take(0)) =~= Set::<Triple>::empty());
            assert(s0.difference(Set::<Triple>::empty()) =~= s0);
        }
        while i < old_pairs.len()
            invariant
                i <= old_pairs.len(),
                op == pairs_view(old_pairs@),
                self.wf(),
                self@ == s0.difference(bindings_of(key@, op.take(i as int))),
            decreases old_pairs.len() - i,
        {
            let ghost cur = self@;
            self.unbind(old_pairs[i].0.as_str(), old_pairs[i].1.as_str(), key);
            proof {
                assert(op.take(i + 1) =~= op.take(i as int).push(op[i as int]));
                lemma_bindings_push(key@, op.take(i as int), op[i as int]);
                let t = (op[i as int].0, op[i as int].1, key@);
                assert(cur.remove(t) =~= s0.difference(bindings_of(key@, op.take(i + 1))));
            }
            i += 1;
        }
        proof {
            assert(op.take(i as int) =~= op);
        }
        let ghost s1 = self@;
        let mut j: usize = 0;
        proof {
            assert(bindings_of(key@, np.take(0)) =~= Set::<Triple>::empty());
            assert(s1.union(Set::<Triple>::empty()) =~= s1);
        }
        while j < new_pairs.len()
            invariant
                j <= new_pairs.len(),
                np == pairs_view(new_pairs@),
                self.wf(),
                self@ == s1.union(bindings_of(key@, np.take(j as int))),
            decreases new_pairs.len() - j,
        {
            let ghost cur = self@;
            self.bind(new_pairs[j].0.as_str(), new_pairs[j].1.as_str(), key);
            proof {
                assert(np.take(j + 1) =~= np.take(j as int).push(np[j as int]));
                lemma_bindings_push(key@, np.take(j as int), np[j as int]);
                let t = (np[j as int].0, np[j as int].1, key@);
                assert(cur.insert(t) =~= s1.union(bindings_of(key@, np.take(j + 1))));
            }
            j += 1;
        }
        proof {
            assert(np.take(j as int) =~= np);
        }
    }

    /// Follows a write of `key`: the pairs that the old text bound are taken
    /// out, those that the new text binds are put in. A text that is no JSON
    /// object binds nothing.
    pub fn update(&mut self, key: &str, old_json: Option<&str>, new_json: Option<&str>)
        requires
            old(self).wf(),
        ensures
            final(self).wf(),
            final(self)@ == old(self)@.difference(
                bindings_of(key@, text_pairs(opt_text(old_json))),
            ).union(bindings_of(key@, text_pairs(opt_text(new_json)))),
    {
        let old_pairs = match old_json {
            Some(s) => index_pairs(&parse_doc(s)),
            None => {
                let v: Vec<(String, String)> = Vec::new();
                proof {
                    assert(pairs_view(v@) =~= Seq::<(Seq<char>, Seq<char>)>::empty());
                }
                v
            },
        };
        let new_pairs = match new_json {
            Some(s) => index_pairs(&parse_doc(s)),
            None => {
                let v: Vec<(String, String)> = Vec::new();
                proof {
                    assert(pairs_view(v@) =~= Seq::<(Seq<char>, Seq<char>)>::empty());
                }
                v
            },
        };
        self.rebind(key, &old_pairs, &new_pairs);
    }

    /// Follows a delete of `key`: the pairs that its text bound are taken out.
    pub fn remove(&mut self, key: &str, old_json: Option<&str>)
        requires
            old(self).wf(),
        ensures
            final(self).wf(),
            final(self)@ == old(self)@.difference(
                bindings_of(key@, text_pairs(opt_text(old_json))),
            ),
    {
        self.update(key, old_json, None);
        proof {
            assert(bindings_of(key@, text_pairs(None)) =~= Set::<Triple>::empty());
            assert(self@ =~= old(self)@.difference(
                bindings_of(key@, text_pairs(opt_text(old_json))),
            ));
        }
    }

    /// The keys bound to `(field, value)`, each once, in no particular order.
    pub fn find(&self, field: &str, value: &str) -> (r: Vec<String>)
        requires
            self.wf(),
        ensures
            texts_view(r@).to_set() == keys_bound(self@, field@, value@),
            texts_view(r@).no_duplicates(),
    {
        let mut out: Vec<String> = Vec::new();
        let mut i: usize = 0;
        let ghost ts = self.triples();
        let ghost f = field@;
        let ghost v = value@;
        let ghost mut src: Seq<int> = Seq::empty();
        while i < self.bindings.len()
            invariant
                i <= self.bindings.len(),
                ts == self.triples(),
                ts.len() == self.bindings@.len(),
                ts.no_duplicates(),
                f == field@,
                v == value@,
                src.len() == out@.len(),
                forall|a: int|
                    0 <= a < src.len() ==> 0 <= #[trigger] src[a] < i && ts[src[a]] == (
                        f,
                        v,
                        out@[a]@,
                    ),
                forall|a: int, b: int| 0 <= a < b < src.len() ==> src[a] < src[b],
                forall|j: int|
                    0 <= j < i && (#[trigger] ts[j]).0 == f && ts[j].1 == v ==> exists|a: int|
                        0 <= a < src.len() && #[trigger] src[a] == j,
            decreases self.bindings.len() - i,
        {
            let b = &self.bindings[i];
            let ghost old_out = out@;
            let ghost old_src = src;
            proof {
                assert(ts[i as int] == (b.field@, b.value@, b.key@));
            }
            let hit = text_equal(b.field.as_str(), field) && text_equal(b.value.as_str(), value);
            if hit {
                let k = b.key.clone();
                proof {
                    assert(k@ == b.key@);
                }
                out.push(k);
                proof {
                    src = old_src.push(i as int);
                    assert(out@.len() == old_out.len() + 1);
                    assert(out@[old_out.len() as int]@ == b.key@);
                    assert forall|a: int| 0 <= a < src.len() implies 0 <= #[trigger] src[a] < i + 1
                        && ts[src[a]] == (f, v, out@[a]@) by {
                        if a < old_src.len() {
                            assert(src[a] == old_src[a]);
                            assert(out@[a] == old_out[a]);
                            assert(0 <= old_src[a] < i);
                            assert(ts[old_src[a]] == (f, v, old_out[a]@));
                        } else {
                            assert(src[a] == i);
                            assert(b.field@ == f);
                            assert(b.value@ == v);
                            assert(out@[a]@ == b.key@);
                        }
                    }
                    assert forall|a: int, c: int| 0 <= a < c < src.len() implies src[a] < src[c] by {
                        if c < old_src.len() {
                            assert(src[a] == old_src[a] && src[c] == old_src[c]);
                        } else {
                            assert(src[a] == old_src[a]);
                        }
                    }
                }
            }
            proof {
                assert forall|j: int|
                    0 <= j < i + 1 && (#[trigger] ts[j]).0 == f && ts[j].1 == v implies exists|
                    a: int,
                | 0 <= a < src.len() && #[trigger] src[a] == j by {
                    if j < i {
                        let a = choose|a: int| 0 <= a < old_src.len() && #[trigger] old_src[a] == j;
                        assert(src[a] == j);
                    } else {
                        assert(hit);
                        assert(src[old_src.len() as int] == j);
                    }
                }
            }
            i += 1;
        }
        proof {
            let keys = texts_view(out@);
            assert forall|a: int, b: int| 0 <= a < keys.len() && 0 <= b < keys.len() && a != b implies keys[a] != keys[b] by {
                if keys[a] == keys[b] {
                    assert(ts[src[a]] == ts[src[b]]);
                    if a < b {
                        assert(src[a] < src[b]);
                    } else {
                        assert(src[b] < src[a]);
                    }
                }
            }
            assert forall|k: Seq<char>| keys.to_set().contains(k) == keys_bound(
                self@,
                f,
                v,
            ).contains(k) by {
                if keys.contains(k) {
                    let a = choose|a: int| 0 <= a < keys.len() && keys[a] == k;
                    assert(ts[src[a]] == (f, v, k));
                    assert(ts.contains((f, v, k)));
                }
                if ts.contains((f, v, k)) {
                    let j = choose|j: int| 0 <= j < ts.len() && ts[j] == (f, v, k);
                    assert(ts[j].0 == f && ts[j].1 == v);
                    let a = choose|a: int| 0 <= a < src.len() && #[trigger] src[a] == j;
                    assert(keys[a] == k);
                }
            }
            assert(keys.to_set() =~= keys_bound(self@, f, v));
        }
        out
    }
}

} // verus!
