//! The script registry: what is known of each registered script, by the
//! SHA-1 of its source, and the names that stand for scripts.

use sha1::Digest;
use vstd::prelude::*;
use vstd::utf8::encode_utf8;

use crate::table::Table;
use crate::types::{Error, ScriptMeta};

verus! {

/// The SHA-1 digest of `data`.
pub uninterp spec fn sha1_of(data: Seq<u8>) -> Seq<u8>;

/// The lowercase hexadecimal digit of a number below 16.
pub open spec fn hex_digit(n: int) -> char {
    if n < 10 {
        ((48 + n) as u8) as char
    } else {
        ((87 + n) as u8) as char
    }
}

/// The bytes written as lowercase hexadecimal digits, two for each byte.
pub open spec fn hex_text(data: Seq<u8>) -> Seq<char> {
    Seq::new(
        2 * data.len(),
        |i: int|
            if i % 2 == 0 {
                hex_digit(data[i / 2] as int / 16)
            } else {
                hex_digit(data[i / 2] as int % 16)
            },
    )
}

/// `sha1::Sha1::digest`. Believed of it: the result depends on the data
/// alone and has 20 bytes.
#[verifier::external_body]
pub(crate) fn sha1_digest(data: &[u8]) -> (r: Vec<u8>)
    ensures
        r@ == sha1_of(data@),
        r@.len() == 20,
{
    sha1::Sha1::digest(data).to_vec()
}

/// `hex::encode`. Believed of it: each byte is written as two lowercase
/// hexadecimal digits, in order.
#[verifier::external_body]
pub(crate) fn hex_encode(data: &[u8]) -> (r: String)
    ensures
        r@ == hex_text(data@),
{
    hex::encode(data)
}

/// The name under which the source of a script is registered.
pub open spec fn sha_of_source(src: Seq<char>) -> Seq<char> {
    hex_text(sha1_of(encode_utf8(src)))
}

/// The SHA-1 of the source of a script, in hexadecimal.
pub fn script_sha(src: &str) -> (r: String)
    ensures
        r@ == sha_of_source(src@),
        r@.len() == 40,
{
    let digest = sha1_digest(src.as_bytes());
    hex_encode(digest.as_slice())
}

/// What is known of a script, as a plain value.
pub struct MetaView {
    pub name: Seq<char>,
    pub sha1: Seq<char>,
    pub desc: Option<Seq<char>>,
}

/// What is known of a script, as a plain value.
pub open spec fn meta_view(m: ScriptMeta) -> MetaView {
    MetaView {
        name: m.name@,
        sha1: m.sha1@,
        desc: match m.desc {
            Some(d) => Some(d@),
            None => None,
        },
    }
}

/// The text of an optional string slice.
pub open spec fn opt_chars(s: Option<&str>) -> Option<Seq<char>> {
    match s {
        Some(t) => Some(t@),
        None => None,
    }
}

/// The views of the entries of a listing.
pub open spec fn metas_view(v: Seq<ScriptMeta>) -> Seq<MetaView> {
    Seq::new(v.len(), |i: int| meta_view(v[i]))
}

fn copy_meta(m: &ScriptMeta) -> (r: ScriptMeta)
    ensures
        meta_view(r) == meta_view(*m),
{
    ScriptMeta {
        name: m.name.clone(),
        sha1: m.sha1.clone(),
        desc: match &m.desc {
            Some(d) => Some(d.clone()),
            None => None,
        },
    }
}

/// The registry of scripts.
pub struct ScriptManager {
    metas: Table<ScriptMeta>,
    names: Table<String>,
}

impl ScriptManager {
    /// What is known of each script, by its SHA-1.
    pub closed spec fn script_meta(&self) -> Map<Seq<char>, MetaView> {
        Map::new(
            |k: Seq<char>| self.metas@.contains_key(k),
            |k: Seq<char>| meta_view(self.metas@[k]),
        )
    }

    /// The SHA-1 that each name stands for.
    pub closed spec fn script_names(&self) -> Map<Seq<char>, Seq<char>> {
        Map::new(|k: Seq<char>| self.names@.contains_key(k), |k: Seq<char>| self.names@[k]@)
    }

    /// What is known of each script, in the order of registration.
    pub closed spec fn listing(&self) -> Seq<MetaView> {
        Seq::new(self.metas.pairs().len(), |i: int| meta_view(self.metas.pairs()[i].1))
    }

    /// Every script is filed under its own SHA-1.
    pub closed spec fn wf(&self) -> bool {
        &&& self.metas.wf()
        &&& self.names.wf()
        &&& forall|k: Seq<char>| #[trigger]
            self.metas@.contains_key(k) ==> self.metas@[k].sha1@ == k
    }

    /// A registry without scripts.
    pub fn new() -> (r: Self)
        ensures
            r.wf(),
            r.script_meta() == Map::<Seq<char>, MetaView>::empty(),
            r.script_names() == Map::<Seq<char>, Seq<char>>::empty(),
    {
        let r = ScriptManager { metas: Table::new(), names: Table::new() };
        proof {
            assert(r.script_meta() =~= Map::<Seq<char>, MetaView>::empty());
            assert(r.script_names() =~= Map::<Seq<char>, Seq<char>>::empty());
        }
        r
    }

    /// Registers the source of a script and returns its SHA-1. What is
    /// known of the script is replaced; a name, if one is given, stands for
    /// the script from now on, else the SHA-1 serves as its name.
    pub fn eval_register(&mut self, src: &str, name: Option<&str>, desc: Option<&str>) -> (r:
        Result<String, Error>)
        requires
            old(self).wf(),
        ensures
            final(self).wf(),
            r is Ok,
            r->Ok_0@ == sha_of_source(src@),
            final(self).script_meta() == old(self).script_meta().insert(
                sha_of_source(src@),
                MetaView {
                    name: match name {
                        Some(n) => n@,
                        None => sha_of_source(src@),
                    },
                    sha1: sha_of_source(src@),
                    desc: opt_chars(desc),
                },
            ),
            final(self).script_names() == match name {
                Some(n) => old(self).script_names().insert(n@, sha_of_source(src@)),
                None => old(self).script_names(),
            },
    {
        let sha = script_sha(src);
        let meta = ScriptMeta {
            name: match name {
                Some(n) => n.to_owned(),
                None => sha.clone(),
            },
            sha1: sha.clone(),
            desc: match desc {
                Some(d) => Some(d.to_owned()),
                None => None,
            },
        };
        let ghost mv = meta_view(meta);
        self.metas.insert(sha.as_str(), meta);
        match name {
            Some(n) => {
                self.names.insert(n, sha.clone());
            },
            None => {},
        }
        proof {
            assert(self.script_meta() =~= old(self).script_meta().insert(sha@, mv));
            match name {
                Some(n) => {
                    assert(self.script_names() =~= old(self).script_names().insert(n@, sha@));
                },
                None => {
                    assert(self.script_names() =~= old(self).script_names());
                },
            }
        }
        Ok(sha)
    }

    /// Which script to run for `name_or_sha`: the SHA-1 itself if it is
    /// registered, else the SHA-1 that the name stands for; `NotFound` if it
    /// is neither. Running the script is left to the caller.
    pub fn eval_by_name_or_sha(&self, name_or_sha: &str) -> (r: Result<String, Error>)
        requires
            self.wf(),
        ensures
            match r {
                Ok(sha) => sha@ == if self.script_meta().contains_key(name_or_sha@) {
                    name_or_sha@
                } else {
                    self.script_names()[name_or_sha@]
                },
                Err(e) => e == Error::NotFound,
            },
            r is Ok <==> self.script_meta().contains_key(name_or_sha@)
                || self.script_names().contains_key(name_or_sha@),
    {
        if self.metas.contains(name_or_sha) {
            return Ok(name_or_sha.to_owned());
        }
        match self.names.get(name_or_sha) {
            Some(sha) => Ok(sha.clone()),
            None => Err(Error::NotFound),
        }
    }

    /// Which script to run for this SHA-1: what is known of it, or
    /// `NotFound`. Running the script is left to the caller.
    pub fn eval_sha(&self, sha: &str) -> (r: Result<ScriptMeta, Error>)
        requires
            self.wf(),
        ensures
            match r {
                Ok(m) => self.script_meta().contains_key(sha@) && meta_view(m)
                    == self.script_meta()[sha@],
                Err(e) => e == Error::NotFound && !self.script_meta().contains_key(sha@),
            },
    {
        match self.metas.get(sha) {
            Some(m) => Ok(copy_meta(m)),
            None => Err(Error::NotFound),
        }
    }

    /// What is known of each script, in the order of registration.
    pub fn list_scripts(&self) -> (r: Vec<ScriptMeta>)
        ensures
            metas_view(r@) == self.listing(),
    {
        let mut out: Vec<ScriptMeta> = Vec::new();
        let mut i: usize = 0;
        while i < self.metas.len()
            invariant
                i <= self.metas.pairs().len(),
                out@.len() == i,
                forall|j: int|
                    0 <= j < i ==> meta_view(#[trigger] out@[j]) == meta_view(
                        self.metas.pairs()[j].1,
                    ),
            decreases self.metas.pairs().len() - i,
        {
            out.push(copy_meta(self.metas.value_at(i)));
            i += 1;
        }
        proof {
            assert(metas_view(out@) =~= self.listing());
        }
        out
    }

    /// The listing holds each registered script once, as it is known.
    pub proof fn law_listing(&self)
        requires
            self.wf(),
        ensures
            forall|i: int|
                0 <= i < self.listing().len() ==> self.script_meta().contains_key(
                    (#[trigger] self.listing()[i]).sha1,
                ) && self.script_meta()[self.listing()[i].sha1] == self.listing()[i],
            forall|i: int, j: int|
                0 <= i < j < self.listing().len() ==> (#[trigger] self.listing()[i]).sha1 != (
                #[trigger] self.listing()[j]).sha1,
            forall|sha: Seq<char>| #[trigger]
                self.script_meta().contains_key(sha) ==> exists|i: int|
                    0 <= i < self.listing().len() && (#[trigger] self.listing()[i]).sha1 == sha,
    {
        let pairs = self.metas.pairs();
        crate::table::lemma_pairs_map(pairs);
        assert forall|i: int| 0 <= i < pairs.len() implies (#[trigger] pairs[i]).1.sha1@
            == pairs[i].0 by {
            assert(self.metas@.contains_key(pairs[i].0));
        }
        assert forall|i: int| 0 <= i < self.listing().len() implies self.script_meta().contains_key(
            (#[trigger] self.listing()[i]).sha1,
        ) && self.script_meta()[self.listing()[i].sha1] == self.listing()[i] by {
            assert(pairs[i].1.sha1@ == pairs[i].0);
        }
        assert forall|i: int, j: int| 0 <= i < j < self.listing().len() implies (
        #[trigger] self.listing()[i]).sha1 != (#[trigger] self.listing()[j]).sha1 by {
            assert(pairs[i].1.sha1@ == pairs[i].0);
            assert(pairs[j].1.sha1@ == pairs[j].0);
        }
        assert forall|sha: Seq<char>| #[trigger]
            self.script_meta().contains_key(sha) implies exists|i: int|
            0 <= i < self.listing().len() && (#[trigger] self.listing()[i]).sha1 == sha by {
            assert(crate::table::pairs_have(pairs, sha));
            let i = choose|i: int| 0 <= i < pairs.len() && (#[trigger] pairs[i]).0 == sha;
            assert(pairs[i].1.sha1@ == pairs[i].0);
            assert(self.listing()[i].sha1 == sha);
        }
    }

    /// Gives the script that `old_name` stands for the name `new_name`
    /// instead; `NotFound` if `old_name` stands for none.
    pub fn rename_script(&mut self, old_name: &str, new_name: &str) -> (r: Result<(), Error>)
        requires
            old(self).wf(),
        ensures
            final(self).wf(),
            if old(self).script_names().contains_key(old_name@) {
                let sha = old(self).script_names()[old_name@];
                &&& r is Ok
                &&& final(self).script_names() == old(self).script_names().remove(
                    old_name@,
                ).insert(new_name@, sha)
                &&& final(self).script_meta() == if old(self).script_meta().contains_key(sha) {
                    old(self).script_meta().insert(
                        sha,
                        MetaView {
                            name: new_name@,
                            sha1: sha,
                            desc: old(self).script_meta()[sha].desc,
                        },
                    )
                } else {
                    old(self).script_meta()
                }
            } else {
                &&& r == Err::<(), Error>(Error::NotFound)
                &&& final(self).script_names() == old(self).script_names()
                &&& final(self).script_meta() == old(self).script_meta()
            },
    {
        let sha = match self.names.remove(old_name) {
            Some(s) => s,
            None => {
                proof {
                    assert(self.script_names() =~= old(self).script_names());
                }
                return Err(Error::NotFound);
            },
        };
        self.names.insert(new_name, sha.clone());
        proof {
            assert(self.script_names() =~= old(self).script_names().remove(old_name@).insert(
                new_name@,
                sha@,
            ));
        }
        let renamed = match self.metas.get(sha.as_str()) {
            Some(m) => Some(
                ScriptMeta {
                    name: new_name.to_owned(),
                    sha1: m.sha1.clone(),
                    desc: match &m.desc {
                        Some(d) => Some(d.clone()),
                        None => None,
                    },
                },
            ),
            None => None,
        };
        match renamed {
            Some(m) => {
                let ghost mv = meta_view(m);
                self.metas.insert(sha.as_str(), m);
                proof {
                    assert(self.script_meta() =~= old(self).script_meta().insert(sha@, mv));
                }
            },
            None => {
                proof {
                    assert(self.script_meta() =~= old(self).script_meta());
                }
            },
        }
        Ok(())
    }

    /// Forgets a script, given by a name or by its SHA-1. A name is
    /// forgotten with the script it stands for; `NotFound` if the text is
    /// neither a name nor a registered SHA-1.
    pub fn remove_script(&mut self, sha_or_name: &str) -> (r: Result<(), Error>)
        requires
            old(self).wf(),
        ensures
            final(self).wf(),
            if old(self).script_names().contains_key(sha_or_name@) {
                &&& r is Ok
                &&& final(self).script_names() == old(self).script_names().remove(sha_or_name@)
                &&& final(self).script_meta() == old(self).script_meta().remove(
                    old(self).script_names()[sha_or_name@],
                )
            } else if old(self).script_meta().contains_key(sha_or_name@) {
                &&& r is Ok
                &&& final(self).script_names() == old(self).script_names()
                &&& final(self).script_meta() == old(self).script_meta().remove(sha_or_name@)
            } else {
                &&& r == Err::<(), Error>(Error::NotFound)
                &&& final(self).script_names() == old(self).script_names()
                &&& final(self).script_meta() == old(self).script_meta()
            },
    {
        let sha = match self.names.remove(sha_or_name) {
            Some(s) => s,
            None => {
                proof {
                    assert(self.script_names() =~= old(self).script_names());
                }
                if self.metas.contains(sha_or_name) {
                    sha_or_name.to_owned()
                } else {
                    return Err(Error::NotFound);
                }
            },
        };
        proof {
            if old(self).script_names().contains_key(sha_or_name@) {
                assert(self.script_names() =~= old(self).script_names().remove(sha_or_name@));
            }
        }
        self.metas.remove(sha.as_str());
        proof {
            assert(self.script_meta() =~= old(self).script_meta().remove(sha@));
        }
        Ok(())
    }
}

} // verus!
