//! Delta chains: for every stream key, the ordered versions stored for it (the head is the
//! last). Chains are persisted in shards, one per tracked file, so a commit rewrites only the
//! shards of the files it touched; this module keeps the chains in memory, knows which shard a
//! key belongs to, and tracks which shards must be written. Reading and writing shard files is
//! the caller's.

use crate::assoc::{keys_sorted, table_find, table_get, table_insert, table_put, table_remove, lemma_table_get_put, lemma_table_get_del};
use crate::commit::{contains_text, text_set};
use crate::text::{chars_of, ends_with, string_of_chars};
use vstd::prelude::*;

verus! {

/// One stored version of a stream.
#[derive(Debug)]
pub struct Version {
    /// Hash of the reconstructed bytes; also the object file's base name.
    pub hash: String,
    /// Hash of the version this patch applies onto; `None` for a full snapshot.
    pub base: Option<String>,
    /// Patches back to the nearest full snapshot (0 = full).
    pub chain_len: usize,
}

/// An optional text as a sequence.
pub open spec fn opt_view(o: Option<String>) -> Option<Seq<char>> {
    match o {
        Some(s) => Some(s@),
        None => None,
    }
}

/// The object file holding a version's payload: `<hash>.full` for a snapshot,
/// `<hash>.<base>.patch` for a patch against `base`.
pub open spec fn object_name_spec(hash: Seq<char>, base: Option<Seq<char>>) -> Seq<char> {
    match base {
        None => hash + ".full"@,
        Some(b) => hash + "."@ + b + ".patch"@,
    }
}

impl Version {
    /// This version's object file name.
    pub open spec fn name(&self) -> Seq<char> {
        object_name_spec(self.hash@, opt_view(self.base))
    }

    /// The content-addressed object file holding this version's payload.
    pub fn object_name(&self) -> (r: String)
        ensures
            r@ == self.name(),
    {
        proof {
            reveal_strlit(".full");
            reveal_strlit(".");
            reveal_strlit(".patch");
        }
        let mut out = self.hash.clone();
        match &self.base {
            None => {
                out.append(".full");
            },
            Some(b) => {
                out.append(".");
                out.append(b.as_str());
                out.append(".patch");
            },
        }
        out
    }
}

/// Two versions record the same thing.
pub open spec fn same_version(a: Version, b: Version) -> bool {
    a.hash@ == b.hash@ && opt_view(a.base) == opt_view(b.base) && a.chain_len == b.chain_len
}

/// Two version lists record the same things, in order.
pub open spec fn same_versions(a: Seq<Version>, b: Seq<Version>) -> bool {
    a.len() == b.len() && forall|i: int| 0 <= i < a.len() ==> same_version(#[trigger] a[i], b[i])
}

/// A copy of a version.
pub fn copy_version(v: &Version) -> (r: Version)
    ensures
        same_version(r, *v),
{
    Version {
        hash: v.hash.clone(),
        base: match &v.base {
            Some(b) => Some(b.clone()),
            None => None,
        },
        chain_len: v.chain_len,
    }
}

/// A copy of a version list.
pub fn copy_versions(v: &Vec<Version>) -> (r: Vec<Version>)
    ensures
        same_versions(r@, v@),
{
    let mut out: Vec<Version> = Vec::new();
    let mut i: usize = 0;
    while i < v.len()
        invariant
            i <= v.len(),
            out@.len() == i,
            forall|k: int| 0 <= k < i ==> same_version(#[trigger] out@[k], v@[k]),
        decreases v.len() - i,
    {
        out.push(copy_version(&v[i]));
        i += 1;
    }
    out
}

/// Stream key to ordered versions, ordered by key: the contents of one shard (or of the
/// monolithic chains file that predates sharding).
pub struct Chains(pub Vec<(String, Vec<Version>)>);

/// Whether `s` begins with `p`.
pub open spec fn starts_with(s: Seq<char>, p: Seq<char>) -> bool {
    s.len() >= p.len() && s.take(p.len() as int) == p
}

/// The first position at or after `from` where `m` occurs in `s`.
pub open spec fn first_at(s: Seq<char>, m: Seq<char>, from: int) -> Option<int>
    decreases s.len() + 1 - from,
{
    if from < 0 || from + m.len() > s.len() {
        None
    } else if s.subrange(from, from + m.len()) == m {
        Some(from)
    } else {
        first_at(s, m, from + 1)
    }
}

/// The shard a stream key belongs to: the tracked file's path embedded in it. `file:<rel>`
/// gives `<rel>`; `kra:<rel>` keys lose their `:tile:…` or `:entry:…` tail (the first such
/// marker, tiles first) or a final `:manifest`; any other key is its own shard.
pub open spec fn shard_spec(key: Seq<char>) -> Seq<char> {
    if starts_with(key, "file:"@) {
        key.skip(5)
    } else if starts_with(key, "kra:"@) {
        let rest = key.skip(4);
        if let Some(p) = first_at(rest, ":tile:"@, 0) {
            rest.take(p)
        } else if let Some(p) = first_at(rest, ":entry:"@, 0) {
            rest.take(p)
        } else if ends_with(rest, ":manifest"@) {
            rest.take(rest.len() - 9)
        } else {
            rest
        }
    } else {
        key
    }
}

proof fn lemma_first_at_range(s: Seq<char>, m: Seq<char>, from: int)
    ensures
        first_at(s, m, from) matches Some(p) ==> from <= p && p + m.len() <= s.len(),
    decreases s.len() + 1 - from,
{
    if !(from < 0 || from + m.len() > s.len()) && s.subrange(from, from + m.len()) != m {
        lemma_first_at_range(s, m, from + 1);
    }
}

fn has_prefix(s: &Vec<char>, p: &Vec<char>) -> (r: bool)
    ensures
        r == starts_with(s@, p@),
{
    if s.len() < p.len() {
        return false;
    }
    let mut i: usize = 0;
    while i < p.len()
        invariant
            p.len() <= s.len(),
            i <= p.len(),
            forall|k: int| 0 <= k < i ==> s@[k] == p@[k],
        decreases p.len() - i,
    {
        if s[i] != p[i] {
            proof {
                assert(s@.take(p@.len() as int)[i as int] != p@[i as int]);
            }
            return false;
        }
        i += 1;
    }
    proof {
        assert(s@.take(p@.len() as int) =~= p@);
    }
    true
}

fn match_at(s: &Vec<char>, m: &Vec<char>, at: usize) -> (r: bool)
    requires
        at + m.len() <= s.len(),
    ensures
        r == (s@.subrange(at as int, at + m.len()) == m@),
{
    let mut i: usize = 0;
    while i < m.len()
        invariant
            at + m.len() <= s.len(),
            i <= m.len(),
            forall|k: int| 0 <= k < i ==> s@[at + k] == m@[k],
        decreases m.len() - i,
    {
        if s[at + i] != m[i] {
            proof {
                assert(s@.subrange(at as int, at + m.len())[i as int] != m@[i as int]);
            }
            return false;
        }
        i += 1;
    }
    proof {
        assert(s@.subrange(at as int, at + m.len()) =~= m@);
    }
    true
}

pub(crate) fn find_from(s: &Vec<char>, m: &Vec<char>) -> (r: Option<usize>)
    ensures
        match r {
            Some(p) => first_at(s@, m@, 0) == Some(p as int),
            None => first_at(s@, m@, 0) is None,
        },
{
    if m.len() > s.len() {
        return None;
    }
    let last = s.len() - m.len();
    let mut i: usize = 0;
    while i < last
        invariant
            m.len() <= s.len(),
            last == s.len() - m.len(),
            i <= last,
            first_at(s@, m@, 0) == first_at(s@, m@, i as int),
        decreases last - i,
    {
        if match_at(s, m, i) {
            return Some(i);
        }
        i += 1;
    }
    proof {
        assert(i == last);
        assert(first_at(s@, m@, 0) == first_at(s@, m@, last as int));
    }
    if match_at(s, m, last) {
        proof {
            assert(!(last < 0 || last + m@.len() > s@.len()));
            assert(s@.subrange(last as int, last + m@.len()) == m@);
            assert(first_at(s@, m@, last as int) == Some(last as int));
            assert(first_at(s@, m@, 0) == Some(last as int));
        }
        let r = Some(last);
        proof {
            assert(r matches Some(p) && first_at(s@, m@, 0) == Some(p as int));
        }
        r
    } else {
        proof {
            assert(first_at(s@, m@, last + 1) is None);
            assert(first_at(s@, m@, last as int) is None);
        }
        None
    }
}

fn sub_chars(s: &Vec<char>, from: usize, to: usize) -> (r: Vec<char>)
    requires
        from <= to <= s.len(),
    ensures
        r@ == s@.subrange(from as int, to as int),
{
    let mut out: Vec<char> = Vec::new();
    let mut i: usize = from;
    while i < to
        invariant
            from <= i <= to <= s.len(),
            out@ == s@.subrange(from as int, i as int),
        decreases to - i,
    {
        out.push(s[i]);
        i += 1;
        proof {
            assert(out@ =~= s@.subrange(from as int, i as int));
        }
    }
    out
}

/// The shard a stream key belongs to.
pub fn shard_of(key: &str) -> (r: String)
    ensures
        r@ == shard_spec(key@),
{
    proof {
        reveal_strlit("file:");
        reveal_strlit("kra:");
        reveal_strlit(":tile:");
        reveal_strlit(":entry:");
        reveal_strlit(":manifest");
    }
    let k = chars_of(key);
    let file = chars_of("file:");
    if has_prefix(&k, &file) {
        let r = sub_chars(&k, 5, k.len());
        proof {
            assert(r@ =~= key@.skip(5));
        }
        return string_of_chars(r.as_slice());
    }
    let kra = chars_of("kra:");
    if has_prefix(&k, &kra) {
        let rest = sub_chars(&k, 4, k.len());
        proof {
            assert(rest@ =~= key@.skip(4));
        }
        let tile = chars_of(":tile:");
        match find_from(&rest, &tile) {
            Some(p) => {
                proof {
                    lemma_first_at_range(rest@, tile@, 0);
                }
                let r = sub_chars(&rest, 0, p);
                proof {
                    assert(r@ =~= rest@.take(p as int));
                }
                return string_of_chars(r.as_slice());
            },
            None => {},
        }
        let entry = chars_of(":entry:");
        match find_from(&rest, &entry) {
            Some(p) => {
                proof {
                    lemma_first_at_range(rest@, entry@, 0);
                }
                let r = sub_chars(&rest, 0, p);
                proof {
                    assert(r@ =~= rest@.take(p as int));
                }
                return string_of_chars(r.as_slice());
            },
            None => {},
        }
        let manifest = chars_of(":manifest");
        if rest.len() >= manifest.len() && match_at(&rest, &manifest, rest.len() - manifest.len()) {
            let r = sub_chars(&rest, 0, rest.len() - 9);
            proof {
                assert(rest@.skip(rest@.len() - 9) =~= rest@.subrange(rest@.len() - 9, rest@.len() as int));
                assert(r@ =~= rest@.take(rest@.len() - 9));
            }
            return string_of_chars(r.as_slice());
        }
        proof {
            if ends_with(rest@, ":manifest"@) {
                assert(rest@.skip(rest@.len() - 9) =~= rest@.subrange(rest@.len() - 9, rest@.len() as int));
            }
        }
        return string_of_chars(rest.as_slice());
    }
    String::from_str(key)
}

/// The chains of every stream held in memory, and which shards must be written.
pub struct ChainStore {
    pub chains: Chains,
    /// Shards changed since they were last written (no name twice).
    pub dirty: Vec<String>,
    /// The chains came from a legacy monolithic file, which the next write retires.
    pub retire_monolith: bool,
}

impl ChainStore {
    /// Well-formed: the chains are ordered by key.
    pub open spec fn wf(&self) -> bool {
        keys_sorted(self.chains.0@)
    }

    /// The versions stored for `key`.
    pub open spec fn chain_spec(&self, key: Seq<char>) -> Option<Seq<Version>> {
        match table_get(self.chains.0@, key) {
            Some(v) => Some(v@),
            None => None,
        }
    }

    /// A store with no chains and nothing to write.
    pub fn empty() -> (s: ChainStore)
        ensures
            s.wf(),
            forall|k: Seq<char>| s.chain_spec(k) is None,
            s.dirty@.len() == 0,
            !s.retire_monolith,
    {
        ChainStore { chains: Chains(Vec::new()), dirty: Vec::new(), retire_monolith: false }
    }

    /// A store holding chains read from their shards, with nothing to write.
    pub fn from_shards(chains: Chains) -> (s: ChainStore)
        requires
            keys_sorted(chains.0@),
        ensures
            s.wf(),
            s.chains == chains,
            s.dirty@.len() == 0,
            !s.retire_monolith,
    {
        ChainStore { chains, dirty: Vec::new(), retire_monolith: false }
    }

    /// A store holding a legacy monolith's chains: every shard is to be written, after which the
    /// monolith is retired.
    pub fn from_legacy(legacy: Chains) -> (s: ChainStore)
        requires
            keys_sorted(legacy.0@),
        ensures
            s.wf(),
            s.chains == legacy,
            s.retire_monolith,
            forall|k: int| 0 <= k < legacy.0@.len() ==> text_set(s.dirty@).contains(shard_spec(#[trigger] legacy.0@[k].0@)),
    {
        let mut dirty: Vec<String> = Vec::new();
        let mut i: usize = 0;
        while i < legacy.0.len()
            invariant
                i <= legacy.0@.len(),
                forall|k: int| 0 <= k < i ==> text_set(dirty@).contains(shard_spec(#[trigger] legacy.0@[k].0@)),
            decreases legacy.0@.len() - i,
        {
            let name = shard_of(legacy.0[i].0.as_str());
            if !contains_text(&dirty, name.as_str()) {
                let ghost before = dirty@;
                dirty.push(name);
                proof {
                    assert forall|k: int| 0 <= k < i + 1 implies text_set(dirty@).contains(shard_spec(#[trigger] legacy.0@[k].0@)) by {
                        if k < i {
                            let w = shard_spec(legacy.0@[k].0@);
                            assert(text_set(before).contains(w));
                            let j = choose|j: int| 0 <= j < before.len() && before[j]@ == w;
                            assert(dirty@[j]@ == w);
                        } else {
                            assert(dirty@[before.len() as int]@ == shard_spec(legacy.0@[k].0@));
                        }
                    }
                }
            }
            i += 1;
        }
        ChainStore { chains: legacy, dirty, retire_monolith: true }
    }

    /// The version chain for `key`, copied.
    pub fn chain(&self, key: &str) -> (r: Option<Vec<Version>>)
        requires
            self.wf(),
        ensures
            match r {
                Some(v) => self.chain_spec(key@) matches Some(w) && same_versions(v@, w),
                None => self.chain_spec(key@) is None,
            },
    {
        match table_find(&self.chains.0, key) {
            Some(i) => Some(copy_versions(&self.chains.0[i].1)),
            None => None,
        }
    }

    /// Append a version to `key`'s chain and mark its shard to be written.
    pub fn push(&mut self, key: String, version: Version)
        requires
            old(self).wf(),
        ensures
            final(self).wf(),
            forall|k: Seq<char>|
                #[trigger] final(self).chain_spec(k) == if k == key@ {
                    Some(
                        match old(self).chain_spec(key@) {
                            Some(v) => v,
                            None => Seq::empty(),
                        }.push(version),
                    )
                } else {
                    old(self).chain_spec(k)
                },
            text_set(final(self).dirty@) == text_set(old(self).dirty@).insert(shard_spec(key@)),
            final(self).retire_monolith == old(self).retire_monolith,
    {
        let name = shard_of(key.as_str());
        let mut chain: Vec<Version> = match table_remove(&mut self.chains.0, key.as_str()) {
            Some(v) => v,
            None => Vec::new(),
        };
        let ghost removed = self.chains.0@;
        let ghost oldv = match old(self).chain_spec(key@) {
            Some(v) => v,
            None => Seq::<Version>::empty(),
        };
        let ghost kv = key@;
        chain.push(version);
        let ghost nc = chain;
        table_insert(&mut self.chains.0, key, chain);
        proof {
            assert forall|k: Seq<char>| #[trigger] self.chain_spec(k) == if k == kv {
                Some(oldv.push(version))
            } else {
                old(self).chain_spec(k)
            } by {
                lemma_table_get_put(removed, key, nc, k);
                lemma_table_get_del(old(self).chains.0@, kv, k);
            }
        }
        let ghost ch_after = self.chains;
        let ghost before = self.dirty@;
        if !contains_text(&self.dirty, name.as_str()) {
            self.dirty.push(name);
            proof {
                assert(text_set(self.dirty@) =~= text_set(before).insert(shard_spec(kv))) by {
                    assert forall|w: Seq<char>| text_set(self.dirty@).contains(w) implies text_set(before).insert(shard_spec(kv)).contains(w) by {
                        let j = choose|j: int| 0 <= j < self.dirty@.len() && self.dirty@[j]@ == w;
                        if j < before.len() {
                            assert(before[j] == self.dirty@[j]);
                        }
                    }
                    assert forall|w: Seq<char>| text_set(before).insert(shard_spec(kv)).contains(w) implies text_set(self.dirty@).contains(w) by {
                        if w != shard_spec(kv) {
                            let j = choose|j: int| 0 <= j < before.len() && before[j]@ == w;
                            assert(self.dirty@[j] == before[j]);
                        } else {
                            assert(self.dirty@[before.len() as int]@ == w);
                        }
                    }
                }
            }
        } else {
            proof {
                assert(text_set(self.dirty@) =~= text_set(before).insert(shard_spec(kv)));
            }
        }
        proof {
            assert(self.chains == ch_after);
            assert forall|k: Seq<char>| #[trigger] self.chain_spec(k) == if k == kv {
                Some(oldv.push(version))
            } else {
                old(self).chain_spec(k)
            } by {
                lemma_table_get_put(removed, key, nc, k);
                lemma_table_get_del(old(self).chains.0@, kv, k);
            }
        }
    }

    /// Whether a save has shards (or a monolith retirement) to write.
    pub fn has_dirty(&self) -> (r: bool)
        ensures
            r == (self.retire_monolith || self.dirty@.len() > 0),
    {
        self.retire_monolith || self.dirty.len() > 0
    }

    /// Record that every dirty shard was written and any monolith retired.
    pub fn mark_flushed(&mut self)
        ensures
            final(self).chains == old(self).chains,
            final(self).dirty@.len() == 0,
            !final(self).retire_monolith,
    {
        self.dirty = Vec::new();
        self.retire_monolith = false;
    }
}

} // verus!
