//! The storage report: what keeping a full copy of every version would cost, against what the
//! delta store actually added for each version. Object sizes, the store's footprint and the
//! documents' manifests are read by the caller; the attribution is made here.

use crate::assoc::{keys_sorted, table_find, table_get};
use crate::chains::{ChainStore, Version};
use crate::commit::{commit_index, tree_at_commit, tree_spec, Tree};
use crate::delta::version_index;
use crate::gc::{chain_of, find_version_in, record_key, record_root};
use crate::kra::{manifest_refs, pair_views, referenced_streams, KraManifest};
use crate::repo::{Commit, CommittedFile, Repo};
use crate::restore::views;
use vstd::prelude::*;

verus! {

/// The object file a `(stream key, content hash)` pair resolves to through its chain.
pub open spec fn object_spec(chains: Seq<(String, Vec<Version>)>, key: Seq<char>, hash: Seq<char>) -> Option<Seq<char>> {
    match version_index(chain_of(chains, key), hash) {
        Some(i) => Some(chain_of(chains, key)[i].name()),
        None => None,
    }
}

/// The object file a `(stream key, content hash)` pair resolves to, if its chain holds it.
pub fn object_of(store: &ChainStore, key: &str, hash: &str) -> (r: Option<String>)
    requires
        store.wf(),
    ensures
        match r {
            Some(o) => object_spec(store.chains.0@, key@, hash@) == Some(o@),
            None => object_spec(store.chains.0@, key@, hash@) is None,
        },
{
    match table_find(&store.chains.0, key) {
        None => None,
        Some(i) => {
            let chain = &store.chains.0[i].1;
            match find_version_in(chain, hash) {
                Some(j) => Some(chain[j].object_name()),
                None => None,
            }
        },
    }
}

/// The objects a list of `(stream key, content hash)` pairs resolves to, in order, skipping
/// those no chain holds.
pub open spec fn objects_of(chains: Seq<(String, Vec<Version>)>, refs: Seq<(Seq<char>, Seq<char>)>) -> Seq<Seq<char>>
    decreases refs.len(),
{
    if refs.len() == 0 {
        Seq::empty()
    } else {
        let rest = objects_of(chains, refs.drop_last());
        match object_spec(chains, refs.last().0, refs.last().1) {
            Some(o) => rest.push(o),
            None => rest,
        }
    }
}

/// The manifest loaded for document `path` at manifest hash `hash`, if the caller could load it.
pub open spec fn manifest_for(manifests: Seq<((String, String), KraManifest)>, path: Seq<char>, hash: Seq<char>) -> Option<KraManifest>
    decreases manifests.len(),
{
    if manifests.len() == 0 {
        None
    } else if manifests[0].0.0@ == path && manifests[0].0.1@ == hash {
        Some(manifests[0].1)
    } else {
        manifest_for(manifests.skip(1), path, hash)
    }
}

/// The `(stream key, content hash)` pairs one committed record references: its own stream,
/// and for a Krita document every stream its manifest names (when the manifest was loaded).
pub open spec fn file_refs(manifests: Seq<((String, String), KraManifest)>, f: CommittedFile) -> Seq<(Seq<char>, Seq<char>)> {
    match f.content {
        None => Seq::empty(),
        Some(c) => {
            let own = seq![(record_key(f.path@, f.is_kra), c@)];
            if f.is_kra {
                match manifest_for(manifests, f.path@, c@) {
                    Some(m) => own + manifest_refs(f.path@, m.entries@),
                    None => own,
                }
            } else {
                own
            }
        },
    }
}

/// The objects a commit's records reference, record by record.
pub open spec fn commit_objects(
    chains: Seq<(String, Vec<Version>)>,
    manifests: Seq<((String, String), KraManifest)>,
    files: Seq<CommittedFile>,
) -> Seq<Seq<char>>
    decreases files.len(),
{
    if files.len() == 0 {
        Seq::empty()
    } else {
        commit_objects(chains, manifests, files.drop_last()) + objects_of(chains, file_refs(manifests, files.last()))
    }
}

/// The objects the first `n` commits reference, commit by commit.
pub open spec fn objects_before(
    chains: Seq<(String, Vec<Version>)>,
    manifests: Seq<((String, String), KraManifest)>,
    cs: Seq<Commit>,
    n: int,
) -> Seq<Seq<char>>
    decreases n,
{
    if n <= 0 {
        Seq::empty()
    } else {
        objects_before(chains, manifests, cs, n - 1) + commit_objects(chains, manifests, cs[n - 1].files@)
    }
}

/// The on-disk size of object `name`: the first size recorded for it, 0 when none is.
pub open spec fn size_of(sizes: Seq<(String, u64)>, name: Seq<char>) -> nat
    decreases sizes.len(),
{
    if sizes.len() == 0 {
        0
    } else if sizes[0].0@ == name {
        sizes[0].1 as nat
    } else {
        size_of(sizes.skip(1), name)
    }
}

/// The bytes of the objects in `refs` that neither `seen` nor an earlier entry of `refs` holds.
pub open spec fn new_bytes(seen: Seq<Seq<char>>, refs: Seq<Seq<char>>, sizes: Seq<(String, u64)>) -> nat
    decreases refs.len(),
{
    if refs.len() == 0 {
        0
    } else {
        let o = refs.last();
        new_bytes(seen, refs.drop_last(), sizes) + if seen.contains(o) || refs.drop_last().contains(o) {
            0
        } else {
            size_of(sizes, o)
        }
    }
}

/// The bytes commit `i` of `cs` added to the store: the sizes of the objects it was the first
/// (in log order) to reference.
pub open spec fn stored_spec(
    chains: Seq<(String, Vec<Version>)>,
    manifests: Seq<((String, String), KraManifest)>,
    sizes: Seq<(String, u64)>,
    cs: Seq<Commit>,
    i: int,
) -> nat {
    new_bytes(objects_before(chains, manifests, cs, i), commit_objects(chains, manifests, cs[i].files@), sizes)
}

fn size_lookup(sizes: &Vec<(String, u64)>, name: &str) -> (r: u64)
    ensures
        r as nat == size_of(sizes@, name@),
{
    let mut i: usize = 0;
    assert(sizes@.skip(0) =~= sizes@);
    while i < sizes.len()
        invariant
            i <= sizes@.len(),
            size_of(sizes@, name@) == size_of(sizes@.skip(i as int), name@),
        decreases sizes@.len() - i,
    {
        assert(sizes@.skip(i as int)[0] == sizes@[i as int]);
        assert(sizes@.skip(i as int).skip(1) =~= sizes@.skip(i + 1));
        if crate::text::str_eq(sizes[i].0.as_str(), name) {
            return sizes[i].1;
        }
        i = i + 1;
    }
    0
}

fn find_manifest<'a>(manifests: &'a Vec<((String, String), KraManifest)>, path: &str, hash: &str) -> (r: Option<&'a KraManifest>)
    ensures
        match manifest_for(manifests@, path@, hash@) {
            Some(m) => r == Some(&m),
            None => r is None,
        },
{
    let mut i: usize = 0;
    assert(manifests@.skip(0) =~= manifests@);
    while i < manifests.len()
        invariant
            i <= manifests@.len(),
            manifest_for(manifests@, path@, hash@) == manifest_for(manifests@.skip(i as int), path@, hash@),
        decreases manifests@.len() - i,
    {
        assert(manifests@.skip(i as int)[0] == manifests@[i as int]);
        assert(manifests@.skip(i as int).skip(1) =~= manifests@.skip(i + 1));
        if crate::text::str_eq(manifests[i].0.0.as_str(), path) && crate::text::str_eq(manifests[i].0.1.as_str(), hash) {
            return Some(&manifests[i].1);
        }
        i = i + 1;
    }
    None
}

fn push_objects(out: &mut Vec<String>, store: &ChainStore, refs: &Vec<(String, String)>)
    requires
        store.wf(),
    ensures
        views(final(out)@) == views(old(out)@) + objects_of(store.chains.0@, pair_views(refs@)),
{
    let ghost start = views(out@);
    let mut i: usize = 0;
    while i < refs.len()
        invariant
            store.wf(),
            i <= refs@.len(),
            views(out@) == start + objects_of(store.chains.0@, pair_views(refs@).take(i as int)),
        decreases refs@.len() - i,
    {
        proof {
            assert(pair_views(refs@).take(i + 1).drop_last() =~= pair_views(refs@).take(i as int));
            assert(pair_views(refs@).take(i + 1).last() == (refs@[i as int].0@, refs@[i as int].1@));
        }
        let ghost before = out@;
        match object_of(store, refs[i].0.as_str(), refs[i].1.as_str()) {
            Some(o) => {
                out.push(o);
                proof {
                    assert(views(out@) =~= views(before).push(out@[before.len() as int]@));
                }
            },
            None => {},
        }
        i = i + 1;
    }
    proof {
        assert(pair_views(refs@).take(refs@.len() as int) =~= pair_views(refs@));
    }
}

/// The objects a commit's records reference, record by record (see [`commit_objects`]).
fn commit_objects_exec(store: &ChainStore, manifests: &Vec<((String, String), KraManifest)>, files: &Vec<CommittedFile>) -> (r: Vec<String>)
    requires
        store.wf(),
    ensures
        views(r@) == commit_objects(store.chains.0@, manifests@, files@),
{
    let mut out: Vec<String> = Vec::new();
    let mut i: usize = 0;
    while i < files.len()
        invariant
            store.wf(),
            i <= files@.len(),
            views(out@) == commit_objects(store.chains.0@, manifests@, files@.take(i as int)),
        decreases files@.len() - i,
    {
        proof {
            assert(files@.take(i + 1).drop_last() =~= files@.take(i as int));
            assert(files@.take(i + 1).last() == files@[i as int]);
        }
        let f = &files[i];
        match &f.content {
            None => {
                proof {
                    assert(objects_of(store.chains.0@, file_refs(manifests@, *f)) =~= Seq::<Seq<char>>::empty());
                }
            },
            Some(c) => {
                let mut refs: Vec<(String, String)> = Vec::new();
                refs.push((record_root(f.path.as_str(), f.is_kra), c.clone()));
                if f.is_kra {
                    match find_manifest(manifests, f.path.as_str(), c.as_str()) {
                        Some(m) => {
                            let more = referenced_streams(f.path.as_str(), m);
                            let ghost r0 = refs@;
                            let mut k: usize = 0;
                            while k < more.len()
                                invariant
                                    k <= more@.len(),
                                    pair_views(refs@) == pair_views(r0) + pair_views(more@).take(k as int),
                                decreases more@.len() - k,
                            {
                                let ghost rb = refs@;
                                refs.push((more[k].0.clone(), more[k].1.clone()));
                                proof {
                                    assert(pair_views(refs@) =~= pair_views(rb).push((more@[k as int].0@, more@[k as int].1@)));
                                    assert(pair_views(more@).take(k + 1) =~= pair_views(more@).take(k as int).push(
                                        (more@[k as int].0@, more@[k as int].1@),
                                    ));
                                }
                                k = k + 1;
                            }
                            proof {
                                assert(pair_views(more@).take(more@.len() as int) =~= pair_views(more@));
                                assert(pair_views(refs@) =~= file_refs(manifests@, *f));
                            }
                        },
                        None => {
                            proof {
                                assert(pair_views(refs@) =~= file_refs(manifests@, *f));
                            }
                        },
                    }
                } else {
                    proof {
                        assert(pair_views(refs@) =~= file_refs(manifests@, *f));
                    }
                }
                push_objects(&mut out, store, &refs);
            },
        }
        i = i + 1;
    }
    proof {
        assert(files@.take(files@.len() as int) =~= files@);
    }
    out
}

/// For each commit, in log order, its id and the bytes it added to the store: the on-disk
/// sizes (`sizes`, by object name) of the objects it was the first to reference. A Krita
/// document's tiles count when the caller loaded its manifest (`manifests`, by path and
/// manifest hash); a sum past `u64::MAX` stays at `u64::MAX`.
pub fn stored_bytes_by_commit(repo: &Repo, sizes: &Vec<(String, u64)>, manifests: &Vec<((String, String), KraManifest)>) -> (r: Vec<
    (String, u64),
>)
    requires
        repo.chains.wf(),
    ensures
        r@.len() == repo.commits@.len(),
        forall|i: int|
            0 <= i < r@.len() ==> (#[trigger] r@[i]).0@ == repo.commits@[i].id@ && r@[i].1 as nat == if stored_spec(
                repo.chains.chains.0@,
                manifests@,
                sizes@,
                repo.commits@,
                i,
            ) > u64::MAX {
                u64::MAX as nat
            } else {
                stored_spec(repo.chains.chains.0@, manifests@, sizes@, repo.commits@, i)
            },
{
    let ghost chains = repo.chains.chains.0@;
    let mut seen: Vec<String> = Vec::new();
    let mut out: Vec<(String, u64)> = Vec::new();
    let mut c: usize = 0;
    while c < repo.commits.len()
        invariant
            repo.chains.wf(),
            chains == repo.chains.chains.0@,
            c <= repo.commits@.len(),
            views(seen@) == objects_before(chains, manifests@, repo.commits@, c as int),
            out@.len() == c,
            forall|i: int|
                0 <= i < c ==> (#[trigger] out@[i]).0@ == repo.commits@[i].id@ && out@[i].1 as nat == if stored_spec(
                    chains,
                    manifests@,
                    sizes@,
                    repo.commits@,
                    i,
                ) > u64::MAX {
                    u64::MAX as nat
                } else {
                    stored_spec(chains, manifests@, sizes@, repo.commits@, i)
                },
        decreases repo.commits@.len() - c,
    {
        let refs = commit_objects_exec(&repo.chains, manifests, &repo.commits[c].files);
        let ghost seen0 = views(seen@);
        let mut stored: u128 = 0;
        let mut k: usize = 0;
        while k < refs.len()
            invariant
                k <= refs@.len(),
                views(seen@) == seen0 + views(refs@).take(k as int),
                stored as nat == new_bytes(seen0, views(refs@).take(k as int), sizes@),
                stored <= k * 0xffff_ffff_ffff_ffff,
            decreases refs@.len() - k,
        {
            let ghost vr = views(refs@).take(k + 1);
            proof {
                assert(vr.drop_last() =~= views(refs@).take(k as int));
                assert(vr.last() == refs@[k as int]@);
            }
            let o = refs[k].as_str();
            let fresh = !crate::commit::contains_text(&seen, o);
            proof {
                let tk = views(refs@).take(k as int);
                let full = seen0 + tk;
                crate::merge::lemma_views_contains(seen@, o@);
                assert(views(seen@) == full);
                assert(fresh == !full.contains(o@));
                if full.contains(o@) {
                    let j = choose|j: int| 0 <= j < full.len() && full[j] == o@;
                    if j < seen0.len() {
                        assert(seen0[j] == o@);
                    } else {
                        assert(tk[j - seen0.len()] == o@);
                    }
                }
                if seen0.contains(o@) {
                    let j = choose|j: int| 0 <= j < seen0.len() && seen0[j] == o@;
                    assert(full[j] == o@);
                }
                if tk.contains(o@) {
                    let j = choose|j: int| 0 <= j < tk.len() && tk[j] == o@;
                    assert(full[seen0.len() + j] == o@);
                }
                assert(fresh == !(seen0.contains(refs@[k as int]@) || tk.contains(refs@[k as int]@)));
            }
            let _len = refs.len();
            if fresh {
                let sz = size_lookup(sizes, o);
                proof {
                    let m: int = 0xffff_ffff_ffff_ffff;
                    assert(stored + sz <= (k + 1) * m) by (nonlinear_arith)
                        requires
                            stored <= k * m,
                            sz <= m,
                    ;
                    assert((k + 1) * m <= 0xffff_ffff_ffff_ffff_ffff_ffff_ffff_ffff) by (nonlinear_arith)
                        requires
                            k + 1 <= 0x1_0000_0000_0000_0000,
                            m == 0xffff_ffff_ffff_ffff,
                    ;
                }
                stored = stored + sz as u128;
            } else {
                proof {
                    let m: int = 0xffff_ffff_ffff_ffff;
                    assert(stored <= (k + 1) * m) by (nonlinear_arith)
                        requires
                            stored <= k * m,
                            m >= 0,
                    ;
                }
            }
            let ghost sb = seen@;
            seen.push(refs[k].clone());
            proof {
                assert(views(seen@) =~= views(sb).push(refs@[k as int]@));
                assert(views(refs@).take(k + 1) =~= views(refs@).take(k as int).push(refs@[k as int]@));
            }
            k = k + 1;
        }
        proof {
            assert(views(refs@).take(refs@.len() as int) =~= views(refs@));
            assert(objects_before(chains, manifests@, repo.commits@, c + 1) =~= objects_before(chains, manifests@, repo.commits@, c as int)
                + commit_objects(chains, manifests@, repo.commits@[c as int].files@));
        }
        let capped: u64 = if stored > 0xffff_ffff_ffff_ffff {
            0xffff_ffff_ffff_ffff
        } else {
            stored as u64
        };
        out.push((repo.commits[c].id.clone(), capped));
        c = c + 1;
    }
    out
}

/// One row of the storage report.
pub struct VersionRow {
    /// 1-based version number, in log order.
    pub version: u32,
    pub commit_id: String,
    pub message: String,
    /// Files tracked at this version.
    pub file_count: u32,
    /// Sum of the original sizes of every file tracked at this version.
    pub original_bytes: u64,
    /// Bytes this version added to the store.
    pub stored_bytes: u64,
}

/// What the delta store saves against a full copy of every file per version.
pub struct StorageStats {
    /// The full-copy-per-version total.
    pub naive_bytes: u64,
    /// What the object and chain stores occupy on disk.
    pub actual_bytes: u64,
    /// `naive - actual`, at least 0.
    pub saved_bytes: u64,
    pub per_version: Vec<VersionRow>,
}

/// The original sizes of a tree's files, summed.
pub open spec fn tree_bytes(t: Seq<(String, CommittedFile)>) -> nat
    decreases t.len(),
{
    if t.len() == 0 {
        0
    } else {
        tree_bytes(t.drop_last()) + t.last().1.original_size as nat
    }
}

/// The tree of version `i` (empty when its history cannot be followed).
pub open spec fn version_tree(cs: Seq<Commit>, i: int) -> Seq<(String, CommittedFile)> {
    match tree_spec(cs, cs[i].id@) {
        Some(t) => t,
        None => Seq::empty(),
    }
}

/// `n`, or `u64::MAX` when it is larger.
pub open spec fn cap(n: nat) -> nat {
    if n > u64::MAX {
        u64::MAX as nat
    } else {
        n
    }
}

/// The full-copy cost of the first `n` versions, each capped as its row is.
pub open spec fn naive_upto(cs: Seq<Commit>, n: int) -> nat
    decreases n,
{
    if n <= 0 {
        0
    } else {
        naive_upto(cs, n - 1) + cap(tree_bytes(version_tree(cs, n - 1)))
    }
}

fn tree_bytes_exec(t: &Tree) -> (r: u64)
    ensures
        r as nat == cap(tree_bytes(t@)),
{
    let mut sum: u128 = 0;
    let mut i: usize = 0;
    while i < t.len()
        invariant
            i <= t@.len(),
            sum as nat == tree_bytes(t@.take(i as int)),
            sum <= i * 0xffff_ffff_ffff_ffff,
        decreases t@.len() - i,
    {
        proof {
            assert(t@.take(i + 1).drop_last() =~= t@.take(i as int));
            assert(t@.take(i + 1).last() == t@[i as int]);
            let m: int = 0xffff_ffff_ffff_ffff;
            let x = t@[i as int].1.original_size;
            assert(sum + x <= (i + 1) * m) by (nonlinear_arith)
                requires
                    sum <= i * m,
                    x <= m,
            ;
            assert((i + 1) * m <= 0xffff_ffff_ffff_ffff_ffff_ffff_ffff_ffff) by (nonlinear_arith)
                requires
                    i + 1 <= 0x1_0000_0000_0000_0000,
                    m == 0xffff_ffff_ffff_ffff,
            ;
        }
        sum = sum + t[i].1.original_size as u128;
        i = i + 1;
    }
    proof {
        assert(t@.take(t@.len() as int) =~= t@);
    }
    if sum > 0xffff_ffff_ffff_ffff {
        0xffff_ffff_ffff_ffff
    } else {
        sum as u64
    }
}

/// The storage report: per version, its number, id, message, how many files it tracks and
/// their original sizes summed, and the bytes it added to the store (see
/// [`stored_bytes_by_commit`]); the full-copy total over all versions; the store's on-disk
/// footprint `actual_bytes`; and what the store saves against the full-copy total. Sums past
/// `u64::MAX` stay at `u64::MAX`; version numbers and file counts are taken modulo 2^32.
pub fn compute_storage_stats(
    repo: &Repo,
    sizes: &Vec<(String, u64)>,
    manifests: &Vec<((String, String), KraManifest)>,
    actual_bytes: u64,
) -> (st: StorageStats)
    requires
        repo.chains.wf(),
    ensures
        st.per_version@.len() == repo.commits@.len(),
        forall|i: int|
            0 <= i < st.per_version@.len() ==> {
                let row = #[trigger] st.per_version@[i];
                &&& row.version == (i + 1) as u32
                &&& row.commit_id@ == repo.commits@[i].id@
                &&& row.message@ == repo.commits@[i].message@
                &&& row.file_count == version_tree(repo.commits@, i).len() as u32
                &&& row.original_bytes as nat == cap(tree_bytes(version_tree(repo.commits@, i)))
                &&& row.stored_bytes as nat == cap(stored_spec(repo.chains.chains.0@, manifests@, sizes@, repo.commits@, i))
            },
        st.naive_bytes as nat == cap(naive_upto(repo.commits@, repo.commits@.len() as int)),
        st.actual_bytes == actual_bytes,
        st.saved_bytes == if st.naive_bytes > actual_bytes {
            st.naive_bytes - actual_bytes
        } else {
            0
        },
{
    let stored = stored_bytes_by_commit(repo, sizes, manifests);
    let mut rows: Vec<VersionRow> = Vec::new();
    let mut naive: u128 = 0;
    let mut i: usize = 0;
    while i < repo.commits.len()
        invariant
            i <= repo.commits@.len(),
            stored@.len() == repo.commits@.len(),
            forall|j: int|
                0 <= j < stored@.len() ==> (#[trigger] stored@[j]).0@ == repo.commits@[j].id@ && stored@[j].1 as nat == cap(
                    stored_spec(repo.chains.chains.0@, manifests@, sizes@, repo.commits@, j),
                ),
            rows@.len() == i,
            forall|j: int|
                0 <= j < i ==> {
                    let row = #[trigger] rows@[j];
                    &&& row.version == (j + 1) as u32
                    &&& row.commit_id@ == repo.commits@[j].id@
                    &&& row.message@ == repo.commits@[j].message@
                    &&& row.file_count == version_tree(repo.commits@, j).len() as u32
                    &&& row.original_bytes as nat == cap(tree_bytes(version_tree(repo.commits@, j)))
                    &&& row.stored_bytes as nat == cap(stored_spec(repo.chains.chains.0@, manifests@, sizes@, repo.commits@, j))
                },
            naive as nat == naive_upto(repo.commits@, i as int),
            naive <= i * 0xffff_ffff_ffff_ffff,
        decreases repo.commits@.len() - i,
    {
        let c = &repo.commits[i];
        let tree: Tree = match tree_at_commit(&repo.commits, c.id.as_str()) {
            Some(t) => t,
            None => Vec::new(),
        };
        proof {
            assert(tree@ == version_tree(repo.commits@, i as int));
        }
        let ob = tree_bytes_exec(&tree);
        proof {
            let m: int = 0xffff_ffff_ffff_ffff;
            assert(naive + ob <= (i + 1) * m) by (nonlinear_arith)
                requires
                    naive <= i * m,
                    ob <= m,
            ;
            assert((i + 1) * m <= 0xffff_ffff_ffff_ffff_ffff_ffff_ffff_ffff) by (nonlinear_arith)
                requires
                    i + 1 <= 0x1_0000_0000_0000_0000,
                    m == 0xffff_ffff_ffff_ffff,
            ;
        }
        naive = naive + ob as u128;
        let ghost before = rows@;
        rows.push(
            VersionRow {
                version: (i + 1) as u32,
                commit_id: c.id.clone(),
                message: c.message.clone(),
                file_count: tree.len() as u32,
                original_bytes: ob,
                stored_bytes: stored[i].1,
            },
        );
        proof {
            assert forall|j: int| 0 <= j < i + 1 implies {
                let row = #[trigger] rows@[j];
                &&& row.version == (j + 1) as u32
                &&& row.commit_id@ == repo.commits@[j].id@
                &&& row.message@ == repo.commits@[j].message@
                &&& row.file_count == version_tree(repo.commits@, j).len() as u32
                &&& row.original_bytes as nat == cap(tree_bytes(version_tree(repo.commits@, j)))
                &&& row.stored_bytes as nat == cap(stored_spec(repo.chains.chains.0@, manifests@, sizes@, repo.commits@, j))
            } by {
                if j < i {
                    assert(rows@[j] == before[j]);
                }
            }
        }
        i = i + 1;
    }
    let naive_bytes: u64 = if naive > 0xffff_ffff_ffff_ffff {
        0xffff_ffff_ffff_ffff
    } else {
        naive as u64
    };
    let saved_bytes: u64 = if naive_bytes > actual_bytes {
        naive_bytes - actual_bytes
    } else {
        0
    };
    StorageStats { naive_bytes, actual_bytes, saved_bytes, per_version: rows }
}

} // verus!
