//! Garbage-collection bookkeeping: the report of a cleanup run and the rule for when a
//! partially dead pack is worth rewriting. Marking, sweeping and quarantining files is the
//! caller's.

use crate::assoc::{keys_sorted, lemma_table_get_put, table_find, table_get, table_insert};
use crate::chains::{copy_version, opt_view, same_version, ChainStore, Chains, Version};
use crate::commit::{ancestors, contains_text, push_copies, reachable, text_set};
use crate::delta::{lemma_read_back, path_payloads, rebuilt, sound_chain, version_index, walk, well_made, Walk};
use crate::repo::{CommittedFile, Repo};
use crate::text::str_eq;
use vstd::prelude::*;

verus! {

/// What a cleanup run did (or, in a dry run, would do).
pub struct GcReport {
    pub dry_run: bool,
    /// Commits dropped from the log (unreachable from every branch tip).
    pub commits_removed: usize,
    /// Chain versions dropped across all streams.
    pub versions_removed: usize,
    /// Loose object files and whole pack files quarantined (a rewritten pack counts once).
    pub objects_deleted: usize,
    /// Bytes that left the live store this run, quarantined rather than gone.
    pub bytes_reclaimed: u64,
    /// Raster-cache bytes freed.
    pub cache_bytes_reclaimed: u64,
    /// Bytes permanently freed by aging quarantined trash out.
    pub trash_bytes_pruned: u64,
}

/// Days a quarantined victim is kept before it is deleted for good.
pub const TRASH_MAX_AGE_DAYS: u64 = 14;

/// A pack is rewritten only when more than a quarter of it is dead: rewriting rereads and
/// rewrites every survivor.
pub fn worth_rewriting(dead_bytes: u64, total: u64) -> (r: bool)
    ensures
        r == (dead_bytes > 0 && 4 * dead_bytes > total),
{
    proof {
        assert((dead_bytes > total / 4) == (4 * dead_bytes > total)) by (nonlinear_arith);
    }
    dead_bytes > 0 && dead_bytes > total / 4
}

/// Whether commit `id` is reachable from some branch tip (a branch with no commits has none).
pub open spec fn live_commit(repo: Repo, id: Seq<char>) -> bool {
    exists|i: int|
        0 <= i < repo.branches.branches@.len() && repo.branches.branches@[i].1@.len() > 0 && reachable(
            repo.commits@,
            #[trigger] repo.branches.branches@[i].1@,
            id,
        )
}

/// Every commit id reachable from some branch tip.
pub fn reachable_commits(repo: &Repo) -> (r: Vec<String>)
    ensures
        forall|y: Seq<char>| #[trigger] text_set(r@).contains(y) <==> live_commit(*repo, y),
{
    let ghost bs = repo.branches.branches@;
    let mut out: Vec<String> = Vec::new();
    let mut i: usize = 0;
    while i < repo.branches.branches.len()
        invariant
            bs == repo.branches.branches@,
            i <= bs.len(),
            forall|y: Seq<char>|
                #[trigger] text_set(out@).contains(y) <==> exists|j: int|
                    0 <= j < i && bs[j].1@.len() > 0 && reachable(repo.commits@, #[trigger] bs[j].1@, y),
        decreases bs.len() - i,
    {
        let tip = &repo.branches.branches[i].1;
        if !tip.as_str().is_empty() {
            let anc = ancestors(&repo.commits, tip.as_str());
            let ghost before = out@;
            push_copies(&mut out, &anc);
            proof {
                assert forall|y: Seq<char>| #[trigger] text_set(out@).contains(y) <==> exists|j: int|
                    0 <= j < i + 1 && bs[j].1@.len() > 0 && reachable(repo.commits@, #[trigger] bs[j].1@, y) by {
                    if text_set(out@).contains(y) {
                        let k = choose|k: int| 0 <= k < out@.len() && (#[trigger] out@[k])@ == y;
                        if k < before.len() {
                            assert(before[k] == out@[k]);
                            assert(text_set(before).contains(y));
                        } else {
                            assert(anc@[k - before.len()] == out@[k]);
                            assert(text_set(anc@).contains(y));
                        }
                    }
                    if exists|j: int| 0 <= j < i + 1 && bs[j].1@.len() > 0 && reachable(repo.commits@, #[trigger] bs[j].1@, y) {
                        let j = choose|j: int| 0 <= j < i + 1 && bs[j].1@.len() > 0 && reachable(repo.commits@, #[trigger] bs[j].1@, y);
                        if j < i {
                            assert(text_set(before).contains(y));
                            let k = choose|k: int| 0 <= k < before.len() && (#[trigger] before[k])@ == y;
                            assert(out@[k] == before[k]);
                        } else {
                            assert(text_set(anc@).contains(y));
                            let k = choose|k: int| 0 <= k < anc@.len() && (#[trigger] anc@[k])@ == y;
                            assert(out@[before.len() + k] == anc@[k]);
                        }
                    }
                }
            }
        } else {
            proof {
                assert forall|y: Seq<char>| #[trigger] text_set(out@).contains(y) <==> exists|j: int|
                    0 <= j < i + 1 && bs[j].1@.len() > 0 && reachable(repo.commits@, #[trigger] bs[j].1@, y) by {
                    if exists|j: int| 0 <= j < i + 1 && bs[j].1@.len() > 0 && reachable(repo.commits@, #[trigger] bs[j].1@, y) {
                        let j = choose|j: int| 0 <= j < i + 1 && bs[j].1@.len() > 0 && reachable(repo.commits@, #[trigger] bs[j].1@, y);
                        assert(j < i);
                    }
                }
            }
        }
        i += 1;
    }
    out
}

/// The stream versions marked live: per stream key, the content hashes kept.
pub type Marked = Vec<(String, Vec<String>)>;

/// Whether version `h` of stream `k` is marked.
pub open spec fn is_marked(m: Seq<(String, Vec<String>)>, k: Seq<char>, h: Seq<char>) -> bool {
    table_get(m, k) matches Some(hs) && exists|i: int| 0 <= i < hs@.len() && (#[trigger] hs@[i])@ == h
}

/// The chain stored for `k` (empty when there is none).
pub open spec fn chain_of(chains: Seq<(String, Vec<Version>)>, k: Seq<char>) -> Seq<Version> {
    match table_get(chains, k) {
        Some(v) => v@,
        None => Seq::empty(),
    }
}

/// A marked version keeps its patch base: if the chain holds the version and it is a patch,
/// its base is marked too.
pub open spec fn closed_at(chains: Seq<(String, Vec<Version>)>, m: Seq<(String, Vec<String>)>, k: Seq<char>, h: Seq<char>) -> bool {
    match version_index(chain_of(chains, k), h) {
        Some(i) => match chain_of(chains, k)[i].base {
            Some(b) => is_marked(m, k, b@),
            None => true,
        },
        None => true,
    }
}

fn mark(m: &mut Marked, k: &str, h: &str)
    requires
        keys_sorted(old(m)@),
    ensures
        keys_sorted(final(m)@),
        forall|k2: Seq<char>, h2: Seq<char>|
            #[trigger] is_marked(final(m)@, k2, h2) <==> (is_marked(old(m)@, k2, h2) || (k2 == k@ && h2 == h@)),
{
    let mut hs: Vec<String> = match table_find(m, k) {
        Some(i) => {
            let mut c: Vec<String> = Vec::new();
            push_copies(&mut c, &m[i].1);
            c
        },
        None => Vec::new(),
    };
    let ghost old_hs = hs@;
    if !contains_text(&hs, h) {
        hs.push(String::from_str(h));
    }
    let key = String::from_str(k);
    let ghost kk = key;
    let ghost nhs = hs;
    table_insert(m, key, hs);
    proof {
        assert forall|k2: Seq<char>, h2: Seq<char>|
            #[trigger] is_marked(m@, k2, h2) <==> (is_marked(old(m)@, k2, h2) || (k2 == k@ && h2 == h@)) by {
            lemma_table_get_put(old(m)@, kk, nhs, k2);
            if k2 == k@ {
                if is_marked(old(m)@, k2, h2) {
                    let hs0 = table_get(old(m)@, k2)->0;
                    let j = choose|j: int| 0 <= j < hs0@.len() && (#[trigger] hs0@[j])@ == h2;
                    assert(old_hs[j] == hs0@[j]);
                    assert(nhs@[j] == old_hs[j]);
                }
                if h2 == h@ {
                    if exists|j: int| 0 <= j < old_hs.len() && (#[trigger] old_hs[j])@ == h@ {
                        let j = choose|j: int| 0 <= j < old_hs.len() && (#[trigger] old_hs[j])@ == h@;
                        assert(nhs@[j] == old_hs[j]);
                    } else {
                        assert(nhs@[old_hs.len() as int]@ == h@);
                    }
                }
                if is_marked(m@, k2, h2) {
                    let j = choose|j: int| 0 <= j < nhs@.len() && (#[trigger] nhs@[j])@ == h2;
                    if j < old_hs.len() {
                        assert(nhs@[j] == old_hs[j]);
                        match table_get(old(m)@, k2) {
                            Some(hs0) => {
                                assert(old_hs[j] == hs0@[j]);
                            },
                            None => {},
                        }
                    }
                }
            }
        }
    }
}

fn marked_exec(m: &Marked, k: &str, h: &str) -> (r: bool)
    requires
        keys_sorted(m@),
    ensures
        r == is_marked(m@, k@, h@),
{
    match table_find(m, k) {
        Some(i) => {
            let r = contains_text(&m[i].1, h);
            proof {
                let hs = m@[i as int].1;
                assert(table_get(m@, k@) == Some(hs));
                if r {
                    let j = choose|j: int| 0 <= j < hs@.len() && (#[trigger] hs@[j])@ == h@;
                    assert(hs@[j]@ == h@);
                    assert(is_marked(m@, k@, h@));
                }
                if is_marked(m@, k@, h@) {
                    let hs2 = table_get(m@, k@)->0;
                    assert(hs2 == hs);
                    let j = choose|j: int| 0 <= j < hs2@.len() && (#[trigger] hs2@[j])@ == h@;
                    assert(hs@[j]@ == h@);
                    assert(r);
                }
            }
            r
        },
        None => false,
    }
}

pub(crate) fn find_version_in(chain: &Vec<Version>, h: &str) -> (r: Option<usize>)
    ensures
        match r {
            Some(i) => version_index(chain@, h@) == Some(i as int) && i < chain.len(),
            None => version_index(chain@, h@) is None,
        },
{
    let mut i: usize = 0;
    while i < chain.len()
        invariant
            i <= chain.len(),
            version_index(chain@.take(i as int), h@) is None,
        decreases chain.len() - i,
    {
        proof {
            assert(chain@.take(i + 1).drop_last() =~= chain@.take(i as int));
        }
        if str_eq(chain[i].hash.as_str(), h) {
            proof {
                lemma_index_prefix(chain@, h@, i + 1);
            }
            return Some(i);
        }
        i += 1;
    }
    proof {
        assert(chain@.take(chain@.len() as int) =~= chain@);
    }
    None
}

proof fn lemma_version_index_found(chain: Seq<Version>, h: Seq<char>)
    ensures
        version_index(chain, h) matches Some(i) ==> 0 <= i < chain.len() && chain[i].hash@ == h,
    decreases chain.len(),
{
    if chain.len() > 0 {
        lemma_version_index_found(chain.drop_last(), h);
    }
}

proof fn lemma_index_prefix(chain: Seq<Version>, h: Seq<char>, n: int)
    requires
        0 <= n <= chain.len(),
        version_index(chain.take(n), h) is Some,
    ensures
        version_index(chain, h) == version_index(chain.take(n), h),
    decreases chain.len() - n,
{
    if n < chain.len() {
        assert(chain.take(n + 1).drop_last() =~= chain.take(n));
        lemma_index_prefix(chain, h, n + 1);
    } else {
        assert(chain.take(n) =~= chain);
    }
}

/// Every marked version keeps its base, except possibly version `last` of stream `lk`.
pub open spec fn closed_but(chains: Seq<(String, Vec<Version>)>, m: Seq<(String, Vec<String>)>, lk: Seq<char>, last: Seq<char>) -> bool {
    forall|k: Seq<char>, h: Seq<char>|
        #[trigger] is_marked(m, k, h) && !(k == lk && h == last) ==> closed_at(chains, m, k, h)
}

/// Every marked version keeps its base.
pub open spec fn closed(chains: Seq<(String, Vec<Version>)>, m: Seq<(String, Vec<String>)>) -> bool {
    forall|k: Seq<char>, h: Seq<char>| #[trigger] is_marked(m, k, h) ==> closed_at(chains, m, k, h)
}

/// Whether `h` is reached from version `from` of `chain` by following at most `n` patch-base
/// links.
pub open spec fn reaches(chain: Seq<Version>, from: Seq<char>, h: Seq<char>, n: nat) -> bool
    decreases n,
{
    from == h || (n > 0 && match version_index(chain, from) {
        Some(i) => match chain[i].base {
            Some(b) => reaches(chain, b@, h, (n - 1) as nat),
            None => false,
        },
        None => false,
    })
}

/// Whether version `h` of stream `k` is reached from one of `roots` by patch-base links.
pub open spec fn rooted(chains: Seq<(String, Vec<Version>)>, roots: Seq<(String, String)>, k: Seq<char>, h: Seq<char>) -> bool {
    exists|i: int, n: nat| 0 <= i < roots.len() && roots[i].0@ == k && #[trigger] reaches(chain_of(chains, k), roots[i].1@, h, n)
}

proof fn lemma_reaches_step(chain: Seq<Version>, from: Seq<char>, x: Seq<char>, n: nat, i: int, b: String)
    requires
        reaches(chain, from, x, n),
        version_index(chain, x) == Some(i),
        chain[i].base == Some(b),
    ensures
        reaches(chain, from, b@, n + 1),
    decreases n,
{
    if from == x {
        assert(reaches(chain, b@, b@, n));
    } else {
        assert(n > 0);
        let j = version_index(chain, from)->0;
        let b2 = chain[j].base->0;
        assert(reaches(chain, b2@, x, (n - 1) as nat));
        lemma_reaches_step(chain, b2@, x, (n - 1) as nat, i, b);
        assert(reaches(chain, b2@, b@, n));
    }
}

/// Mark the roots `roots` (stream key, content hash) and close over patch bases: every marked
/// version whose chain holds it as a patch has its base marked too.
pub fn mark_live(store: &ChainStore, roots: &Vec<(String, String)>) -> (m: Marked)
    requires
        store.wf(),
    ensures
        keys_sorted(m@),
        forall|i: int| 0 <= i < roots@.len() ==> #[trigger] is_marked(m@, roots@[i].0@, roots@[i].1@),
        closed(store.chains.0@, m@),
        forall|k: Seq<char>, h: Seq<char>| #[trigger] is_marked(m@, k, h) ==> rooted(store.chains.0@, roots@, k, h),
{
    let ghost chains = store.chains.0@;
    let mut m: Marked = Vec::new();
    let mut r: usize = 0;
    while r < roots.len()
        invariant
            store.wf(),
            chains == store.chains.0@,
            keys_sorted(m@),
            r <= roots.len(),
            closed(chains, m@),
            forall|i: int| 0 <= i < r ==> #[trigger] is_marked(m@, roots@[i].0@, roots@[i].1@),
            forall|k: Seq<char>, h: Seq<char>| #[trigger] is_marked(m@, k, h) ==> rooted(chains, roots@, k, h),
        decreases roots.len() - r,
    {
        let k = roots[r].0.as_str();
        let chain: Vec<Version> = match table_find(&store.chains.0, k) {
            Some(i) => {
                let mut c: Vec<Version> = Vec::new();
                let mut j: usize = 0;
                while j < store.chains.0[i].1.len()
                    invariant
                        i < store.chains.0@.len(),
                        j <= store.chains.0@[i as int].1@.len(),
                        c@ == store.chains.0@[i as int].1@.take(j as int),
                    decreases store.chains.0@[i as int].1@.len() - j,
                {
                    let v = &store.chains.0[i].1[j];
                    c.push(Version { hash: v.hash.clone(), base: match &v.base { Some(b) => Some(b.clone()), None => None }, chain_len: v.chain_len });
                    proof {
                        assert(c@ =~= store.chains.0@[i as int].1@.take(j + 1)) by {
                            assert forall|t: int| 0 <= t < c@.len() implies c@[t] == store.chains.0@[i as int].1@.take(j + 1)[t] by {
                                if t == j {
                                    let w = store.chains.0@[i as int].1@[j as int];
                                    assert(c@[t].base == w.base) by {
                                        match w.base {
                                            Some(bb) => {},
                                            None => {},
                                        }
                                    }
                                }
                            }
                        }
                    }
                    j += 1;
                }
                proof {
                    assert(store.chains.0@[i as int].1@.take(j as int) =~= store.chains.0@[i as int].1@);
                }
                c
            },
            None => Vec::new(),
        };
        proof {
            assert(chain@ == chain_of(chains, k@));
        }
        let ghost before = m@;
        let mut cur: String = roots[r].1.clone();
        let mut fuel: usize = chain.len();
        let mut done = false;
        let ghost root = roots@[r as int].1@;
        let ghost mut depth: nat = 0;
        let ghost mut visited: Set<int> = Set::empty();
        proof {
            assert(reaches(chain@, root, root, 0));
        }
        if marked_exec(&m, k, cur.as_str()) {
            done = true;
        } else {
            mark(&mut m, k, cur.as_str());
            proof {
                assert forall|k2: Seq<char>, h2: Seq<char>| #[trigger] is_marked(m@, k2, h2) implies rooted(chains, roots@, k2, h2) by {
                    if !is_marked(before, k2, h2) {
                        assert(reaches(chain_of(chains, k2), roots@[r as int].1@, h2, 0));
                    }
                }
            }
        }
        while !done
            invariant
                keys_sorted(m@),
                chain@ == chain_of(chains, k@),
                !done ==> closed_but(chains, m@, k@, cur@),
                done ==> closed(chains, m@),
                is_marked(m@, k@, cur@),
                forall|i: int| 0 <= i < r ==> #[trigger] is_marked(m@, roots@[i].0@, roots@[i].1@),
                is_marked(m@, roots@[r as int].0@, roots@[r as int].1@),
                k@ == roots@[r as int].0@,
                root == roots@[r as int].1@,
                r < roots@.len(),
                forall|k2: Seq<char>, h2: Seq<char>| #[trigger] is_marked(m@, k2, h2) ==> rooted(chains, roots@, k2, h2),
                reaches(chain@, root, cur@, depth),
                visited.finite(),
                visited.subset_of(vstd::set_lib::set_int_range(0, chain@.len() as int)),
                visited.len() + fuel == chain@.len(),
                forall|j: int| #[trigger] visited.contains(j) ==> chain@[j].hash@ != cur@,
                forall|j: int| #[trigger] visited.contains(j) ==> is_marked(m@, k@, chain@[j].hash@),
            decreases (fuel as int) * 2 + (if done { 0int } else { 1int }),
        {
            match find_version_in(&chain, cur.as_str()) {
                None => {
                    done = true;
                },
                Some(i) => match &chain[i].base {
                    None => {
                        done = true;
                    },
                    Some(b) => {
                        let nb = b.clone();
                        if marked_exec(&m, k, nb.as_str()) {
                            done = true;
                        } else if fuel == 0 {
                            proof {
                                lemma_version_index_found(chain@, cur@);
                                let all = vstd::set_lib::set_int_range(0, chain@.len() as int);
                                vstd::set_lib::lemma_int_range(0, chain@.len() as int);
                                let more = visited.insert(i as int);
                                assert(!visited.contains(i as int));
                                assert(more.subset_of(all));
                                vstd::set_lib::lemma_len_subset(more, all);
                                assert(false);
                            }
                            done = true;
                        } else {
                            let ghost m0 = m@;
                            proof {
                                lemma_version_index_found(chain@, cur@);
                                lemma_reaches_step(chain@, root, cur@, depth, i as int, nb);
                                assert(!visited.contains(i as int));
                                assert(visited.insert(i as int).subset_of(vstd::set_lib::set_int_range(0, chain@.len() as int)));
                            }
                            mark(&mut m, k, nb.as_str());
                            proof {
                                assert forall|k2: Seq<char>, h2: Seq<char>| #[trigger] is_marked(m@, k2, h2) implies rooted(chains, roots@, k2, h2) by {
                                    if !is_marked(m0, k2, h2) {
                                        assert(reaches(chain_of(chains, k2), roots@[r as int].1@, h2, depth + 1));
                                    }
                                }
                                assert forall|j: int| #[trigger] visited.insert(i as int).contains(j) implies chain@[j].hash@ != nb@ && is_marked(m@, k@, chain@[j].hash@) by {
                                    if j != i {
                                        assert(is_marked(m0, k@, chain@[j].hash@));
                                    }
                                }
                                visited = visited.insert(i as int);
                                depth = depth + 1;
                            }
                            cur = nb;
                            fuel = fuel - 1;
                        }
                    },
                },
            }
        }
        r += 1;
    }
    m
}

/// The versions of `chain` that `m` marks under key `k`, in order.
pub open spec fn kept(chain: Seq<Version>, m: Seq<(String, Vec<String>)>, k: Seq<char>) -> Seq<Version> {
    chain.filter(|v: Version| is_marked(m, k, v.hash@))
}

proof fn lemma_kept_index(chain: Seq<Version>, m: Seq<(String, Vec<String>)>, k: Seq<char>, h: Seq<char>)
    requires
        is_marked(m, k, h),
    ensures
        version_index(kept(chain, m, k), h) is Some <==> version_index(chain, h) is Some,
        version_index(chain, h) matches Some(i) ==> version_index(kept(chain, m, k), h) matches Some(j) && 0 <= j
            < kept(chain, m, k).len() && kept(chain, m, k)[j] == chain[i],
    decreases chain.len(),
{
    reveal(Seq::filter);
    if chain.len() > 0 {
        let rest = chain.drop_last();
        lemma_kept_index(rest, m, k, h);
        lemma_version_index_found(rest, h);
        lemma_version_index_found(chain, h);
        let kr = kept(rest, m, k);
        lemma_version_index_found(kr, h);
        if is_marked(m, k, chain.last().hash@) {
            assert(kept(chain, m, k) == kr.push(chain.last()));
            assert(kept(chain, m, k).drop_last() =~= kr);
        } else {
            assert(kept(chain, m, k) == kr);
            assert(chain.last().hash@ != h);
        }
    }
}

/// Sweeping with closed marks loses no base: when the marks are closed over patch bases, every
/// marked version present in its chain survives the sweep (the first version with that hash is
/// the same one as before), and when that version is a patch whose base was in the chain, the
/// base survives too, so the kept version can still be restored.
pub proof fn lemma_sweep_keeps_bases(chains: Seq<(String, Vec<Version>)>, m: Seq<(String, Vec<String>)>, k: Seq<char>, h: Seq<char>)
    requires
        closed(chains, m),
        is_marked(m, k, h),
        version_index(chain_of(chains, k), h) is Some,
    ensures
        version_index(kept(chain_of(chains, k), m, k), h) matches Some(j) && kept(chain_of(chains, k), m, k)[j]
            == chain_of(chains, k)[version_index(chain_of(chains, k), h)->0],
        chain_of(chains, k)[version_index(chain_of(chains, k), h)->0].base matches Some(b) ==> (version_index(
            chain_of(chains, k),
            b@,
        ) is Some ==> version_index(kept(chain_of(chains, k), m, k), b@) is Some),
{
    let chain = chain_of(chains, k);
    lemma_kept_index(chain, m, k, h);
    assert(closed_at(chains, m, k, h));
    let i = version_index(chain, h)->0;
    match chain[i].base {
        Some(b) => {
            assert(is_marked(m, k, b@));
            lemma_kept_index(chain, m, k, b@);
        },
        None => {},
    }
}

/// The marks of stream `k` are closed over the patch bases of `c`: the first version of `c`
/// holding a marked hash has its base marked.
pub open spec fn closed_in(c: Seq<Version>, m: Seq<(String, Vec<String>)>, k: Seq<char>) -> bool {
    forall|h: Seq<char>| #[trigger] is_marked(m, k, h) ==> match version_index(c, h) {
        Some(i) => match c[i].base {
            Some(b) => is_marked(m, k, b@),
            None => true,
        },
        None => true,
    }
}

proof fn lemma_kept_sound(c: Seq<Version>, m: Seq<(String, Vec<String>)>, k: Seq<char>, objects: Map<Seq<char>, Seq<u8>>, contents: Map<Seq<char>, Seq<u8>>)
    requires
        sound_chain(c, objects, contents),
        closed_in(c, m, k),
    ensures
        sound_chain(kept(c, m, k), objects, contents),
    decreases c.len(),
{
    reveal(Seq::filter);
    if c.len() > 0 {
        let n = c.len() as int;
        let c1 = c.drop_last();
        assert forall|i: int| 0 <= i < c1.len() implies crate::delta::sound_version(objects, contents, #[trigger] c1[i])
            && version_index(c1, c1[i].hash@) == Some(i) && match c1[i].base {
            Some(b) => version_index(c1.take(i), b@) is Some,
            None => true,
        } by {
            assert(c1[i] == c[i]);
            assert(c1.take(i) =~= c.take(i));
            assert(version_index(c, c[i].hash@) == Some(i));
        }
        assert forall|h: Seq<char>| #[trigger] is_marked(m, k, h) implies match version_index(c1, h) {
            Some(i) => match c1[i].base {
                Some(b) => is_marked(m, k, b@),
                None => true,
            },
            None => true,
        } by {
            if version_index(c1, h) is Some {
                assert(version_index(c, h) == version_index(c1, h));
                lemma_version_index_found(c1, h);
                assert(c1[version_index(c1, h)->0] == c[version_index(c1, h)->0]);
            }
        }
        lemma_kept_sound(c1, m, k, objects, contents);
        let kc1 = kept(c1, m, k);
        let v = c.last();
        if is_marked(m, k, v.hash@) {
            let kc = kept(c, m, k);
            assert(kc == kc1.push(v));
            assert(version_index(c, v.hash@) == Some(n - 1));
            lemma_version_index_found(c1, v.hash@);
            assert(version_index(c1, v.hash@) is None);
            lemma_kept_index(c1, m, k, v.hash@);
            assert(kc.drop_last() =~= kc1);
            assert(kc.take(kc1.len() as int) =~= kc1);
            match v.base {
                Some(b) => {
                    assert(is_marked(m, k, b@));
                    assert(c.take(n - 1) =~= c1);
                    lemma_kept_index(c1, m, k, b@);
                },
                None => {},
            }
            assert forall|i: int| 0 <= i < kc.len() implies crate::delta::sound_version(objects, contents, #[trigger] kc[i])
                && version_index(kc, kc[i].hash@) == Some(i) && match kc[i].base {
                Some(b) => version_index(kc.take(i), b@) is Some,
                None => true,
            } by {
                if i < kc1.len() {
                    assert(kc[i] == kc1[i]);
                    assert(kc.take(i) =~= kc1.take(i));
                    assert(version_index(kc1, kc1[i].hash@) == Some(i));
                }
            }
        } else {
            assert(kept(c, m, k) == kc1);
        }
    }
}

/// Every version that survives a collection still reads back: when the marks are closed over
/// patch bases and the chain was sound, a marked version the chain held has a restore path in
/// the swept chain, and the payloads along it rebuild exactly its stored content.
pub proof fn lemma_swept_reads_back(
    chains: Seq<(String, Vec<Version>)>,
    m: Seq<(String, Vec<String>)>,
    k: Seq<char>,
    h: Seq<char>,
    objects: Map<Seq<char>, Seq<u8>>,
    contents: Map<Seq<char>, Seq<u8>>,
)
    requires
        closed(chains, m),
        is_marked(m, k, h),
        version_index(chain_of(chains, k), h) is Some,
        sound_chain(chain_of(chains, k), objects, contents),
    ensures
        ({
            let kc = kept(chain_of(chains, k), m, k);
            walk(kc, h, kc.len()) matches Walk::Found(p) && contents.contains_key(h) && rebuilt(path_payloads(kc, objects, p))
                == contents[h] && well_made(path_payloads(kc, objects, p))
        }),
{
    let c = chain_of(chains, k);
    assert forall|x: Seq<char>| #[trigger] is_marked(m, k, x) implies match version_index(c, x) {
        Some(i) => match c[i].base {
            Some(b) => is_marked(m, k, b@),
            None => true,
        },
        None => true,
    } by {
        assert(closed_at(chains, m, k, x));
    }
    lemma_kept_sound(c, m, k, objects, contents);
    lemma_kept_index(c, m, k, h);
    lemma_read_back(kept(c, m, k), objects, contents, h);
}

/// What a sweep keeps: every chain cut down to its marked versions (chains left empty are
/// dropped), the object files those versions need, and how many versions go.
pub struct SweepPlan {
    pub chains: Chains,
    pub live_objects: Vec<String>,
    pub versions_removed: usize,
}

fn copy_marked(chain: &Vec<Version>, m: &Marked, k: &str) -> (r: (Vec<Version>, Vec<String>))
    requires
        keys_sorted(m@),
    ensures
        r.0@.len() == kept(chain@, m@, k@).len(),
        forall|i: int| 0 <= i < r.0@.len() ==> same_version(#[trigger] r.0@[i], kept(chain@, m@, k@)[i]),
        r.1@.len() == r.0@.len(),
        forall|i: int| 0 <= i < r.1@.len() ==> (#[trigger] r.1@[i])@ == r.0@[i].name(),
        r.0@.len() <= chain@.len(),
{
    let mut out: Vec<Version> = Vec::new();
    let mut names: Vec<String> = Vec::new();
    let mut i: usize = 0;
    while i < chain.len()
        invariant
            keys_sorted(m@),
            i <= chain.len(),
            out@.len() == kept(chain@.take(i as int), m@, k@).len(),
            forall|j: int| 0 <= j < out@.len() ==> same_version(#[trigger] out@[j], kept(chain@.take(i as int), m@, k@)[j]),
            names@.len() == out@.len(),
            forall|j: int| 0 <= j < names@.len() ==> (#[trigger] names@[j])@ == out@[j].name(),
            out@.len() <= i,
        decreases chain.len() - i,
    {
        let ghost before = out@;
        let ghost nb = names@;
        proof {
            assert(chain@.take(i + 1).drop_last() =~= chain@.take(i as int));
            reveal(Seq::filter);
        }
        if marked_exec(m, k, chain[i].hash.as_str()) {
            let v = copy_version(&chain[i]);
            names.push(v.object_name());
            out.push(v);
        }
        proof {
            assert forall|j: int| 0 <= j < out@.len() implies same_version(#[trigger] out@[j], kept(chain@.take(i + 1), m@, k@)[j]) by {
                if j < before.len() {
                    assert(out@[j] == before[j]);
                }
            }
            assert forall|j: int| 0 <= j < names@.len() implies (#[trigger] names@[j])@ == out@[j].name() by {
                if j < before.len() {
                    assert(names@[j] == nb[j]);
                    assert(out@[j] == before[j]);
                }
            }
        }
        i += 1;
    }
    proof {
        assert(chain@.take(chain@.len() as int) =~= chain@);
    }
    (out, names)
}

/// The object names the kept versions of the first `n` chains need, chain by chain.
pub open spec fn live_names(all: Seq<(String, Vec<Version>)>, m: Seq<(String, Vec<String>)>, n: int) -> Seq<Seq<char>>
    decreases n,
{
    if n <= 0 {
        Seq::empty()
    } else {
        live_names(all, m, n - 1) + kept(all[n - 1].1@, m, all[n - 1].0@).map_values(|v: Version| v.name())
    }
}

/// How many versions of the first `n` chains the marks drop.
pub open spec fn removed_upto(all: Seq<(String, Vec<Version>)>, m: Seq<(String, Vec<String>)>, n: int) -> int
    decreases n,
{
    if n <= 0 {
        0
    } else {
        removed_upto(all, m, n - 1) + all[n - 1].1@.len() - kept(all[n - 1].1@, m, all[n - 1].0@).len()
    }
}

/// The sweep of `store` that keeps exactly the versions `m` marks.
pub fn sweep_plan(store: &ChainStore, m: &Marked) -> (p: SweepPlan)
    requires
        store.wf(),
        keys_sorted(m@),
    ensures
        keys_sorted(p.chains.0@),
        forall|k: Seq<char>|
            match #[trigger] table_get(p.chains.0@, k) {
                Some(c) => c@.len() > 0 && c@.len() == kept(chain_of(store.chains.0@, k), m@, k).len() && forall|i: int|
                    0 <= i < c@.len() ==> same_version(#[trigger] c@[i], kept(chain_of(store.chains.0@, k), m@, k)[i]),
                None => kept(chain_of(store.chains.0@, k), m@, k).len() == 0,
            },
        p.live_objects@.map_values(|o: String| o@) == live_names(store.chains.0@, m@, store.chains.0@.len() as int),
        p.versions_removed == if removed_upto(store.chains.0@, m@, store.chains.0@.len() as int) > usize::MAX {
            usize::MAX as int
        } else {
            removed_upto(store.chains.0@, m@, store.chains.0@.len() as int)
        },
{
    let ghost all = store.chains.0@;
    let mut chains: Vec<(String, Vec<Version>)> = Vec::new();
    let mut live: Vec<String> = Vec::new();
    let mut removed: usize = 0;
    let mut i: usize = 0;
    while i < store.chains.0.len()
        invariant
            store.wf(),
            all == store.chains.0@,
            keys_sorted(m@),
            i <= all.len(),
            keys_sorted(chains@),
            forall|k: Seq<char>|
                match #[trigger] table_get(chains@, k) {
                    Some(c) => c@.len() > 0 && c@.len() == kept(chain_of(all, k), m@, k).len() && forall|x: int|
                        0 <= x < c@.len() ==> same_version(#[trigger] c@[x], kept(chain_of(all, k), m@, k)[x]),
                    None => (exists|t: int| 0 <= t < i && all[t].0@ == k) ==> kept(chain_of(all, k), m@, k).len() == 0,
                },
            removed_upto(all, m@, i as int) <= usize::MAX ==> removed == removed_upto(all, m@, i as int),
            removed_upto(all, m@, i as int) > usize::MAX ==> removed == usize::MAX,
            live@.map_values(|o: String| o@) == live_names(all, m@, i as int),
        decreases all.len() - i,
    {
        let key = &store.chains.0[i].0;
        let (kv, names) = copy_marked(&store.chains.0[i].1, m, key.as_str());
        proof {
            crate::assoc::lemma_table_get_at(all, i as int);
            assert(chain_of(all, key@) == all[i as int].1@);
        }
        let total = store.chains.0[i].1.len();
        let nkept = kv.len();
        let ghost kv_view = kv@;
        let ghost live0 = live@;
        push_copies(&mut live, &names);
        if kv.len() > 0 {
            let ghost c0 = chains@;
            let ghost kvv = kv;
            let k2 = key.clone();
            let ghost kk = k2;
            table_insert(&mut chains, k2, kv);
            proof {
                assert forall|k: Seq<char>| match #[trigger] table_get(chains@, k) {
                    Some(c) => c@.len() > 0 && c@.len() == kept(chain_of(all, k), m@, k).len() && forall|x: int|
                        0 <= x < c@.len() ==> same_version(#[trigger] c@[x], kept(chain_of(all, k), m@, k)[x]),
                    None => (exists|t: int| 0 <= t < i + 1 && all[t].0@ == k) ==> kept(chain_of(all, k), m@, k).len() == 0,
                } by {
                    lemma_table_get_put(c0, kk, kvv, k);
                    if k != kk@ {
                        if exists|t: int| 0 <= t < i + 1 && all[t].0@ == k {
                            let t = choose|t: int| 0 <= t < i + 1 && all[t].0@ == k;
                            assert(t < i);
                        }
                    }
                }
            }
        } else {
            proof {
                assert forall|k: Seq<char>| match #[trigger] table_get(chains@, k) {
                    Some(c) => c@.len() > 0 && c@.len() == kept(chain_of(all, k), m@, k).len() && forall|x: int|
                        0 <= x < c@.len() ==> same_version(#[trigger] c@[x], kept(chain_of(all, k), m@, k)[x]),
                    None => (exists|t: int| 0 <= t < i + 1 && all[t].0@ == k) ==> kept(chain_of(all, k), m@, k).len() == 0,
                } by {
                    if table_get(chains@, k) is None && exists|t: int| 0 <= t < i + 1 && all[t].0@ == k {
                        let t = choose|t: int| 0 <= t < i + 1 && all[t].0@ == k;
                        if t == i {
                        }
                    }
                }
            }
        }
        proof {
            let kk = kept(all[i as int].1@, m@, all[i as int].0@);
            assert(names@.map_values(|o: String| o@) =~= kk.map_values(|v: Version| v.name())) by {
                assert forall|x: int| 0 <= x < names@.len() implies names@[x]@ == kk[x].name() by {
                    assert(same_version(kv_view[x], kk[x]));
                }
            }
            assert(live@.map_values(|o: String| o@) =~= live0.map_values(|o: String| o@) + names@.map_values(|o: String| o@));
        }
        let gone = total - nkept;
        proof {
            assert(nkept == kept(all[i as int].1@, m@, all[i as int].0@).len());
            assert(total == all[i as int].1@.len());
            assert(removed_upto(all, m@, i + 1) == removed_upto(all, m@, i as int) + gone);
        }
        removed = if removed > usize::MAX - gone { usize::MAX } else { removed + gone };
        i += 1;
    }
    proof {
        assert(all.take(all.len() as int) =~= all);
        assert forall|k: Seq<char>| match #[trigger] table_get(chains@, k) {
            Some(c) => c@.len() > 0 && c@.len() == kept(chain_of(all, k), m@, k).len() && forall|x: int|
                0 <= x < c@.len() ==> same_version(#[trigger] c@[x], kept(chain_of(all, k), m@, k)[x]),
            None => kept(chain_of(all, k), m@, k).len() == 0,
        } by {
            if table_get(chains@, k) is None {
                if table_get(all, k) is Some {
                    crate::assoc::lemma_table_get_some(all, k);
                    let t = choose|t: int| 0 <= t < all.len() && (#[trigger] all[t]).0@ == k && all[t].1 == table_get(all, k)->0;
                    assert(all[t].0@ == k);
                } else {
                    assert(chain_of(all, k) =~= Seq::<Version>::empty());
                    assert(kept(chain_of(all, k), m@, k) =~= Seq::<Version>::empty()) by {
                        reveal(Seq::filter);
                    }
                }
            }
        }
    }
    SweepPlan { chains: Chains(chains), live_objects: live, versions_removed: removed }
}

/// The stream a file record's content lives in: `file:<path>`, or for a Krita document its
/// manifest stream `kra:<path>:manifest`.
pub open spec fn record_key(path: Seq<char>, is_kra: bool) -> Seq<char> {
    if is_kra {
        "kra:"@ + path + ":manifest"@
    } else {
        "file:"@ + path
    }
}

/// The stream key of a file record's content.
pub fn record_root(path: &str, is_kra: bool) -> (k: String)
    ensures
        k@ == record_key(path@, is_kra),
{
    proof {
        reveal_strlit("kra:");
        reveal_strlit(":manifest");
        reveal_strlit("file:");
    }
    if is_kra {
        let mut k = String::from_str("kra:");
        k.append(path);
        k.append(":manifest");
        k
    } else {
        let mut k = String::from_str("file:");
        k.append(path);
        k
    }
}

/// Whether record `f` is a live root: it has content and belongs to a commit in `reach` or to a
/// stash.
pub open spec fn live_record(repo: Repo, reach: Seq<String>, f: CommittedFile) -> bool {
    f.content is Some && ((exists|c: int, j: int|
        0 <= c < repo.commits@.len() && text_set(reach).contains(repo.commits@[c].id@) && 0 <= j
            < repo.commits@[c].files@.len() && #[trigger] repo.commits@[c].files@[j] == f) || (exists|s: int, j: int|
        0 <= s < repo.stashes.stashes@.len() && 0 <= j < repo.stashes.stashes@[s].files@.len()
            && #[trigger] repo.stashes.stashes@[s].files@[j] == f))
}

/// Whether root entry `e` is the one file record `f` yields.
pub open spec fn root_of(e: (String, String, String, bool), f: CommittedFile) -> bool {
    f.content is Some && e.0@ == record_key(f.path@, f.is_kra) && e.1@ == f.content->0@ && e.2@ == f.path@
        && e.3 == f.is_kra
}

/// Whether root entry `e` is yielded by one of `files`.
pub open spec fn from_files(e: (String, String, String, bool), files: Seq<CommittedFile>) -> bool {
    exists|j: int| 0 <= j < files.len() && #[trigger] root_of(e, files[j])
}

/// Whether root entry `e` is yielded by a live record of `repo`.
pub open spec fn from_live(repo: Repo, reach: Seq<String>, e: (String, String, String, bool)) -> bool {
    exists|f: CommittedFile| #[trigger] live_record(repo, reach, f) && root_of(e, f)
}

fn push_roots(out: &mut Vec<(String, String, String, bool)>, files: &Vec<CommittedFile>)
    ensures
        old(out)@.len() <= final(out)@.len() <= old(out)@.len() + files@.len(),
        forall|i: int| old(out)@.len() <= i < final(out)@.len() ==> from_files(#[trigger] final(out)@[i], files@),
        forall|i: int| 0 <= i < old(out)@.len() ==> #[trigger] final(out)@[i] == old(out)@[i],
        forall|j: int|
            0 <= j < files@.len() && (#[trigger] files@[j]).content is Some ==> exists|i: int|
                old(out)@.len() <= i < final(out)@.len() && final(out)@[i].0@ == record_key(files@[j].path@, files@[j].is_kra)
                    && final(out)@[i].1@ == files@[j].content->0@ && final(out)@[i].2@ == files@[j].path@
                    && final(out)@[i].3 == files@[j].is_kra,
{
    let ghost start = out@;
    let mut j: usize = 0;
    while j < files.len()
        invariant
            j <= files@.len(),
            out@.len() <= start.len() + j,
            start.len() <= out@.len(),
            forall|i: int| start.len() <= i < out@.len() ==> from_files(#[trigger] out@[i], files@),
            forall|i: int| 0 <= i < start.len() ==> #[trigger] out@[i] == start[i],
            forall|t: int|
                0 <= t < j && (#[trigger] files@[t]).content is Some ==> exists|i: int|
                    start.len() <= i < out@.len() && out@[i].0@ == record_key(files@[t].path@, files@[t].is_kra)
                        && out@[i].1@ == files@[t].content->0@ && out@[i].2@ == files@[t].path@ && out@[i].3 == files@[t].is_kra,
        decreases files@.len() - j,
    {
        let f = &files[j];
        let ghost before = out@;
        match &f.content {
            Some(c) => {
                let k = record_root(f.path.as_str(), f.is_kra);
                out.push((k, c.clone(), f.path.clone(), f.is_kra));
            },
            None => {},
        }
        proof {
            assert forall|t: int|
                0 <= t < j + 1 && (#[trigger] files@[t]).content is Some implies exists|i: int|
                    start.len() <= i < out@.len() && out@[i].0@ == record_key(files@[t].path@, files@[t].is_kra)
                        && out@[i].1@ == files@[t].content->0@ && out@[i].2@ == files@[t].path@ && out@[i].3 == files@[t].is_kra by {
                if t < j {
                    let i = choose|i: int| start.len() <= i < before.len() && before[i].0@ == record_key(files@[t].path@, files@[t].is_kra)
                        && before[i].1@ == files@[t].content->0@ && before[i].2@ == files@[t].path@ && before[i].3 == files@[t].is_kra;
                    assert(out@[i] == before[i]);
                } else {
                    assert(out@[before.len() as int].0@ == record_key(files@[t].path@, files@[t].is_kra));
                }
            }
            assert forall|i: int| 0 <= i < start.len() implies #[trigger] out@[i] == start[i] by {
                assert(out@[i] == before[i]);
            }
            assert forall|i: int| start.len() <= i < out@.len() implies from_files(#[trigger] out@[i], files@) by {
                if i < before.len() {
                    assert(out@[i] == before[i]);
                } else {
                    assert(root_of(out@[i], files@[j as int]));
                }
            }
        }
        j += 1;
    }
}

/// The live roots of a repository: for every record with content of a commit in `reach` or of a
/// stash, `(stream key, content hash, path, is_kra)`. A Krita document's manifest references
/// further streams, which the caller reads from the manifest and adds to the roots.
pub fn live_roots(repo: &Repo, reach: &Vec<String>) -> (r: Vec<(String, String, String, bool)>)
    ensures
        forall|f: CommittedFile| live_record(*repo, reach@, f) ==> exists|i: int|
            0 <= i < r@.len() && r@[i].0@ == record_key(f.path@, f.is_kra) && r@[i].1@ == f.content->0@
                && #[trigger] r@[i].2@ == f.path@ && r@[i].3 == f.is_kra,
        forall|i: int| 0 <= i < r@.len() ==> from_live(*repo, reach@, #[trigger] r@[i]),
{
    let mut out: Vec<(String, String, String, bool)> = Vec::new();
    let mut c: usize = 0;
    while c < repo.commits.len()
        invariant
            c <= repo.commits@.len(),
            forall|i: int| 0 <= i < out@.len() ==> from_live(*repo, reach@, #[trigger] out@[i]),
            forall|cc: int, j: int|
                0 <= cc < c && text_set(reach@).contains(repo.commits@[cc].id@) && 0 <= j < repo.commits@[cc].files@.len()
                    && (#[trigger] repo.commits@[cc].files@[j]).content is Some ==> exists|i: int|
                    0 <= i < out@.len() && out@[i].0@ == record_key(repo.commits@[cc].files@[j].path@, repo.commits@[cc].files@[j].is_kra)
                        && out@[i].1@ == repo.commits@[cc].files@[j].content->0@ && out@[i].2@ == repo.commits@[cc].files@[j].path@
                        && out@[i].3 == repo.commits@[cc].files@[j].is_kra,
        decreases repo.commits@.len() - c,
    {
        let ghost before = out@;
        if contains_text(reach, repo.commits[c].id.as_str()) {
            push_roots(&mut out, &repo.commits[c].files);
            proof {
                assert forall|i: int| 0 <= i < out@.len() implies from_live(*repo, reach@, #[trigger] out@[i]) by {
                    if i < before.len() {
                        assert(out@[i] == before[i]);
                    } else {
                        assert(from_files(out@[i], repo.commits@[c as int].files@));
                        let j = choose|j: int| 0 <= j < repo.commits@[c as int].files@.len() && #[trigger] root_of(out@[i], repo.commits@[c as int].files@[j]);
                        let f = repo.commits@[c as int].files@[j];
                        assert(repo.commits@[c as int].files@[j] == f);
                        assert(live_record(*repo, reach@, f));
                    }
                }
            }
        }
        proof {
            assert forall|cc: int, j: int|
                0 <= cc < c + 1 && text_set(reach@).contains(repo.commits@[cc].id@) && 0 <= j < repo.commits@[cc].files@.len()
                    && (#[trigger] repo.commits@[cc].files@[j]).content is Some implies exists|i: int|
                    0 <= i < out@.len() && out@[i].0@ == record_key(repo.commits@[cc].files@[j].path@, repo.commits@[cc].files@[j].is_kra)
                        && out@[i].1@ == repo.commits@[cc].files@[j].content->0@ && out@[i].2@ == repo.commits@[cc].files@[j].path@
                        && out@[i].3 == repo.commits@[cc].files@[j].is_kra by {
                if cc < c {
                    let f = repo.commits@[cc].files@[j];
                    let i = choose|i: int| 0 <= i < before.len() && before[i].0@ == record_key(f.path@, f.is_kra)
                        && before[i].1@ == f.content->0@ && before[i].2@ == f.path@ && before[i].3 == f.is_kra;
                    assert(out@[i] == before[i]);
                } else {
                    let ghost id = repo.commits@[cc].id@;
                    assert(text_set(reach@).contains(id));
                    let k = choose|k: int| 0 <= k < reach@.len() && (#[trigger] reach@[k])@ == id;
                    assert(exists|k: int| 0 <= k < reach@.len() && (#[trigger] reach@[k])@ == repo.commits@[c as int].id@);
                }
            }
        }
        c += 1;
    }
    let ghost mid = out@;
    let mut s: usize = 0;
    while s < repo.stashes.stashes.len()
        invariant
            s <= repo.stashes.stashes@.len(),
            mid.len() <= out@.len(),
            forall|i: int| 0 <= i < out@.len() ==> from_live(*repo, reach@, #[trigger] out@[i]),
            forall|i: int| 0 <= i < mid.len() ==> #[trigger] out@[i] == mid[i],
            forall|ss: int, j: int|
                0 <= ss < s && 0 <= j < repo.stashes.stashes@[ss].files@.len()
                    && (#[trigger] repo.stashes.stashes@[ss].files@[j]).content is Some ==> exists|i: int|
                    0 <= i < out@.len() && out@[i].0@ == record_key(repo.stashes.stashes@[ss].files@[j].path@, repo.stashes.stashes@[ss].files@[j].is_kra)
                        && out@[i].1@ == repo.stashes.stashes@[ss].files@[j].content->0@ && out@[i].2@ == repo.stashes.stashes@[ss].files@[j].path@
                        && out@[i].3 == repo.stashes.stashes@[ss].files@[j].is_kra,
        decreases repo.stashes.stashes@.len() - s,
    {
        let ghost before = out@;
        push_roots(&mut out, &repo.stashes.stashes[s].files);
        proof {
            assert forall|i: int| 0 <= i < out@.len() implies from_live(*repo, reach@, #[trigger] out@[i]) by {
                if i < before.len() {
                    assert(out@[i] == before[i]);
                } else {
                    assert(from_files(out@[i], repo.stashes.stashes@[s as int].files@));
                    let j = choose|j: int| 0 <= j < repo.stashes.stashes@[s as int].files@.len() && #[trigger] root_of(out@[i], repo.stashes.stashes@[s as int].files@[j]);
                    let f = repo.stashes.stashes@[s as int].files@[j];
                    assert(repo.stashes.stashes@[s as int].files@[j] == f);
                    assert(live_record(*repo, reach@, f));
                }
            }
            assert forall|ss: int, j: int|
                0 <= ss < s + 1 && 0 <= j < repo.stashes.stashes@[ss].files@.len()
                    && (#[trigger] repo.stashes.stashes@[ss].files@[j]).content is Some implies exists|i: int|
                    0 <= i < out@.len() && out@[i].0@ == record_key(repo.stashes.stashes@[ss].files@[j].path@, repo.stashes.stashes@[ss].files@[j].is_kra)
                        && out@[i].1@ == repo.stashes.stashes@[ss].files@[j].content->0@ && out@[i].2@ == repo.stashes.stashes@[ss].files@[j].path@
                        && out@[i].3 == repo.stashes.stashes@[ss].files@[j].is_kra by {
                if ss < s {
                    let f = repo.stashes.stashes@[ss].files@[j];
                    let i = choose|i: int| 0 <= i < before.len() && before[i].0@ == record_key(f.path@, f.is_kra)
                        && before[i].1@ == f.content->0@ && before[i].2@ == f.path@ && before[i].3 == f.is_kra;
                    assert(out@[i] == before[i]);
                }
            }
            assert forall|i: int| 0 <= i < mid.len() implies #[trigger] out@[i] == mid[i] by {
                assert(out@[i] == before[i]);
            }
        }
        s += 1;
    }
    proof {
        assert forall|f: CommittedFile| live_record(*repo, reach@, f) implies exists|i: int|
            0 <= i < out@.len() && out@[i].0@ == record_key(f.path@, f.is_kra) && out@[i].1@ == f.content->0@
                && #[trigger] out@[i].2@ == f.path@ && out@[i].3 == f.is_kra by {
            if exists|c: int, j: int|
                0 <= c < repo.commits@.len() && text_set(reach@).contains(repo.commits@[c].id@) && 0 <= j
                    < repo.commits@[c].files@.len() && #[trigger] repo.commits@[c].files@[j] == f {
                let (c, j) = choose|c: int, j: int|
                    0 <= c < repo.commits@.len() && text_set(reach@).contains(repo.commits@[c].id@) && 0 <= j
                        < repo.commits@[c].files@.len() && #[trigger] repo.commits@[c].files@[j] == f;
                let i = choose|i: int| 0 <= i < mid.len() && mid[i].0@ == record_key(f.path@, f.is_kra)
                    && mid[i].1@ == f.content->0@ && mid[i].2@ == f.path@ && mid[i].3 == f.is_kra;
                assert(out@[i] == mid[i]);
            } else {
                let (s2, j) = choose|s2: int, j: int|
                    0 <= s2 < repo.stashes.stashes@.len() && 0 <= j < repo.stashes.stashes@[s2].files@.len()
                        && #[trigger] repo.stashes.stashes@[s2].files@[j] == f;
                assert(repo.stashes.stashes@[s2].files@[j].content is Some);
            }
        }
    }
    out
}

/// Drop every commit not in `reach` from the log (marking the log for a full rewrite), keeping
/// the others in order. Returns how many were dropped.
pub fn drop_unreachable(repo: &mut Repo, reach: &Vec<String>) -> (n: usize)
    requires
        old(repo).wf(),
    ensures
        final(repo).wf(),
        final(repo).commits@ == old(repo).commits@.filter(|c: crate::repo::Commit| text_set(reach@).contains(c.id@)),
        n == old(repo).commits@.len() - final(repo).commits@.len(),
        final(repo).commits_rewrite,
        final(repo).branches == old(repo).branches,
        final(repo).index == old(repo).index,
        final(repo).chains == old(repo).chains,
        final(repo).stashes == old(repo).stashes,
        final(repo).root == old(repo).root,
        final(repo).config == old(repo).config,
{
    let ghost cs = repo.commits@;
    let mut kept: Vec<crate::repo::Commit> = Vec::new();
    let n = repo.commits.len();
    let mut i: usize = 0;
    let mut all: Vec<crate::repo::Commit> = Vec::new();
    std::mem::swap(&mut all, &mut repo.commits);
    proof {
        assert(all@ == cs);
    }
    let mut dropped: usize = 0;
    while i < n
        invariant
            n == cs.len(),
            i <= n,
            all@.len() == n - i,
            forall|k: int| 0 <= k < all@.len() ==> all@[k] == cs[i + k],
            kept@ == cs.take(i as int).filter(|c: crate::repo::Commit| text_set(reach@).contains(c.id@)),
            dropped + kept@.len() == i,
        decreases n - i,
    {
        let c = all.remove(0);
        proof {
            assert(c == cs[i as int]);
            assert(cs.take(i + 1).drop_last() =~= cs.take(i as int));
            reveal(Seq::filter);
        }
        if contains_text(reach, c.id.as_str()) {
            kept.push(c);
        } else {
            dropped += 1;
        }
        i += 1;
    }
    proof {
        assert(cs.take(n as int) =~= cs);
    }
    repo.commits = kept;
    repo.note_commits_truncated();
    dropped
}

/// The object files a cleanup moves out of the store: the positions, in order, of the names in
/// `files` that no live version needs.
pub open spec fn victims_spec(files: Seq<String>, live: Seq<String>) -> Seq<int>
    decreases files.len(),
{
    if files.len() == 0 {
        Seq::empty()
    } else {
        let rest = victims_spec(files.drop_last(), live);
        if text_set(live).contains(files.last()@) {
            rest
        } else {
            rest.push(files.len() - 1)
        }
    }
}

/// The positions of the object files (by file name) that no live version needs (see
/// [`victims_spec`]).
pub fn victims(files: &Vec<String>, live: &Vec<String>) -> (r: Vec<usize>)
    ensures
        r@.map_values(|i: usize| i as int) == victims_spec(files@, live@),
{
    let mut out: Vec<usize> = Vec::new();
    let mut i: usize = 0;
    while i < files.len()
        invariant
            i <= files@.len(),
            out@.map_values(|j: usize| j as int) == victims_spec(files@.take(i as int), live@),
        decreases files@.len() - i,
    {
        proof {
            assert(files@.take(i + 1).drop_last() =~= files@.take(i as int));
            assert(files@.take(i + 1).last() == files@[i as int]);
        }
        let ghost before = out@;
        if !contains_text(live, files[i].as_str()) {
            out.push(i);
            assert(out@.map_values(|j: usize| j as int) =~= before.map_values(|j: usize| j as int).push(i as int));
        }
        i += 1;
    }
    proof {
        assert(files@.take(files@.len() as int) =~= files@);
    }
    out
}

/// How many commits a cleanup would drop: those not in `reach`.
pub fn unreachable_count(repo: &Repo, reach: &Vec<String>) -> (n: usize)
    ensures
        n == repo.commits@.filter(|c: crate::repo::Commit| !text_set(reach@).contains(c.id@)).len(),
{
    let ghost pred = |c: crate::repo::Commit| !text_set(reach@).contains(c.id@);
    let mut n: usize = 0;
    let mut i: usize = 0;
    while i < repo.commits.len()
        invariant
            i <= repo.commits@.len(),
            pred == (|c: crate::repo::Commit| !text_set(reach@).contains(c.id@)),
            n == repo.commits@.take(i as int).filter(pred).len(),
            n <= i,
        decreases repo.commits@.len() - i,
    {
        proof {
            reveal(Seq::filter);
            assert(repo.commits@.take(i + 1).drop_last() =~= repo.commits@.take(i as int));
            assert(repo.commits@.take(i + 1).last() == repo.commits@[i as int]);
        }
        if !contains_text(reach, repo.commits[i].id.as_str()) {
            n += 1;
        }
        i += 1;
    }
    proof {
        assert(repo.commits@.take(repo.commits@.len() as int) =~= repo.commits@);
    }
    n
}

} // verus!
