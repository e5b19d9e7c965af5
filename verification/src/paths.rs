//! Where a repository keeps its state, and the one gate through which a repository-relative
//! path becomes a path on disk.
//!
//! Paths are `/`-separated text. Joining follows the platform's path rules for a relative
//! component: a separator goes between the two parts unless the left one is empty or already
//! ends in one.

use crate::error::KvcError;
use crate::text::{chars_of, string_of_chars};
use vstd::prelude::*;

verus! {

/// `base` joined with one relative component.
pub open spec fn join_seg(base: Seq<char>, seg: Seq<char>) -> Seq<char> {
    if base.len() == 0 || base.last() == '/' {
        base + seg
    } else {
        base.push('/') + seg
    }
}

/// Reading `s` left to right and cutting at each `/`: the segments already closed and the one
/// still open.
pub open spec fn split_state(s: Seq<char>) -> (Seq<Seq<char>>, Seq<char>)
    decreases s.len(),
{
    if s.len() == 0 {
        (Seq::empty(), Seq::empty())
    } else {
        let (done, cur) = split_state(s.drop_last());
        if s.last() == '/' {
            (done.push(cur), Seq::empty())
        } else {
            (done, cur.push(s.last()))
        }
    }
}

/// The pieces of `s` between separators, empty ones included.
pub open spec fn segments(s: Seq<char>) -> Seq<Seq<char>> {
    split_state(s).0.push(split_state(s).1)
}

/// A piece that names nothing: empty (a doubled or trailing separator) or `.`.
pub open spec fn is_skipped(seg: Seq<char>) -> bool {
    seg.len() == 0 || seg == seq!['.']
}

/// The parent-directory piece `..`.
pub open spec fn is_parent(seg: Seq<char>) -> bool {
    seg == seq!['.', '.']
}

/// `base` with every naming piece of `segs` joined on, in order.
pub open spec fn join_all(base: Seq<char>, segs: Seq<Seq<char>>) -> Seq<char>
    decreases segs.len(),
{
    if segs.len() == 0 {
        base
    } else {
        let b = join_all(base, segs.drop_last());
        if is_skipped(segs.last()) {
            b
        } else {
            join_seg(b, segs.last())
        }
    }
}

/// A character that Windows reads as a separator or a drive/stream marker: `\\` or `:`.
pub open spec fn is_foreign_mark(c: char) -> bool {
    c == '\\' || c == ':'
}

/// A repository-relative path that stays inside the repository: not empty, not absolute, not
/// led by a `.` component, with no `..` component anywhere, and, on a platform where `\\`
/// separates components (`windows`), free of `\\` and `:`, which there would make separators,
/// drive or UNC prefixes. Elsewhere both are ordinary characters of a name.
pub open spec fn safe_rel(rel: Seq<char>, windows: bool) -> bool {
    &&& rel.len() > 0
    &&& windows ==> forall|i: int| 0 <= i < rel.len() ==> !is_foreign_mark(#[trigger] rel[i])
    &&& rel[0] != '/'
    &&& segments(rel)[0] != seq!['.']
    &&& forall|i: int| 0 <= i < segments(rel).len() ==> !is_parent(#[trigger] segments(rel)[i])
}

/// What joining `rel` onto `root` gives on a platform of the given kind: the joined path, or
/// `BadPath` naming `rel`.
pub open spec fn joined_on(root: Seq<char>, rel: Seq<char>, windows: bool, r: Result<String, KvcError>) -> bool {
    &&& safe_rel(rel, windows) ==> (r matches Ok(p) && p@ == join_all(root, segments(rel)))
    &&& !safe_rel(rel, windows) ==> (r matches Err(e) && e matches KvcError::BadPath(m) && m@ == rel)
}

/// `std::path::is_separator('\\')`: whether a backslash separates path components on this
/// platform. Nothing is stated of the answer, which depends on the platform built for.
#[verifier::external_body]
pub(crate) fn backslash_separates() -> (r: bool) {
    std::path::is_separator('\\')
}

fn push_seg(out: &mut Vec<char>, seg: &Vec<char>)
    ensures
        final(out)@ == join_seg(old(out)@, seg@),
{
    if out.len() > 0 && out[out.len() - 1] != '/' {
        out.push('/');
    }
    let ghost start = out@;
    let mut i: usize = 0;
    while i < seg.len()
        invariant
            i <= seg.len(),
            out@ == start + seg@.take(i as int),
        decreases seg.len() - i,
    {
        out.push(seg[i]);
        i += 1;
        proof {
            assert(seg@.take(i as int) =~= seg@.take(i - 1).push(seg@[i - 1]));
        }
    }
    proof {
        assert(seg@.take(seg@.len() as int) =~= seg@);
    }
}

fn is_dot(seg: &Vec<char>) -> (r: bool)
    ensures
        r == (seg@ == seq!['.']),
{
    let r = seg.len() == 1 && seg[0] == '.';
    proof {
        if seg@.len() == 1 && seg@[0] == '.' {
            assert(seg@ =~= seq!['.']);
        }
    }
    r
}

fn is_dot_dot(seg: &Vec<char>) -> (r: bool)
    ensures
        r == is_parent(seg@),
{
    let r = seg.len() == 2 && seg[0] == '.' && seg[1] == '.';
    proof {
        if seg@.len() == 2 && seg@[0] == '.' && seg@[1] == '.' {
            assert(seg@ =~= seq!['.', '.']);
        }
    }
    r
}

fn has_foreign_mark(cs: &Vec<char>) -> (r: bool)
    ensures
        r == exists|i: int| 0 <= i < cs@.len() && is_foreign_mark(#[trigger] cs@[i]),
{
    let mut i: usize = 0;
    while i < cs.len()
        invariant
            i <= cs.len(),
            forall|j: int| 0 <= j < i ==> !is_foreign_mark(#[trigger] cs@[j]),
        decreases cs.len() - i,
    {
        if cs[i] == '\\' || cs[i] == ':' {
            assert(is_foreign_mark(cs@[i as int]));
            return true;
        }
        i += 1;
    }
    false
}

/// Join a repository-relative path onto `root` on a platform of the given kind, refusing
/// anything that could escape the repository there: an empty path, an absolute one, one led by
/// `.`, one with a `..` component, and on Windows one holding `\\` or `:`. Empty pieces and
/// inner `.` pieces name nothing and are dropped.
pub fn safe_join_on(root: &str, rel: &str, windows: bool) -> (r: Result<String, KvcError>)
    ensures
        joined_on(root@, rel@, windows, r),
{
    let cs = chars_of(rel);
    if cs.len() == 0 || cs[0] == '/' || (windows && has_foreign_mark(&cs)) {
        return Err(KvcError::BadPath(String::from_str(rel)));
    }
    let mut out = chars_of(root);
    let mut cur: Vec<char> = Vec::new();
    let mut bad = false;
    let mut lead_dot = false;
    let mut closed: usize = 0;
    let mut i: usize = 0;
    while i < cs.len()
        invariant
            cs@ == rel@,
            i <= cs.len(),
            closed == split_state(cs@.take(i as int)).0.len(),
            closed <= i,
            cur@ == split_state(cs@.take(i as int)).1,
            out@ == join_all(root@, split_state(cs@.take(i as int)).0),
            bad <==> exists|j: int|
                0 <= j < split_state(cs@.take(i as int)).0.len() && is_parent(
                    #[trigger] split_state(cs@.take(i as int)).0[j],
                ),
            split_state(cs@.take(i as int)).0.len() > 0 ==> (lead_dot <==> split_state(
                cs@.take(i as int),
            ).0[0] == seq!['.']),
            split_state(cs@.take(i as int)).0.len() == 0 ==> !lead_dot,
        decreases cs.len() - i,
    {
        let c = cs[i];
        let ghost p = cs@.take(i as int);
        let ghost q = cs@.take(i + 1);
        proof {
            assert(q.drop_last() =~= p);
            assert(q.last() == c);
        }
        if c == '/' {
            let ghost done = split_state(p).0;
            if closed == 0 && is_dot(&cur) {
                lead_dot = true;
            }
            if is_dot_dot(&cur) {
                bad = true;
            }
            if !(cur.len() == 0 || is_dot(&cur)) {
                push_seg(&mut out, &cur);
            }
            proof {
                let nd = done.push(cur@);
                assert(split_state(q).0 == nd);
                assert(nd.drop_last() =~= done);
                assert(nd.last() == cur@);
                assert forall|j: int| 0 <= j < done.len() implies #[trigger] nd[j] == done[j] by {}
                if bad {
                    if !is_parent(cur@) {
                        let j = choose|j: int| 0 <= j < done.len() && is_parent(#[trigger] done[j]);
                        assert(nd[j] == done[j]);
                    } else {
                        assert(nd[done.len() as int] == cur@);
                    }
                }
                if exists|j: int| 0 <= j < nd.len() && is_parent(#[trigger] nd[j]) {
                    let j = choose|j: int| 0 <= j < nd.len() && is_parent(#[trigger] nd[j]);
                    if j < done.len() {
                        assert(done[j] == nd[j]);
                    }
                }
                if done.len() > 0 {
                    assert(nd[0] == done[0]);
                }
            }
            cur = Vec::new();
            closed += 1;
        } else {
            cur.push(c);
            proof {
                assert(split_state(q).0 == split_state(p).0);
            }
        }
        i += 1;
    }
    proof {
        assert(cs@.take(cs@.len() as int) =~= cs@);
    }
    let ghost done = split_state(rel@).0;
    let ghost segs = segments(rel@);
    proof {
        assert(segs.drop_last() =~= done);
        assert(segs.last() == cur@);
        assert forall|j: int| 0 <= j < done.len() implies #[trigger] segs[j] == done[j] by {}
    }
    if is_dot_dot(&cur) {
        bad = true;
    }
    if closed == 0 && is_dot(&cur) {
        lead_dot = true;
    }
    proof {
        if done.len() > 0 {
            assert(segs[0] == done[0]);
        } else {
            assert(segs[0] == cur@);
        }
        if bad {
            if is_parent(cur@) {
                assert(is_parent(segs[done.len() as int]));
            } else {
                let j = choose|j: int| 0 <= j < done.len() && is_parent(#[trigger] done[j]);
                assert(is_parent(segs[j]));
            }
        }
        if !bad {
            assert forall|j: int| 0 <= j < segs.len() implies !is_parent(#[trigger] segs[j]) by {
                if j < done.len() {
                    assert(segs[j] == done[j]);
                }
            }
        }
    }
    if bad || lead_dot {
        return Err(KvcError::BadPath(String::from_str(rel)));
    }
    if !(cur.len() == 0 || is_dot(&cur)) {
        push_seg(&mut out, &cur);
    }
    Ok(string_of_chars(out.as_slice()))
}

/// A joined path never leaves its base: the base is a prefix of it, and every piece added after
/// the base is one of `segs`' naming pieces, so with [`safe_rel`] none of them is `..`.
pub proof fn lemma_join_under_root(base: Seq<char>, segs: Seq<Seq<char>>)
    ensures
        join_all(base, segs).len() >= base.len(),
        join_all(base, segs).take(base.len() as int) == base,
    decreases segs.len(),
{
    if segs.len() > 0 {
        lemma_join_under_root(base, segs.drop_last());
        let b = join_all(base, segs.drop_last());
        let r = join_all(base, segs);
        if !is_skipped(segs.last()) {
            assert(r.take(b.len() as int) =~= b);
            assert(r.take(base.len() as int) =~= b.take(base.len() as int));
        }
    }
}

/// `root/.kvc`: the repository's state directory.
pub open spec fn kvc_dir_spec(root: Seq<char>) -> Seq<char> {
    join_seg(root, seq!['.', 'k', 'v', 'c'])
}

fn join_str(base: &str, seg: &str) -> (r: String)
    ensures
        r@ == join_seg(base@, seg@),
{
    let mut out = chars_of(base);
    let s = chars_of(seg);
    push_seg(&mut out, &s);
    string_of_chars(out.as_slice())
}

/// The repository's state directory under `root`.
pub fn kvc_dir(root: &str) -> (r: String)
    ensures
        r@ == kvc_dir_spec(root@),
{
    proof {
        reveal_strlit(".kvc");
    }
    join_str(root, ".kvc")
}

/// The content-addressed object store.
pub fn objects_dir(root: &str) -> (r: String)
    ensures
        r@ == join_seg(kvc_dir_spec(root@), seq!['o', 'b', 'j', 'e', 'c', 't', 's']),
{
    proof {
        reveal_strlit("objects");
    }
    let k = kvc_dir(root);
    join_str(k.as_str(), "objects")
}

/// The capped raster cache.
pub fn cache_dir(root: &str) -> (r: String)
    ensures
        r@ == join_seg(kvc_dir_spec(root@), seq!['c', 'a', 'c', 'h', 'e']),
{
    proof {
        reveal_strlit("cache");
    }
    let k = kvc_dir(root);
    join_str(k.as_str(), "cache")
}

/// The per-file chain shards.
pub fn chains_dir(root: &str) -> (r: String)
    ensures
        r@ == join_seg(kvc_dir_spec(root@), seq!['c', 'h', 'a', 'i', 'n', 's']),
{
    proof {
        reveal_strlit("chains");
    }
    let k = kvc_dir(root);
    join_str(k.as_str(), "chains")
}

/// Join a repository-relative path onto `root` under this platform's path rules (see
/// [`safe_join_on`]): a path safe on every platform is joined, one unsafe on every platform is
/// refused, and `\\` and `:` are refused exactly where the platform separates on `\\`.
pub fn safe_join(root: &str, rel: &str) -> (r: Result<String, KvcError>)
    ensures
        exists|windows: bool| joined_on(root@, rel@, windows, r),
        safe_rel(rel@, true) ==> (r matches Ok(p) && p@ == join_all(root@, segments(rel@))),
        !safe_rel(rel@, false) ==> (r matches Err(e) && e matches KvcError::BadPath(m) && m@ == rel@),
{
    let windows = backslash_separates();
    let r = safe_join_on(root, rel, windows);
    assert(joined_on(root@, rel@, windows, r));
    r
}

} // verus!
