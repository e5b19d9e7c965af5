//! Rebuilding a stored document: which archive entries can be copied from the working copy as
//! they are and which must be rebuilt from the store (reusing the working copy's unchanged
//! tiles), how a tiled entry is put back together from its tiles' streams, and how the rebuilt
//! entries are grouped so that only a bounded amount is held at once. Reading and writing the
//! archives is the caller's.

use crate::kra::{KraEntry, KraManifest, TileRef};
use crate::kra_store::{entry_crc_size, entry_path, last_entry};
use crate::raster::{tile_from_planar, tile_planar_spec};
use crate::text::str_eq;
use crate::tiles::{block_bytes, serialize, Tile, TileView, TiledBlock};
use vstd::prelude::*;

verus! {

/// How one entry of the target manifest reaches the output archive.
pub enum Plan {
    /// Copy the working archive's entry at this index as it is.
    Copy(usize),
    /// Rebuild from the store, lifting the tiles at these positions from the working copy.
    Build(Vec<(i64, i64)>),
}

/// A plan as plain values.
pub enum PlanView {
    Copy(int),
    Build(Seq<(i64, i64)>),
}

/// The plan as plain values.
pub open spec fn plan_view(p: Plan) -> PlanView {
    match p {
        Plan::Copy(i) => PlanView::Copy(i as int),
        Plan::Build(v) => PlanView::Build(v@),
    }
}

/// The first entry of the working archive's directory (name, crc32, size) named `path`.
pub open spec fn first_named(working: Seq<(String, u32, u64)>, path: Seq<char>) -> Option<int>
    decreases working.len(),
{
    if working.len() == 0 {
        None
    } else {
        match first_named(working.drop_last(), path) {
            Some(i) => Some(i),
            None => if working.last().0@ == path {
                Some(working.len() - 1)
            } else {
                None
            },
        }
    }
}

/// The working archive's entry that can stand in for `cur` (the current manifest's entry at
/// `path`): the one named `path`, when its crc32 and size are the ones `cur` recorded (a
/// record of `(0, 0)` predates crc recording and is never trusted).
pub open spec fn trusted_copy(cur: Option<KraEntry>, working: Seq<(String, u32, u64)>, path: Seq<char>) -> Option<int> {
    match cur {
        Some(c) => if entry_crc_size(c) == (0u32, 0u64) {
            None
        } else {
            match first_named(working, path) {
                Some(i) => if (working[i].1, working[i].2) == entry_crc_size(c) {
                    Some(i)
                } else {
                    None
                },
                None => None,
            }
        },
        None => None,
    }
}

/// A tile's identity for comparing two tilings: position, content hash and codec.
pub open spec fn tile_id(t: TileRef) -> (i64, i64, Seq<char>, Seq<char>) {
    (t.x, t.y, t.hash@, t.compression@)
}

/// How many tiles of `ts` have identity `id`.
pub open spec fn count_tile(ts: Seq<TileRef>, id: (i64, i64, Seq<char>, Seq<char>)) -> nat
    decreases ts.len(),
{
    if ts.len() == 0 {
        0
    } else {
        count_tile(ts.drop_last(), id) + if tile_id(ts.last()) == id { 1nat } else { 0nat }
    }
}

/// Two tilings hold the same tiles, whatever their order: as many tiles, and each tile of the
/// first as often in the second.
pub open spec fn same_tiles(a: Seq<TileRef>, b: Seq<TileRef>) -> bool {
    a.len() == b.len() && forall|i: int| 0 <= i < a.len() ==> count_tile(a, tile_id(#[trigger] a[i])) == count_tile(b, tile_id(a[i]))
}

/// Whether target entry `e` holds the same content as the current entry `cur`: the same raw
/// blob, the same composite pixels, or the same header and tiles.
pub open spec fn same_content(e: KraEntry, cur: Option<KraEntry>) -> bool {
    match (e, cur) {
        (KraEntry::Raw { blob, .. }, Some(KraEntry::Raw { blob: cb, .. })) => blob@ == cb@,
        (KraEntry::CompositePng { pixels_hash, .. }, Some(KraEntry::CompositePng { pixels_hash: cp, .. })) => pixels_hash@ == cp@,
        (KraEntry::Tiled { header, tiles, .. }, Some(KraEntry::Tiled { header: ch, tiles: ct, .. })) => header@ == ch@ && same_tiles(
            tiles@,
            ct@,
        ),
        _ => false,
    }
}

/// The current tiling's last tile at `(x, y)`.
pub open spec fn tile_at(ct: Seq<TileRef>, x: i64, y: i64) -> Option<TileRef>
    decreases ct.len(),
{
    if ct.len() == 0 {
        None
    } else if ct.last().x == x && ct.last().y == y {
        Some(ct.last())
    } else {
        tile_at(ct.drop_last(), x, y)
    }
}

/// The positions of the target tiles that the working copy already holds: the current tile at
/// the same position has the same content hash and the same stream form.
pub open spec fn reusable_tiles(ts: Seq<TileRef>, ct: Seq<TileRef>) -> Seq<(i64, i64)>
    decreases ts.len(),
{
    if ts.len() == 0 {
        Seq::empty()
    } else {
        let t = ts.last();
        let rest = reusable_tiles(ts.drop_last(), ct);
        if tile_at(ct, t.x, t.y) matches Some(c) && c.hash@ == t.hash@ && c.raw == t.raw {
            rest.push((t.x, t.y))
        } else {
            rest
        }
    }
}

/// The plan for target entry `e`: copied when it holds the current entry's content and the
/// working archive's entry can stand in for it; rebuilt otherwise, lifting the working copy's
/// unchanged tiles when both sides are tiled and the working entry can be trusted.
pub open spec fn plan_of(e: KraEntry, current: Seq<KraEntry>, working: Seq<(String, u32, u64)>) -> PlanView {
    let path = entry_path(e);
    let cur = last_entry(current, path);
    let copy = trusted_copy(cur, working, path);
    if same_content(e, cur) && copy is Some {
        PlanView::Copy(copy->0)
    } else {
        match (e, cur) {
            (KraEntry::Tiled { tiles, .. }, Some(KraEntry::Tiled { tiles: ct, .. })) => if copy is Some {
                PlanView::Build(reusable_tiles(tiles@, ct@))
            } else {
                PlanView::Build(Seq::empty())
            },
            _ => PlanView::Build(Seq::empty()),
        }
    }
}

fn path_of(e: &KraEntry) -> (r: &String)
    ensures
        r@ == entry_path(*e),
{
    match e {
        KraEntry::Raw { path, .. } => path,
        KraEntry::Tiled { path, .. } => path,
        KraEntry::CompositePng { path, .. } => path,
    }
}

fn crc_size_of(e: &KraEntry) -> (r: (u32, u64))
    ensures
        r == entry_crc_size(*e),
{
    match e {
        KraEntry::Raw { crc32, size, .. } => (*crc32, *size),
        KraEntry::Tiled { crc32, size, .. } => (*crc32, *size),
        KraEntry::CompositePng { crc32, size, .. } => (*crc32, *size),
    }
}

fn find_last(es: &Vec<KraEntry>, name: &str) -> (r: Option<usize>)
    ensures
        match r {
            Some(i) => i < es@.len() && last_entry(es@, name@) == Some(es@[i as int]),
            None => last_entry(es@, name@) is None,
        },
{
    let mut i: usize = es.len();
    assert(es@.take(i as int) =~= es@);
    while i > 0
        invariant
            i <= es@.len(),
            last_entry(es@, name@) == last_entry(es@.take(i as int), name@),
        decreases i,
    {
        proof {
            assert(es@.take(i as int).drop_last() =~= es@.take(i - 1));
            assert(es@.take(i as int).last() == es@[i - 1]);
        }
        if str_eq(path_of(&es[i - 1]).as_str(), name) {
            return Some(i - 1);
        }
        i -= 1;
    }
    proof {
        assert(es@.take(0) =~= Seq::<KraEntry>::empty());
    }
    None
}

fn find_named(working: &Vec<(String, u32, u64)>, path: &str) -> (r: Option<usize>)
    ensures
        match r {
            Some(i) => first_named(working@, path@) == Some(i as int) && i < working@.len(),
            None => first_named(working@, path@) is None,
        },
{
    let mut i: usize = 0;
    while i < working.len()
        invariant
            i <= working@.len(),
            first_named(working@.take(i as int), path@) is None,
        decreases working@.len() - i,
    {
        proof {
            assert(working@.take(i + 1).drop_last() =~= working@.take(i as int));
        }
        if str_eq(working[i].0.as_str(), path) {
            proof {
                lemma_first_named_prefix(working@, path@, i + 1);
            }
            return Some(i);
        }
        i += 1;
    }
    proof {
        assert(working@.take(working@.len() as int) =~= working@);
    }
    None
}

proof fn lemma_first_named_prefix(w: Seq<(String, u32, u64)>, path: Seq<char>, n: int)
    requires
        0 <= n <= w.len(),
        first_named(w.take(n), path) is Some,
    ensures
        first_named(w, path) == first_named(w.take(n), path),
    decreases w.len() - n,
{
    if n < w.len() {
        assert(w.take(n + 1).drop_last() =~= w.take(n));
        lemma_first_named_prefix(w, path, n + 1);
    } else {
        assert(w.take(n) =~= w);
    }
}

proof fn lemma_first_named_found(w: Seq<(String, u32, u64)>, path: Seq<char>)
    ensures
        first_named(w, path) matches Some(i) ==> 0 <= i < w.len() && w[i].0@ == path,
    decreases w.len(),
{
    if w.len() > 0 {
        lemma_first_named_found(w.drop_last(), path);
    }
}

proof fn lemma_last_entry_found(es: Seq<KraEntry>, name: Seq<char>)
    ensures
        last_entry(es, name) matches Some(c) ==> entry_path(c) == name,
    decreases es.len(),
{
    if es.len() > 0 {
        lemma_last_entry_found(es.drop_last(), name);
    }
}

/// Whether target entry `e` and current entry `c` record the same content: raw entries the same
/// stored blob, composites the same pixels, tiled entries the same header and the same tiles.
pub open spec fn content_matches(e: KraEntry, c: KraEntry) -> bool {
    match (e, c) {
        (KraEntry::Raw { blob, .. }, KraEntry::Raw { blob: cb, .. }) => blob@ == cb@,
        (KraEntry::CompositePng { pixels_hash, .. }, KraEntry::CompositePng { pixels_hash: cp, .. }) => pixels_hash@
            == cp@,
        (KraEntry::Tiled { header, tiles, .. }, KraEntry::Tiled { header: ch, tiles: ct, .. }) => header@ == ch@
            && same_tiles(tiles@, ct@),
        _ => false,
    }
}

/// A target entry is copied from the working archive only when the current manifest's entry at
/// the same path records the same content (for a raw entry, the same stored blob), and the
/// copied working entry carries that path and the crc32 and size the current entry recorded
/// (never the untrusted `(0, 0)`). Any other target entry is rebuilt from the store.
pub proof fn lemma_copy_needs_same_content(e: KraEntry, current: Seq<KraEntry>, working: Seq<(String, u32, u64)>)
    ensures
        plan_of(e, current, working) matches PlanView::Copy(i) ==> last_entry(current, entry_path(e)) matches Some(c) && {
            &&& content_matches(e, c)
            &&& entry_path(c) == entry_path(e)
            &&& 0 <= i < working.len()
            &&& working[i].0@ == entry_path(e)
            &&& (working[i].1, working[i].2) == entry_crc_size(c)
            &&& entry_crc_size(c) != (0u32, 0u64)
        },
        (last_entry(current, entry_path(e)) matches Some(c) && !content_matches(e, c)) ==> plan_of(e, current, working) is Build,
        last_entry(current, entry_path(e)) is None ==> plan_of(e, current, working) is Build,
{
    lemma_first_named_found(working, entry_path(e));
    lemma_last_entry_found(current, entry_path(e));
}

fn same_id(a: &TileRef, b: &TileRef) -> (r: bool)
    ensures
        r == (tile_id(*a) == tile_id(*b)),
{
    a.x == b.x && a.y == b.y && str_eq(a.hash.as_str(), b.hash.as_str()) && str_eq(a.compression.as_str(), b.compression.as_str())
}

fn count_of(ts: &Vec<TileRef>, t: &TileRef) -> (r: usize)
    ensures
        r == count_tile(ts@, tile_id(*t)),
{
    let mut n: usize = 0;
    let mut i: usize = 0;
    while i < ts.len()
        invariant
            i <= ts@.len(),
            n == count_tile(ts@.take(i as int), tile_id(*t)),
            n <= i,
        decreases ts@.len() - i,
    {
        proof {
            assert(ts@.take(i + 1).drop_last() =~= ts@.take(i as int));
        }
        if same_id(&ts[i], t) {
            n += 1;
        }
        i += 1;
    }
    proof {
        assert(ts@.take(ts@.len() as int) =~= ts@);
    }
    n
}

fn tiles_agree(a: &Vec<TileRef>, b: &Vec<TileRef>) -> (r: bool)
    ensures
        r == same_tiles(a@, b@),
{
    if a.len() != b.len() {
        return false;
    }
    let mut i: usize = 0;
    while i < a.len()
        invariant
            a@.len() == b@.len(),
            i <= a@.len(),
            forall|j: int| 0 <= j < i ==> count_tile(a@, tile_id(#[trigger] a@[j])) == count_tile(b@, tile_id(a@[j])),
        decreases a@.len() - i,
    {
        if count_of(a, &a[i]) != count_of(b, &a[i]) {
            return false;
        }
        i += 1;
    }
    true
}

fn same_content_exec(e: &KraEntry, cur: Option<&KraEntry>) -> (r: bool)
    ensures
        r == same_content(
            *e,
            match cur {
                Some(c) => Some(*c),
                None => None,
            },
        ),
{
    match (e, cur) {
        (KraEntry::Raw { blob, .. }, Some(KraEntry::Raw { blob: cb, .. })) => str_eq(blob.as_str(), cb.as_str()),
        (KraEntry::CompositePng { pixels_hash, .. }, Some(KraEntry::CompositePng { pixels_hash: cp, .. })) => str_eq(
            pixels_hash.as_str(),
            cp.as_str(),
        ),
        (KraEntry::Tiled { header, tiles, .. }, Some(KraEntry::Tiled { header: ch, tiles: ct, .. })) => str_eq(
            header.as_str(),
            ch.as_str(),
        ) && tiles_agree(tiles, ct),
        _ => false,
    }
}

fn find_tile_at(ct: &Vec<TileRef>, x: i64, y: i64) -> (r: Option<usize>)
    ensures
        match r {
            Some(i) => i < ct@.len() && tile_at(ct@, x, y) == Some(ct@[i as int]),
            None => tile_at(ct@, x, y) is None,
        },
{
    let mut i: usize = ct.len();
    assert(ct@.take(i as int) =~= ct@);
    while i > 0
        invariant
            i <= ct@.len(),
            tile_at(ct@, x, y) == tile_at(ct@.take(i as int), x, y),
        decreases i,
    {
        proof {
            assert(ct@.take(i as int).drop_last() =~= ct@.take(i - 1));
            assert(ct@.take(i as int).last() == ct@[i - 1]);
        }
        if ct[i - 1].x == x && ct[i - 1].y == y {
            return Some(i - 1);
        }
        i -= 1;
    }
    proof {
        assert(ct@.take(0) =~= Seq::<TileRef>::empty());
    }
    None
}

fn reusable(ts: &Vec<TileRef>, ct: &Vec<TileRef>) -> (r: Vec<(i64, i64)>)
    ensures
        r@ == reusable_tiles(ts@, ct@),
{
    let mut out: Vec<(i64, i64)> = Vec::new();
    let mut i: usize = 0;
    while i < ts.len()
        invariant
            i <= ts@.len(),
            out@ == reusable_tiles(ts@.take(i as int), ct@),
        decreases ts@.len() - i,
    {
        proof {
            assert(ts@.take(i + 1).drop_last() =~= ts@.take(i as int));
            assert(ts@.take(i + 1).last() == ts@[i as int]);
        }
        let t = &ts[i];
        match find_tile_at(ct, t.x, t.y) {
            Some(j) => {
                if str_eq(ct[j].hash.as_str(), t.hash.as_str()) && ct[j].raw == t.raw {
                    out.push((t.x, t.y));
                }
            },
            None => {},
        }
        i += 1;
    }
    proof {
        assert(ts@.take(ts@.len() as int) =~= ts@);
    }
    out
}

/// Plan the rebuild of `target` from the working copy, whose archive is known to match
/// `current` and whose directory lists `(name, crc32, size)` for each entry: one plan per target
/// entry, in order (see [`plan_of`]).
pub fn materialize_plan(target: &KraManifest, current: &KraManifest, working: &Vec<(String, u32, u64)>) -> (r: Vec<Plan>)
    ensures
        r@.len() == target.entries@.len(),
        forall|i: int| 0 <= i < r@.len() ==> plan_view(#[trigger] r@[i]) == plan_of(target.entries@[i], current.entries@, working@),
{
    let mut out: Vec<Plan> = Vec::new();
    let mut i: usize = 0;
    while i < target.entries.len()
        invariant
            i <= target.entries@.len(),
            out@.len() == i,
            forall|j: int| 0 <= j < i ==> plan_view(#[trigger] out@[j]) == plan_of(target.entries@[j], current.entries@, working@),
        decreases target.entries@.len() - i,
    {
        let e = &target.entries[i];
        let path = path_of(e);
        let cur: Option<&KraEntry> = match find_last(&current.entries, path.as_str()) {
            Some(k) => Some(&current.entries[k]),
            None => None,
        };
        let ghost cur_v: Option<KraEntry> = last_entry(current.entries@, entry_path(*e));
        assert(cur_v == match cur {
            Some(c) => Some(*c),
            None => None,
        });
        let copy: Option<usize> = match cur {
            Some(c) => {
                let cs = crc_size_of(c);
                if cs.0 == 0 && cs.1 == 0 {
                    None
                } else {
                    match find_named(working, path.as_str()) {
                        Some(k) => if working[k].1 == cs.0 && working[k].2 == cs.1 {
                            Some(k)
                        } else {
                            None
                        },
                        None => None,
                    }
                }
            },
            None => None,
        };
        assert(match copy {
            Some(k) => trusted_copy(cur_v, working@, entry_path(*e)) == Some(k as int),
            None => trusted_copy(cur_v, working@, entry_path(*e)) is None,
        });
        let p = if same_content_exec(e, cur) && copy.is_some() {
            Plan::Copy(copy.unwrap())
        } else {
            match (e, cur) {
                (KraEntry::Tiled { tiles, .. }, Some(KraEntry::Tiled { tiles: ct, .. })) => if copy.is_some() {
                    Plan::Build(reusable(tiles, ct))
                } else {
                    Plan::Build(Vec::new())
                },
                _ => Plan::Build(Vec::new()),
            }
        };
        proof {
            assert(plan_view(p) =~~= plan_of(*e, current.entries@, working@));
        }
        let ghost before = out@;
        out.push(p);
        proof {
            assert forall|j: int| 0 <= j < i + 1 implies plan_view(#[trigger] out@[j]) == plan_of(target.entries@[j], current.entries@, working@) by {
                if j < i {
                    assert(out@[j] == before[j]);
                }
            }
        }
        i += 1;
    }
    out
}

/// Whether `stored` is what goes back into a tiled entry for a tile whose stream held `data`:
/// the data itself, or, for a stream of planar pixels, a stored tile that decodes to them.
pub open spec fn tile_restored(raw: bool, data: Seq<u8>, stored: Seq<u8>) -> bool {
    if raw {
        tile_planar_spec(stored, data.len()) == Some(data) && stored.len() >= 1 && (stored[0] == 0 || stored[0] == 1)
    } else {
        stored == data
    }
}

/// The bytes of a tiled entry with header `header` and tiles `refs`, given each tile's stream
/// content `datas[i]` (in the same order): the block those tiles make, a planar-pixel stream
/// re-encoded as a stored tile.
pub fn assemble_tiled(header: &String, refs: &Vec<TileRef>, datas: &Vec<Vec<u8>>) -> (r: Vec<u8>)
    requires
        datas@.len() == refs@.len(),
    ensures
        exists|ts: Seq<TileView>| {
            &&& r@ == block_bytes(header@, ts)
            &&& ts.len() == refs@.len()
            &&& forall|i: int| 0 <= i < ts.len() ==> {
                &&& (#[trigger] ts[i]).0 == refs@[i].x as int
                &&& ts[i].1 == refs@[i].y as int
                &&& ts[i].2 == refs@[i].compression@
                &&& tile_restored(refs@[i].raw, datas@[i]@, ts[i].3)
            }
        },
{
    let mut tiles: Vec<Tile> = Vec::new();
    let mut i: usize = 0;
    while i < refs.len()
        invariant
            datas@.len() == refs@.len(),
            i <= refs@.len(),
            tiles@.len() == i,
            forall|j: int| 0 <= j < i ==> {
                &&& (#[trigger] tiles@[j]).x == refs@[j].x
                &&& tiles@[j].y == refs@[j].y
                &&& tiles@[j].compression@ == refs@[j].compression@
                &&& tile_restored(refs@[j].raw, datas@[j]@, tiles@[j].data@)
            },
        decreases refs@.len() - i,
    {
        let tr = &refs[i];
        let data = if tr.raw {
            tile_from_planar(datas[i].as_slice())
        } else {
            crate::raster::copy_slice(datas[i].as_slice())
        };
        let ghost before = tiles@;
        tiles.push(Tile { x: tr.x, y: tr.y, compression: tr.compression.clone(), data });
        proof {
            assert forall|j: int| 0 <= j < i + 1 implies {
                &&& (#[trigger] tiles@[j]).x == refs@[j].x
                &&& tiles@[j].y == refs@[j].y
                &&& tiles@[j].compression@ == refs@[j].compression@
                &&& tile_restored(refs@[j].raw, datas@[j]@, tiles@[j].data@)
            } by {
                if j < i {
                    assert(tiles@[j] == before[j]);
                }
            }
        }
        i += 1;
    }
    let block = TiledBlock { header: header.clone(), tiles };
    let out = serialize(&block);
    proof {
        let ts = block@.1;
        assert forall|i: int| 0 <= i < ts.len() implies {
            &&& (#[trigger] ts[i]).0 == refs@[i].x as int
            &&& ts[i].1 == refs@[i].y as int
            &&& ts[i].2 == refs@[i].compression@
            &&& tile_restored(refs@[i].raw, datas@[i]@, ts[i].3)
        } by {
            assert(ts[i] == block.tiles@[i]@);
        }
    }
    out
}

/// The in-flight budget of a restore: entries are rebuilt in groups of at most this many
/// uncompressed bytes (64 MiB).
pub const RESTORE_CHUNK_BUDGET: u64 = 67108864;

/// An entry's size for budgeting: its recorded size, at least 64 KiB (entries recorded without
/// a size count as 64 KiB).
pub open spec fn budget_size(size: u64) -> nat {
    if size < 65536 { 65536 } else { size as nat }
}

/// The sum of the budget sizes of `sizes[from..to]`.
pub open spec fn budget_sum(sizes: Seq<u64>, from: int, to: int) -> nat
    decreases to - from,
{
    if to <= from {
        0
    } else {
        budget_sum(sizes, from, to - 1) + budget_size(sizes[to - 1])
    }
}

/// Where the group starting at `from` ends: it takes entries while their budget sizes fit
/// [`RESTORE_CHUNK_BUDGET`] together, and always at least one.
pub open spec fn group_end(sizes: Seq<u64>, from: int, to: int) -> bool {
    &&& from < to <= sizes.len()
    &&& to == from + 1 || budget_sum(sizes, from, to) <= RESTORE_CHUNK_BUDGET
    &&& to == sizes.len() || budget_sum(sizes, from, to + 1) > RESTORE_CHUNK_BUDGET
}

/// Split entries with recorded sizes `sizes` into consecutive groups `[start, end)` to rebuild
/// one after another: each group takes entries in order while their budget sizes fit the
/// budget together, and always at least one, so the groups cover every entry once.
pub fn restore_chunks(sizes: &Vec<u64>) -> (r: Vec<(usize, usize)>)
    ensures
        r@.len() > 0 ==> r@[0].0 == 0 && r@.last().1 == sizes@.len(),
        sizes@.len() == 0 <==> r@.len() == 0,
        forall|k: int| 0 <= k < r@.len() ==> group_end(sizes@, (#[trigger] r@[k]).0 as int, r@[k].1 as int),
        forall|k: int| 0 <= k < r@.len() - 1 ==> (#[trigger] r@[k]).1 == r@[k + 1].0,
{
    let mut out: Vec<(usize, usize)> = Vec::new();
    let mut i: usize = 0;
    while i < sizes.len()
        invariant
            i <= sizes@.len(),
            out@.len() == 0 <==> i == 0,
            out@.len() > 0 ==> out@[0].0 == 0 && out@.last().1 == i,
            forall|k: int| 0 <= k < out@.len() ==> group_end(sizes@, (#[trigger] out@[k]).0 as int, out@[k].1 as int),
            forall|k: int| 0 <= k < out@.len() - 1 ==> (#[trigger] out@[k]).1 == out@[k + 1].0,
        decreases sizes@.len() - i,
    {
        let mut j: usize = i;
        let mut acc: u64 = 0;
        while j < sizes.len()
            invariant
                i <= j <= sizes@.len(),
                i < sizes@.len(),
                acc == budget_sum(sizes@, i as int, j as int),
                acc <= RESTORE_CHUNK_BUDGET || j == i + 1,
                j == i ==> acc == 0,
                acc <= RESTORE_CHUNK_BUDGET + 0xffff_ffff_ffff_ffff,
            ensures
                i < j <= sizes@.len(),
                j == i + 1 || budget_sum(sizes@, i as int, j as int) <= RESTORE_CHUNK_BUDGET,
                j == sizes@.len() || budget_sum(sizes@, i as int, j + 1) > RESTORE_CHUNK_BUDGET,
            decreases sizes@.len() - j,
        {
            let sz: u64 = if sizes[j] < 65536 { 65536 } else { sizes[j] };
            if j > i && acc as u128 + sz as u128 > RESTORE_CHUNK_BUDGET as u128 {
                break;
            }
            if j == i {
                acc = sz;
            } else {
                acc = acc + sz;
            }
            j += 1;
        }
        let ghost before = out@;
        out.push((i, j));
        proof {
            assert forall|k: int| 0 <= k < out@.len() implies group_end(sizes@, (#[trigger] out@[k]).0 as int, out@[k].1 as int) by {
                if k < before.len() {
                    assert(out@[k] == before[k]);
                }
            }
            assert forall|k: int| 0 <= k < out@.len() - 1 implies (#[trigger] out@[k]).1 == out@[k + 1].0 by {
                if k < before.len() - 1 {
                    assert(out@[k] == before[k]);
                    assert(out@[k + 1] == before[k + 1]);
                } else {
                    assert(out@[k] == before[k]);
                }
            }
        }
        i = j;
    }
    out
}

} // verus!
