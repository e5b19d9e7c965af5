//! Committing a Krita document's archive entries: which entries are reused verbatim from the
//! previous manifest, without their bytes even being read, and how a fresh entry is decomposed
//! into streams (a tiled layer into one stream per tile, anything else into one stream).
//! Reading the archive and writing the objects are the caller's.

use crate::delta::{level_for, prepared_for, Prepared, StoreOpts};
use crate::error::KvcError;
use crate::kra::{entry_key, entry_key_spec, tile_dims, tile_dims_spec, tile_key, tile_key_spec, KraEntry, KraManifest, TileRef};
use crate::raster::{tile_planar, tile_planar_spec};
use crate::repo::Repo;
use crate::tiles::{is_tiled, parse, parse_block, tiled_magic, TileView, TiledBlock};
use vstd::prelude::*;

verus! {

/// One archive entry queued for a commit: reused verbatim from the previous manifest, or read
/// fresh (name, zip crc32 and uncompressed size, and its bytes).
pub enum EntryWork {
    Reuse(KraEntry),
    Fresh { name: String, crc32: u32, size: u64, buf: Vec<u8> },
}

/// An entry's archive path.
pub open spec fn entry_path(e: KraEntry) -> Seq<char> {
    match e {
        KraEntry::Raw { path, .. } => path@,
        KraEntry::Tiled { path, .. } => path@,
        KraEntry::CompositePng { path, .. } => path@,
    }
}

/// An entry's recorded zip crc32 and uncompressed size.
pub open spec fn entry_crc_size(e: KraEntry) -> (u32, u64) {
    match e {
        KraEntry::Raw { crc32, size, .. } => (crc32, size),
        KraEntry::Tiled { crc32, size, .. } => (crc32, size),
        KraEntry::CompositePng { crc32, size, .. } => (crc32, size),
    }
}

/// The last entry of `es` at archive path `name`.
pub open spec fn last_entry(es: Seq<KraEntry>, name: Seq<char>) -> Option<KraEntry>
    decreases es.len(),
{
    if es.len() == 0 {
        None
    } else if entry_path(es.last()) == name {
        Some(es.last())
    } else {
        last_entry(es.drop_last(), name)
    }
}

/// Two entries hold the same values.
pub open spec fn same_entry(a: KraEntry, b: KraEntry) -> bool {
    match (a, b) {
        (KraEntry::Raw { path: p1, blob: b1, stored: s1, crc32: c1, size: z1 }, KraEntry::Raw { path: p2, blob: b2, stored: s2, crc32: c2, size: z2 }) => {
            p1 == p2 && b1 == b2 && s1 == s2 && c1 == c2 && z1 == z2
        },
        (KraEntry::Tiled { path: p1, header: h1, tiles: t1, crc32: c1, size: z1 }, KraEntry::Tiled { path: p2, header: h2, tiles: t2, crc32: c2, size: z2 }) => {
            p1 == p2 && h1 == h2 && t1@ == t2@ && c1 == c2 && z1 == z2
        },
        (
            KraEntry::CompositePng { path: p1, width: w1, height: g1, color: o1, srgb: r1, pixels_hash: x1, tiles: t1, crc32: c1, size: z1 },
            KraEntry::CompositePng { path: p2, width: w2, height: g2, color: o2, srgb: r2, pixels_hash: x2, tiles: t2, crc32: c2, size: z2 },
        ) => {
            p1 == p2 && w1 == w2 && g1 == g2 && o1 == o2 && r1 == r2 && x1 == x2 && t1@ == t2@ && c1 == c2 && z1 == z2
        },
        _ => false,
    }
}

/// Whether archive entry `name` with `crc32` and `size` is unchanged since the previous
/// manifest: a non-empty entry whose crc32 and size match the previous entry at that path.
pub open spec fn reusable(prev: Seq<KraEntry>, name: Seq<char>, crc32: u32, size: u64) -> Option<KraEntry> {
    if size > 0 {
        match last_entry(prev, name) {
            Some(e) => if entry_crc_size(e) == (crc32, size) {
                Some(e)
            } else {
                None
            },
            None => None,
        }
    } else {
        None
    }
}

/// The previous manifest's entry for archive entry `name`, when it can be reused verbatim (see
/// [`reusable`]); the entry's bytes then need not even be read.
pub fn reuse_of(prev: &KraManifest, name: &str, crc32: u32, size: u64) -> (r: Option<KraEntry>)
    ensures
        match reusable(prev.entries@, name@, crc32, size) {
            Some(e) => r matches Some(x) && same_entry(x, e),
            None => r is None,
        },
{
    if size == 0 {
        return None;
    }
    let mut i: usize = prev.entries.len();
    assert(prev.entries@.take(i as int) =~= prev.entries@);
    while i > 0
        invariant
            i <= prev.entries@.len(),
            size > 0,
            last_entry(prev.entries@, name@) == last_entry(prev.entries@.take(i as int), name@),
        decreases i,
    {
        proof {
            assert(prev.entries@.take(i as int).drop_last() =~= prev.entries@.take(i - 1));
            assert(prev.entries@.take(i as int).last() == prev.entries@[i - 1]);
        }
        let e = &prev.entries[i - 1];
        let (path, c, s) = match e {
            KraEntry::Raw { path, crc32, size, .. } => (path, *crc32, *size),
            KraEntry::Tiled { path, crc32, size, .. } => (path, *crc32, *size),
            KraEntry::CompositePng { path, crc32, size, .. } => (path, *crc32, *size),
        };
        proof {
            assert(entry_path(*e) == path@);
            assert(entry_crc_size(*e) == (c, s));
        }
        if crate::text::str_eq(path.as_str(), name) {
            if c == crc32 && s == size {
                proof {
                    assert(last_entry(prev.entries@, name@) == Some(prev.entries@[i - 1]));
                }
                return Some(e.clone_entry());
            }
            return None;
        }
        i = i - 1;
    }
    proof {
        assert(prev.entries@.take(0) =~= Seq::<KraEntry>::empty());
    }
    None
}

impl KraEntry {
    /// An exact copy.
    pub fn clone_entry(&self) -> (r: KraEntry)
        ensures
            same_entry(r, *self),
    {
        match self {
            KraEntry::Raw { path, blob, stored, crc32, size } => KraEntry::Raw {
                path: path.clone(),
                blob: blob.clone(),
                stored: *stored,
                crc32: *crc32,
                size: *size,
            },
            KraEntry::Tiled { path, header, tiles, crc32, size } => {
                let mut ts: Vec<TileRef> = Vec::new();
                let mut i: usize = 0;
                while i < tiles.len()
                    invariant
                        i <= tiles@.len(),
                        ts@.len() == i,
                        forall|k: int| 0 <= k < i ==> #[trigger] ts@[k] == tiles@[k],
                    decreases tiles@.len() - i,
                {
                    let t = &tiles[i];
                    ts.push(TileRef { x: t.x, y: t.y, compression: t.compression.clone(), hash: t.hash.clone(), raw: t.raw });
                    i = i + 1;
                }
                assert(ts@ =~= tiles@);
                KraEntry::Tiled { path: path.clone(), header: header.clone(), tiles: ts, crc32: *crc32, size: *size }
            },
            KraEntry::CompositePng { path, width, height, color, srgb, pixels_hash, tiles, crc32, size } => {
                let mut ts: Vec<TileRef> = Vec::new();
                let mut i: usize = 0;
                while i < tiles.len()
                    invariant
                        i <= tiles@.len(),
                        ts@.len() == i,
                        forall|k: int| 0 <= k < i ==> #[trigger] ts@[k] == tiles@[k],
                    decreases tiles@.len() - i,
                {
                    let t = &tiles[i];
                    ts.push(TileRef { x: t.x, y: t.y, compression: t.compression.clone(), hash: t.hash.clone(), raw: t.raw });
                    i = i + 1;
                }
                assert(ts@ =~= tiles@);
                KraEntry::CompositePng {
                    path: path.clone(),
                    width: *width,
                    height: *height,
                    color: color.clone(),
                    srgb: *srgb,
                    pixels_hash: pixels_hash.clone(),
                    tiles: ts,
                    crc32: *crc32,
                    size: *size,
                }
            },
        }
    }
}

/// The decoded size of one tile of a block with this header, when its dimensions are all
/// positive and the size fits the machine word.
pub open spec fn planar_len(header: Seq<char>) -> Option<nat> {
    let (tw, th, ps) = tile_dims_spec(header);
    if tw > 0 && th > 0 && ps > 0 && tw * th * ps <= usize::MAX {
        Some((tw * th * ps) as nat)
    } else {
        None
    }
}

/// The planar pixels a tile's stream holds instead of its stored bytes: under pixel deltas,
/// when the tile decodes to exactly one tile's worth of pixels.
pub open spec fn tile_stream(pixel_deltas: bool, header: Seq<char>, data: Seq<u8>) -> Option<Seq<u8>> {
    if pixel_deltas {
        match planar_len(header) {
            Some(n) => tile_planar_spec(data, n),
            None => None,
        }
    } else {
        None
    }
}

/// Whether `r` and `item` are what committing tile `t` of entry `name` of the document at `rel`
/// calls for: the tile's stream key, a version prepared for its planar pixels (level 3, no
/// patch floor) or else for its stored bytes (the stream's own knobs), and a reference carrying
/// the tile's position and codec and the prepared content hash.
pub open spec fn tile_prepared(repo: Repo, rel: Seq<char>, name: Seq<char>, header: Seq<char>, t: TileView, r: TileRef, item: (String, Prepared)) -> bool {
    let key = tile_key_spec(rel, name, t.0 as i64, t.1 as i64);
    &&& item.0@ == key
    &&& r.x == t.0 && r.y == t.1 && r.compression@ == t.2 && r.hash@ == item.1.hash_spec()
    &&& match tile_stream(repo.config.tile_pixel_deltas, header, t.3) {
        Some(p) => r.raw && prepared_for(repo.chains.chain_spec(key), repo.config.delta_chain_max as nat, p, 3, 0, None, item.1),
        None => !r.raw && prepared_for(
            repo.chains.chain_spec(key),
            repo.config.delta_chain_max as nat,
            t.3,
            level_for(key, t.3),
            65536,
            None,
            item.1,
        ),
    }
}

fn planar_size(tw: i64, th: i64, ps: usize) -> (r: Option<usize>)
    ensures
        match r {
            Some(n) => tw > 0 && th > 0 && ps > 0 && n == tw * th * ps,
            None => !(tw > 0 && th > 0 && ps > 0 && tw * th * ps <= usize::MAX),
        },
{
    if !(tw > 0 && th > 0 && ps > 0) {
        return None;
    }
    assert(tw * th <= 0x7fff_ffff_ffff_ffff * 0x7fff_ffff_ffff_ffff) by (nonlinear_arith)
        requires
            0 < tw <= 0x7fff_ffff_ffff_ffff,
            0 < th <= 0x7fff_ffff_ffff_ffff,
    ;
    let a: u128 = tw as u128 * th as u128;
    if a > usize::MAX as u128 {
        assert(tw * th * ps >= tw * th) by (nonlinear_arith)
            requires
                tw * th > 0,
                ps > 0,
        ;
        return None;
    }
    let a2 = a as usize;
    match a2.checked_mul(ps) {
        Some(n) => {
            assert(n == tw * th * ps);
            Some(n)
        },
        None => None,
    }
}

/// Prepare every tile of a parsed block as its own stream: one reference and one prepared
/// version per tile, in the block's order.
pub fn prepare_tiles(repo: &Repo, relpath: &str, name: &str, block: &TiledBlock) -> (r: (Vec<TileRef>, Vec<(String, Prepared)>))
    requires
        repo.wf(),
    ensures
        r.0@.len() == block@.1.len(),
        r.1@.len() == block@.1.len(),
        forall|i: int| 0 <= i < block@.1.len() ==> #[trigger] tile_prepared(*repo, relpath@, name@, block.header@, block@.1[i], r.0@[i], r.1@[i]),
{
    let (tw, th, ps) = tile_dims(block.header.as_str());
    let planar = planar_size(tw, th, ps);
    let mut refs: Vec<TileRef> = Vec::new();
    let mut items: Vec<(String, Prepared)> = Vec::new();
    let mut i: usize = 0;
    while i < block.tiles.len()
        invariant
            repo.wf(),
            i <= block.tiles@.len(),
            refs@.len() == i,
            items@.len() == i,
            planar matches Some(n) ==> planar_len(block.header@) == Some(n as nat),
            planar is None ==> planar_len(block.header@) is None,
            forall|j: int| 0 <= j < i ==> #[trigger] tile_prepared(*repo, relpath@, name@, block.header@, block@.1[j], refs@[j], items@[j]),
        decreases block.tiles@.len() - i,
    {
        let t = &block.tiles[i];
        assert(block@.1[i as int] == t@);
        let key = tile_key(relpath, name, t.x, t.y);
        let mut stream: Option<Vec<u8>> = None;
        if repo.config.tile_pixel_deltas {
            match planar {
                Some(n) => {
                    stream = tile_planar(t.data.as_slice(), n);
                },
                None => {},
            }
        }
        assert(stream matches Some(p) ==> tile_stream(repo.config.tile_pixel_deltas, block.header@, t.data@) == Some(p@));
        assert(stream is None ==> tile_stream(repo.config.tile_pixel_deltas, block.header@, t.data@) is None);
        let (p, raw) = match stream {
            Some(planar_px) => {
                let p = match repo.prepare_stream_opts(key.as_str(), planar_px.as_slice(), StoreOpts { zstd_level: 3, patch_floor: 0 }, None) {
                    Ok(p) => p,
                    Err(_) => {
                        assert(false);
                        return (refs, items);
                    },
                };
                (p, true)
            },
            None => {
                let p = match repo.prepare_stream(key.as_str(), t.data.as_slice(), None) {
                    Ok(p) => p,
                    Err(_) => {
                        assert(false);
                        return (refs, items);
                    },
                };
                (p, false)
            },
        };
        let hash = String::from_str(p.hash());
        let r = TileRef { x: t.x, y: t.y, compression: t.compression.clone(), hash, raw };
        refs.push(r);
        items.push((key, p));
        proof {
            assert forall|j: int| 0 <= j < i + 1 implies #[trigger] tile_prepared(*repo, relpath@, name@, block.header@, block@.1[j], refs@[j], items@[j]) by {
                if j < i {
                    assert(tile_prepared(*repo, relpath@, name@, block.header@, block@.1[j], refs@[j], items@[j]));
                }
            }
        }
        i += 1;
    }
    (refs, items)
}

/// What committing one queued entry produces: a reused entry as it is, with nothing to store; a
/// fresh tiled entry as its header and one reference per tile, with the tiles' prepared
/// versions (see [`tile_prepared`]); any other fresh entry as one raw stream under its entry key,
/// stored uncompressed in the archive when it is the `mimetype` entry.
pub open spec fn entry_prepared(repo: Repo, rel: Seq<char>, w: EntryWork, e: KraEntry, items: Seq<(String, Prepared)>) -> bool {
    match w {
        EntryWork::Reuse(prev) => same_entry(e, prev) && items.len() == 0,
        EntryWork::Fresh { name, crc32, size, buf } => if tiled_magic(buf@) {
            parse_block(buf@) matches Ok((header, ts)) && e matches KraEntry::Tiled { path, header: h, tiles, crc32: c, size: z }
                && path@ == name@ && h@ == header && c == crc32 && z == size && tiles@.len() == ts.len()
                && items.len() == ts.len()
                && forall|i: int| 0 <= i < ts.len() ==> #[trigger] tile_prepared(repo, rel, name@, header, ts[i], tiles@[i], items[i])
        } else {
            let key = entry_key_spec(rel, name@);
            e matches KraEntry::Raw { path, blob, stored, crc32: c, size: z } && path@ == name@ && c == crc32 && z == size
                && stored == (name@ == "mimetype"@) && items.len() == 1 && items[0].0@ == key && blob@ == items[0].1.hash_spec()
                && prepared_for(repo.chains.chain_spec(key), repo.config.delta_chain_max as nat, buf@, level_for(key, buf@), 65536, None, items[0].1)
        },
    }
}

/// Decompose one queued entry into its manifest record and the prepared versions of the streams
/// its content goes to (see [`entry_prepared`]). Read-only against the repository. Refused, with
/// the parser's `BadTiles`, exactly when a fresh entry opens like a tiled block but does not parse
/// as one. The composite is stored as one raw stream like any other untiled entry.
pub fn prepare_entry_work(repo: &Repo, relpath: &str, w: EntryWork) -> (r: Result<(KraEntry, Vec<(String, Prepared)>), KvcError>)
    requires
        repo.wf(),
    ensures
        match r {
            Ok((e, items)) => entry_prepared(*repo, relpath@, w, e, items@),
            Err(err) => match w {
                EntryWork::Fresh { buf, .. } => tiled_magic(buf@) && match parse_block(buf@) {
                    Err(m) => err matches KvcError::BadTiles(msg) && msg@ == m,
                    Ok(_) => false,
                },
                EntryWork::Reuse(_) => false,
            },
        },
{
    let ghost w0 = w;
    match w {
        EntryWork::Reuse(e) => {
            let ghost e0 = e;
            proof {
                lemma_same_entry_refl(e0);
            }
            Ok((e, Vec::new()))
        },
        EntryWork::Fresh { name, crc32, size, buf } => {
            if is_tiled(buf.as_slice()) {
                let block = match parse(buf.as_slice()) {
                    Ok(b) => b,
                    Err(e) => return Err(e),
                };
                let (refs, items) = prepare_tiles(repo, relpath, name.as_str(), &block);
                let ghost ts = block@.1;
                let e = KraEntry::Tiled { path: name, header: block.header, tiles: refs, crc32, size };
                Ok((e, items))
            } else {
                proof {
                    reveal_strlit("mimetype");
                }
                let stored = crate::text::str_eq(name.as_str(), "mimetype");
                let key = entry_key(relpath, name.as_str());
                let p = match repo.prepare_stream(key.as_str(), buf.as_slice(), None) {
                    Ok(p) => p,
                    Err(e) => return Err(e),
                };
                let blob = String::from_str(p.hash());
                let mut items: Vec<(String, Prepared)> = Vec::new();
                items.push((key, p));
                Ok((KraEntry::Raw { path: name, blob, stored, crc32, size }, items))
            }
        },
    }
}

proof fn lemma_same_entry_refl(e: KraEntry)
    ensures
        same_entry(e, e),
{
}

} // verus!
