//! The manifest of a decomposed Krita document. A `.kra` is stored as versioned streams: every
//! tile of a tiled layer-data entry is one stream, every other archive entry one stream, and a
//! manifest records how to reassemble the archive. This module holds the manifest model, the
//! stream keys, what a manifest version keeps alive, and the grid arithmetic over its tiles.

use crate::text::{
    ascii_chars, ascii_string, ascii_text, ascii_of, chars_of, dec_int, parse_i64_spec, push_dec_i64,
    string_of_chars,
};
use vstd::prelude::*;

verus! {

/// One tile of a tiled entry: grid position, codec, and the content hash of its stream.
#[derive(Debug, Clone)]
pub struct TileRef {
    pub x: i64,
    pub y: i64,
    pub compression: String,
    pub hash: String,
    /// The stream holds the tile's decoded planar pixels rather than its original bytes.
    pub raw: bool,
}

/// One archive entry of a stored document.
#[derive(Debug, Clone)]
pub enum KraEntry {
    /// A non-tiled entry stored as one stream (`blob` is its content hash).
    Raw { path: String, blob: String, stored: bool, crc32: u32, size: u64 },
    /// A tiled layer-data entry: its text header and one stream per tile.
    Tiled { path: String, header: String, tiles: Vec<TileRef>, crc32: u32, size: u64 },
    /// The document composite, stored as raw-pixel blocks on a grid of [`COMPOSITE_TILE`].
    CompositePng {
        path: String,
        width: u32,
        height: u32,
        color: String,
        srgb: Option<u8>,
        pixels_hash: String,
        tiles: Vec<TileRef>,
        crc32: u32,
        size: u64,
    },
}

/// How a stored document's archive is reassembled, entry by entry.
#[derive(Debug, Clone)]
pub struct KraManifest {
    pub entries: Vec<KraEntry>,
}

/// Edge, in pixels, of a composite block.
pub const COMPOSITE_TILE: u32 = 256;

/// The manifest stream of the document at `rel`.
pub open spec fn manifest_key_spec(rel: Seq<char>) -> Seq<char> {
    "kra:"@ + rel + ":manifest"@
}

/// The stream of archive entry `entry` of the document at `rel`.
pub open spec fn entry_key_spec(rel: Seq<char>, entry: Seq<char>) -> Seq<char> {
    "kra:"@ + rel + ":entry:"@ + entry
}

/// The stream of tile `(x, y)` of entry `entry` of the document at `rel`.
pub open spec fn tile_key_spec(rel: Seq<char>, entry: Seq<char>, x: i64, y: i64) -> Seq<char> {
    "kra:"@ + rel + ":tile:"@ + entry + ":"@ + ascii_chars(dec_int(x as int)) + ","@ + ascii_chars(dec_int(y as int))
}

/// The manifest stream's key for the document at `relpath`.
pub fn manifest_stream_key(relpath: &str) -> (k: String)
    ensures
        k@ == manifest_key_spec(relpath@),
{
    proof {
        reveal_strlit("kra:");
        reveal_strlit(":manifest");
    }
    let mut k = String::from_str("kra:");
    k.append(relpath);
    k.append(":manifest");
    k
}

/// The stream key of archive entry `entry` of the document at `relpath`.
pub fn entry_key(relpath: &str, entry: &str) -> (k: String)
    ensures
        k@ == entry_key_spec(relpath@, entry@),
{
    proof {
        reveal_strlit("kra:");
        reveal_strlit(":entry:");
    }
    let mut k = String::from_str("kra:");
    k.append(relpath);
    k.append(":entry:");
    k.append(entry);
    k
}

fn dec_i64_string(x: i64) -> (s: String)
    ensures
        s@ == ascii_chars(dec_int(x as int)),
{
    let mut digits: Vec<u8> = Vec::new();
    push_dec_i64(&mut digits, x);
    proof {
        assert(digits@ =~= dec_int(x as int));
        let n: nat = if x < 0 { (-x) as nat } else { x as nat };
        crate::text::lemma_dec_nat_digits(n);
        assert forall|i: int| 0 <= i < digits@.len() implies #[trigger] digits@[i] < 128 by {
            if x < 0 && i > 0 {
                assert(digits@[i] == crate::text::dec_nat(n)[i - 1]);
            } else if x >= 0 {
                assert(digits@[i] == crate::text::dec_nat(n)[i]);
            }
        }
    }
    ascii_string(digits.as_slice())
}

/// The stream key of tile `(x, y)` of entry `entry` of the document at `relpath`.
pub fn tile_key(relpath: &str, entry: &str, x: i64, y: i64) -> (k: String)
    ensures
        k@ == tile_key_spec(relpath@, entry@, x, y),
{
    proof {
        reveal_strlit("kra:");
        reveal_strlit(":tile:");
        reveal_strlit(":");
        reveal_strlit(",");
    }
    let mut k = String::from_str("kra:");
    k.append(relpath);
    k.append(":tile:");
    k.append(entry);
    k.append(":");
    let xs = dec_i64_string(x);
    k.append(xs.as_str());
    k.append(",");
    let ys = dec_i64_string(y);
    k.append(ys.as_str());
    k
}

/// The `(stream key, content hash)` pairs of a list of tiles of entry `path`.
pub open spec fn tile_refs(rel: Seq<char>, path: Seq<char>, tiles: Seq<TileRef>) -> Seq<(Seq<char>, Seq<char>)> {
    tiles.map_values(|t: TileRef| (tile_key_spec(rel, path, t.x, t.y), t.hash@))
}

/// The streams one entry references.
pub open spec fn entry_refs(rel: Seq<char>, e: KraEntry) -> Seq<(Seq<char>, Seq<char>)> {
    match e {
        KraEntry::Raw { path, blob, .. } => seq![(entry_key_spec(rel, path@), blob@)],
        KraEntry::Tiled { path, tiles, .. } => tile_refs(rel, path@, tiles@),
        KraEntry::CompositePng { path, tiles, .. } => tile_refs(rel, path@, tiles@),
    }
}

/// The streams a list of entries references, entry by entry.
pub open spec fn manifest_refs(rel: Seq<char>, es: Seq<KraEntry>) -> Seq<(Seq<char>, Seq<char>)>
    decreases es.len(),
{
    if es.len() == 0 {
        Seq::empty()
    } else {
        manifest_refs(rel, es.drop_last()) + entry_refs(rel, es.last())
    }
}

/// The texts of a list of pairs of texts.
pub open spec fn pair_views(v: Seq<(String, String)>) -> Seq<(Seq<char>, Seq<char>)> {
    v.map_values(|p: (String, String)| (p.0@, p.1@))
}

fn push_tile_refs(out: &mut Vec<(String, String)>, relpath: &str, path: &str, tiles: &Vec<TileRef>)
    ensures
        pair_views(final(out)@) == pair_views(old(out)@) + tile_refs(relpath@, path@, tiles@),
{
    let ghost start = pair_views(out@);
    let mut i: usize = 0;
    while i < tiles.len()
        invariant
            i <= tiles@.len(),
            pair_views(out@) == start + tile_refs(relpath@, path@, tiles@.take(i as int)),
        decreases tiles@.len() - i,
    {
        let t = &tiles[i];
        let ghost before = out@;
        out.push((tile_key(relpath, path, t.x, t.y), t.hash.clone()));
        proof {
            assert(pair_views(out@) =~= pair_views(before).push((tile_key_spec(relpath@, path@, t.x, t.y), t.hash@)));
            assert(tile_refs(relpath@, path@, tiles@.take(i + 1)) =~= tile_refs(relpath@, path@, tiles@.take(i as int)).push(
                (tile_key_spec(relpath@, path@, t.x, t.y), t.hash@),
            ));
        }
        i = i + 1;
    }
    proof {
        assert(tiles@.take(tiles@.len() as int) =~= tiles@);
    }
}

/// Every `(stream key, content hash)` a manifest version references: its raw entries' blobs and
/// every tile (composite blocks included), entry by entry. The manifest's own stream is the
/// caller's to add.
pub fn referenced_streams(relpath: &str, m: &KraManifest) -> (r: Vec<(String, String)>)
    ensures
        pair_views(r@) == manifest_refs(relpath@, m.entries@),
{
    let mut out: Vec<(String, String)> = Vec::new();
    let mut i: usize = 0;
    while i < m.entries.len()
        invariant
            i <= m.entries@.len(),
            pair_views(out@) == manifest_refs(relpath@, m.entries@.take(i as int)),
        decreases m.entries@.len() - i,
    {
        proof {
            assert(m.entries@.take(i + 1).drop_last() =~= m.entries@.take(i as int));
        }
        let ghost before = out@;
        match &m.entries[i] {
            KraEntry::Raw { path, blob, .. } => {
                out.push((entry_key(relpath, path.as_str()), blob.clone()));
                proof {
                    assert(pair_views(out@) =~= pair_views(before) + seq![(entry_key_spec(relpath@, path@), blob@)]);
                }
            },
            KraEntry::Tiled { path, tiles, .. } => {
                push_tile_refs(&mut out, relpath, path.as_str(), tiles);
            },
            KraEntry::CompositePng { path, tiles, .. } => {
                push_tile_refs(&mut out, relpath, path.as_str(), tiles);
            },
        }
        i = i + 1;
    }
    proof {
        assert(m.entries@.take(m.entries@.len() as int) =~= m.entries@);
    }
    out
}

/// The content hash a manifest gives entry `name`: the first raw entry's blob or composite's
/// pixel hash under that name (tiled entries have none).
pub open spec fn entry_hash_spec(es: Seq<KraEntry>, name: Seq<char>) -> Option<Seq<char>>
    decreases es.len(),
{
    if es.len() == 0 {
        None
    } else {
        match es[0] {
            KraEntry::Raw { path, blob, .. } if path@ == name => Some(blob@),
            KraEntry::CompositePng { path, pixels_hash, .. } if path@ == name => Some(pixels_hash@),
            _ => entry_hash_spec(es.skip(1), name),
        }
    }
}

impl KraManifest {
    /// Content hash of non-tiled entry `name`, if present (a composite answers with its pixel
    /// hash): a cache key without reconstructing bytes.
    pub fn entry_hash(&self, name: &str) -> (r: Option<String>)
        ensures
            match r {
                Some(h) => entry_hash_spec(self.entries@, name@) == Some(h@),
                None => entry_hash_spec(self.entries@, name@) is None,
            },
    {
        let mut i: usize = 0;
        assert(self.entries@.skip(0) =~= self.entries@);
        while i < self.entries.len()
            invariant
                i <= self.entries@.len(),
                entry_hash_spec(self.entries@, name@) == entry_hash_spec(self.entries@.skip(i as int), name@),
            decreases self.entries@.len() - i,
        {
            assert(self.entries@.skip(i as int)[0] == self.entries@[i as int]);
            assert(self.entries@.skip(i as int).skip(1) =~= self.entries@.skip(i + 1));
            match &self.entries[i] {
                KraEntry::Raw { path, blob, .. } => {
                    if crate::text::str_eq(path.as_str(), name) {
                        return Some(blob.clone());
                    }
                },
                KraEntry::CompositePng { path, pixels_hash, .. } => {
                    if crate::text::str_eq(path.as_str(), name) {
                        return Some(pixels_hash.clone());
                    }
                },
                KraEntry::Tiled { .. } => {},
            }
            i = i + 1;
        }
        None
    }

    /// Paths of the raw entries, in order: the only entries an embedded palette can be.
    pub fn raw_entry_names(&self) -> (r: Vec<String>)
        ensures
            r@.map_values(|s: String| s@) == raw_paths(self.entries@),
    {
        let mut out: Vec<String> = Vec::new();
        let mut i: usize = 0;
        while i < self.entries.len()
            invariant
                i <= self.entries@.len(),
                out@.map_values(|s: String| s@) == raw_paths(self.entries@.take(i as int)),
            decreases self.entries@.len() - i,
        {
            proof {
                assert(self.entries@.take(i + 1).drop_last() =~= self.entries@.take(i as int));
            }
            let ghost before = out@;
            match &self.entries[i] {
                KraEntry::Raw { path, .. } => {
                    out.push(path.clone());
                    proof {
                        assert(out@.map_values(|s: String| s@) =~= before.map_values(|s: String| s@).push(path@));
                    }
                },
                _ => {},
            }
            i = i + 1;
        }
        proof {
            assert(self.entries@.take(self.entries@.len() as int) =~= self.entries@);
        }
        out
    }

    /// Per tiled entry, in order: its path, tile width and height (from its header), and each
    /// tile's position and content hash.
    pub fn tile_index(&self) -> (r: Vec<(String, i64, i64, Vec<(i64, i64, String)>)>)
        ensures
            index_view(r@) == tile_index_spec(self.entries@),
    {
        let mut out: Vec<(String, i64, i64, Vec<(i64, i64, String)>)> = Vec::new();
        let mut i: usize = 0;
        while i < self.entries.len()
            invariant
                i <= self.entries@.len(),
                index_view(out@) == tile_index_spec(self.entries@.take(i as int)),
            decreases self.entries@.len() - i,
        {
            proof {
                assert(self.entries@.take(i + 1).drop_last() =~= self.entries@.take(i as int));
            }
            let ghost before = out@;
            match &self.entries[i] {
                KraEntry::Tiled { path, header, tiles, .. } => {
                    let (tw, th, _) = tile_dims(header.as_str());
                    let mut ts: Vec<(i64, i64, String)> = Vec::new();
                    let mut j: usize = 0;
                    while j < tiles.len()
                        invariant
                            j <= tiles@.len(),
                            coords_view(ts@) == tiles@.take(j as int).map_values(|t: TileRef| (t.x, t.y, t.hash@)),
                        decreases tiles@.len() - j,
                    {
                        let ghost bts = ts@;
                        ts.push((tiles[j].x, tiles[j].y, tiles[j].hash.clone()));
                        proof {
                            assert(coords_view(ts@) =~= coords_view(bts).push((tiles@[j as int].x, tiles@[j as int].y, tiles@[j as int].hash@)));
                            assert(tiles@.take(j + 1) =~= tiles@.take(j as int).push(tiles@[j as int]));
                            assert(coords_view(ts@) =~= tiles@.take(j + 1).map_values(|t: TileRef| (t.x, t.y, t.hash@)));
                        }
                        j = j + 1;
                    }
                    proof {
                        assert(tiles@.take(tiles@.len() as int) =~= tiles@);
                    }
                    out.push((path.clone(), tw, th, ts));
                    proof {
                        assert(index_view(out@) =~= index_view(before).push(
                            (path@, tile_dims_spec(header@).0, tile_dims_spec(header@).1, tiles@.map_values(|t: TileRef| (t.x, t.y, t.hash@))),
                        ));
                    }
                },
                _ => {},
            }
            i = i + 1;
        }
        proof {
            assert(self.entries@.take(self.entries@.len() as int) =~= self.entries@);
        }
        out
    }
}

/// The paths of the raw entries, in order.
pub open spec fn raw_paths(es: Seq<KraEntry>) -> Seq<Seq<char>>
    decreases es.len(),
{
    if es.len() == 0 {
        Seq::empty()
    } else {
        match es.last() {
            KraEntry::Raw { path, .. } => raw_paths(es.drop_last()).push(path@),
            _ => raw_paths(es.drop_last()),
        }
    }
}

/// Tile positions with their hashes, as plain values.
pub open spec fn coords_view(v: Seq<(i64, i64, String)>) -> Seq<(i64, i64, Seq<char>)> {
    v.map_values(|t: (i64, i64, String)| (t.0, t.1, t.2@))
}

/// A tile index as plain values.
pub open spec fn index_view(v: Seq<(String, i64, i64, Vec<(i64, i64, String)>)>) -> Seq<
    (Seq<char>, i64, i64, Seq<(i64, i64, Seq<char>)>),
> {
    v.map_values(|e: (String, i64, i64, Vec<(i64, i64, String)>)| (e.0@, e.1, e.2, coords_view(e.3@)))
}

/// The tile index of a list of entries: one row per tiled entry, in order.
pub open spec fn tile_index_spec(es: Seq<KraEntry>) -> Seq<(Seq<char>, i64, i64, Seq<(i64, i64, Seq<char>)>)>
    decreases es.len(),
{
    if es.len() == 0 {
        Seq::empty()
    } else {
        match es.last() {
            KraEntry::Tiled { path, header, tiles, .. } => tile_index_spec(es.drop_last()).push(
                (path@, tile_dims_spec(header@).0, tile_dims_spec(header@).1, tiles@.map_values(|t: TileRef| (t.x, t.y, t.hash@))),
            ),
            _ => tile_index_spec(es.drop_last()),
        }
    }
}

/// The rest of the first line of `s` (lines end at a line feed) that begins with `key`, after
/// `key`; `None` when no line does.
pub open spec fn first_line_with(s: Seq<char>, key: Seq<char>) -> Option<Seq<char>>
    decreases s.len(),
{
    let end = match crate::chains::first_at(s, seq!['\n'], 0) {
        Some(p) => p,
        None => s.len() as int,
    };
    let line = s.take(end);
    if line.len() >= key.len() && line.take(key.len() as int) == key {
        Some(line.skip(key.len() as int))
    } else if 0 <= end < s.len() {
        first_line_with(s.skip(end + 1), key)
    } else {
        None
    }
}

/// Rust's `i64` parse of a text.
pub open spec fn parse_i64_text(s: Seq<char>) -> Option<int> {
    if ascii_text(s) {
        parse_i64_spec(ascii_of(s))
    } else {
        None
    }
}

/// The value a tiled header gives `key`: the rest of the first line that starts with it,
/// trimmed and parsed, or 0 when there is no such line or it does not parse.
pub open spec fn header_value(header: Seq<char>, key: Seq<char>) -> int {
    match first_line_with(header, key) {
        Some(v) => match parse_i64_text(crate::text::trim_end(crate::text::trim_start(v))) {
            Some(n) => n,
            None => 0,
        },
        None => 0,
    }
}

/// `TILEWIDTH`, `TILEHEIGHT` and `PIXELSIZE` of a tiled block's text header.
pub open spec fn tile_dims_spec(header: Seq<char>) -> (i64, i64, usize) {
    (
        header_value(header, "TILEWIDTH "@) as i64,
        header_value(header, "TILEHEIGHT "@) as i64,
        (header_value(header, "PIXELSIZE "@) as i64) as usize,
    )
}

fn header_get(h: &Vec<char>, key: &str) -> (r: i64)
    ensures
        r as int == header_value(h@, key@),
{
    let k = chars_of(key);
    let mut start: usize = 0;
    assert(h@.skip(0) =~= h@);
    while start <= h.len()
        invariant
            start <= h@.len() + 1,
            k@ == key@,
            start <= h@.len() ==> header_value(h@, key@) == header_value(h@.skip(start as int), key@),
            start > h@.len() ==> header_value(h@, key@) == 0,
        decreases h@.len() + 1 - start,
    {
        let ghost rest = h@.skip(start as int);
        let mut end: usize = start;
        while end < h.len() && h[end] != '\n'
            invariant
                start <= end <= h@.len(),
                forall|q: int| start <= q < end ==> h@[q] != '\n',
            decreases h@.len() - end,
        {
            end = end + 1;
        }
        proof {
            lemma_first_newline(rest, (end - start) as int);
        }
        let len = end - start;
        let mut matches = len >= k.len();
        if matches {
            let mut q: usize = 0;
            while q < k.len()
                invariant
                    q <= k@.len(),
                    start + k@.len() <= end <= h@.len(),
                    matches == forall|z: int| 0 <= z < q ==> h@[start + z] == k@[z],
                decreases k@.len() - q,
            {
                if h[start + q] != k[q] {
                    matches = false;
                }
                q = q + 1;
            }
            proof {
                assert(matches == (rest.take(len as int).take(k@.len() as int) =~= k@));
            }
        }
        if matches {
            let mut v: Vec<char> = Vec::new();
            let mut q: usize = start + k.len();
            while q < end
                invariant
                    start + k@.len() <= q <= end <= h@.len(),
                    v@ == h@.subrange(start + k@.len(), q as int),
                decreases end - q,
            {
                v.push(h[q]);
                proof {
                    assert(v@ =~= h@.subrange(start + k@.len(), q + 1));
                }
                q = q + 1;
            }
            proof {
                assert(v@ =~= rest.take(len as int).skip(k@.len() as int));
            }
            let (a, b) = crate::text::trim_range(v.as_slice());
            let mut t: Vec<char> = Vec::new();
            let mut z: usize = a;
            while z < b
                invariant
                    a <= z <= b <= v@.len(),
                    t@ == v@.subrange(a as int, z as int),
                decreases b - z,
            {
                t.push(v[z]);
                proof {
                    assert(t@ =~= v@.subrange(a as int, z + 1));
                }
                z = z + 1;
            }
            return match crate::text::ascii_bytes_of(t.as_slice()) {
                None => 0,
                Some(bytes) => {
                    proof {
                        assert(bytes@.subrange(0, bytes@.len() as int) =~= bytes@);
                    }
                    match crate::text::parse_i64_at(bytes.as_slice(), 0, bytes.len()) {
                        Some(n) => n,
                        None => 0,
                    }
                },
            };
        }
        if end == h.len() {
            return 0;
        }
        proof {
            assert(h@.skip(start as int).skip(len + 1) =~= h@.skip(end + 1));
        }
        start = end + 1;
    }
    0
}

proof fn lemma_first_newline(s: Seq<char>, n: int)
    requires
        0 <= n <= s.len(),
        forall|q: int| 0 <= q < n ==> s[q] != '\n',
        n < s.len() ==> s[n] == '\n',
    ensures
        crate::chains::first_at(s, seq!['\n'], 0) == if n < s.len() {
            Some(n)
        } else {
            None::<int>
        },
{
    assert forall|j: int| 0 <= j <= n implies crate::chains::first_at(s, seq!['\n'], j) == crate::chains::first_at(s, seq!['\n'], n) by {
        lemma_first_newline_from(s, n, j);
    }
    if n < s.len() {
        assert(s.subrange(n, n + 1) =~= seq!['\n']);
    }
}

proof fn lemma_first_newline_from(s: Seq<char>, n: int, j: int)
    requires
        0 <= j <= n <= s.len(),
        forall|q: int| 0 <= q < n ==> s[q] != '\n',
    ensures
        crate::chains::first_at(s, seq!['\n'], j) == crate::chains::first_at(s, seq!['\n'], n),
    decreases n - j,
{
    if j < n {
        assert(s.subrange(j, j + 1)[0] != seq!['\n'][0]);
        lemma_first_newline_from(s, n, j + 1);
    }
}

/// `TILEWIDTH`, `TILEHEIGHT` and `PIXELSIZE` of a tiled block's text header; 0 for any that is
/// missing or does not parse.
pub fn tile_dims(header: &str) -> (r: (i64, i64, usize))
    ensures
        r == tile_dims_spec(header@),
{
    let h = chars_of(header);
    let w = header_get(&h, "TILEWIDTH ");
    let t = header_get(&h, "TILEHEIGHT ");
    let p = header_get(&h, "PIXELSIZE ");
    (w, t, p as usize)
}

/// A tile index row as plain values: path, tile width and height, tiles.
pub type IndexRow = (String, i64, i64, Vec<(i64, i64, String)>);

/// The least of the tiles' `x`, `y` and the greatest of their `x + tw`, `y + th`.
pub open spec fn tile_extent(tw: i64, th: i64, ts: Seq<(i64, i64, Seq<char>)>) -> (int, int, int, int)
    decreases ts.len(),
{
    if ts.len() <= 1 {
        if ts.len() == 0 {
            (0, 0, 0, 0)
        } else {
            (ts[0].0 as int, ts[0].1 as int, ts[0].0 + tw, ts[0].1 + th)
        }
    } else {
        let e = tile_extent(tw, th, ts.drop_last());
        let t = ts.last();
        (
            if t.0 < e.0 { t.0 as int } else { e.0 },
            if t.1 < e.1 { t.1 as int } else { e.1 },
            if t.0 + tw > e.2 { t.0 + tw } else { e.2 },
            if t.1 + th > e.3 { t.1 + th } else { e.3 },
        )
    }
}

/// The painted area of a layer: the union box of its tiles clipped to the canvas, as
/// `(x, y, w, h)`; `None` when it has no tiles or nothing is left after clipping.
pub open spec fn bounds_spec(tw: i64, th: i64, ts: Seq<(i64, i64, Seq<char>)>, width: i64, height: i64) -> Option<
    (i64, i64, i64, i64),
> {
    if ts.len() == 0 {
        None
    } else {
        let e = tile_extent(tw, th, ts);
        let x = if e.0 > 0 { e.0 } else { 0 };
        let y = if e.1 > 0 { e.1 } else { 0 };
        let w0 = (if e.2 < width { e.2 } else { width as int }) - x;
        let h0 = (if e.3 < height { e.3 } else { height as int }) - y;
        if w0 > 0 && h0 > 0 {
            Some((x as i64, y as i64, w0 as i64, h0 as i64))
        } else {
            None
        }
    }
}

/// The first row of a tile index for entry `path`.
pub open spec fn index_row(index: Seq<(Seq<char>, i64, i64, Seq<(i64, i64, Seq<char>)>)>, path: Seq<char>) -> Option<
    (Seq<char>, i64, i64, Seq<(i64, i64, Seq<char>)>),
>
    decreases index.len(),
{
    if index.len() == 0 {
        None
    } else if index[0].0 == path {
        Some(index[0])
    } else {
        index_row(index.skip(1), path)
    }
}

/// The painted area of entry `entry_path` of a tile index, clipped to a `width` x `height`
/// canvas: tile-granular, read from the grid positions alone.
pub fn layer_bounds(index: &Vec<IndexRow>, entry_path: &str, width: i64, height: i64) -> (r: Option<(i64, i64, i64, i64)>)
    ensures
        r == match index_row(index_view(index@), entry_path@) {
            Some(row) => bounds_spec(row.1, row.2, row.3, width, height),
            None => None,
        },
{
    let mut i: usize = 0;
    assert(index_view(index@).skip(0) =~= index_view(index@));
    while i < index.len()
        invariant
            i <= index@.len(),
            index_row(index_view(index@), entry_path@) == index_row(index_view(index@).skip(i as int), entry_path@),
        decreases index@.len() - i,
    {
        assert(index_view(index@).skip(i as int)[0] == index_view(index@)[i as int]);
        assert(index_view(index@).skip(i as int).skip(1) =~= index_view(index@).skip(i + 1));
        if crate::text::str_eq(index[i].0.as_str(), entry_path) {
            let tw = index[i].1;
            let th = index[i].2;
            let ts = &index[i].3;
            if ts.len() == 0 {
                return None;
            }
            let mut min_x: i128 = ts[0].0 as i128;
            let mut min_y: i128 = ts[0].1 as i128;
            let mut max_x: i128 = ts[0].0 as i128 + tw as i128;
            let mut max_y: i128 = ts[0].1 as i128 + th as i128;
            let mut j: usize = 1;
            proof {
                assert(coords_view(ts@).take(1) =~= seq![coords_view(ts@)[0]]);
            }
            while j < ts.len()
                invariant
                    1 <= j <= ts@.len(),
                    tile_extent(tw, th, coords_view(ts@).take(j as int)) == (min_x as int, min_y as int, max_x as int, max_y as int),
                    i64::MIN <= min_x <= i64::MAX,
                    i64::MIN <= min_y <= i64::MAX,
                    i64::MIN + i64::MIN <= max_x <= i64::MAX + i64::MAX,
                    i64::MIN + i64::MIN <= max_y <= i64::MAX + i64::MAX,
                decreases ts@.len() - j,
            {
                let (x, y) = (ts[j].0 as i128, ts[j].1 as i128);
                proof {
                    assert(coords_view(ts@).take(j + 1).drop_last() =~= coords_view(ts@).take(j as int));
                }
                if x < min_x {
                    min_x = x;
                }
                if y < min_y {
                    min_y = y;
                }
                if x + tw as i128 > max_x {
                    max_x = x + tw as i128;
                }
                if y + th as i128 > max_y {
                    max_y = y + th as i128;
                }
                j = j + 1;
            }
            proof {
                assert(coords_view(ts@).take(ts@.len() as int) =~= coords_view(ts@));
            }
            let x: i128 = if min_x > 0 { min_x } else { 0 };
            let y: i128 = if min_y > 0 { min_y } else { 0 };
            let w0: i128 = (if max_x < width as i128 { max_x } else { width as i128 }) - x;
            let h0: i128 = (if max_y < height as i128 { max_y } else { height as i128 }) - y;
            if w0 > 0 && h0 > 0 {
                return Some((x as i64, y as i64, w0 as i64, h0 as i64));
            } else {
                return None;
            }
        }
        i = i + 1;
    }
    None
}

/// How many blocks of [`COMPOSITE_TILE`] cover a side of `n` pixels.
pub open spec fn blocks_across(n: u32) -> nat {
    ((n as nat + 255) / 256) as nat
}

/// The block origins of one block row at `by`, left to right.
pub open spec fn block_row(w: u32, by: nat) -> Seq<(u32, u32)> {
    Seq::new(blocks_across(w), |i: int| ((i * 256) as u32, by as u32))
}

/// The block origins of the first `rows` block rows, top to bottom.
pub open spec fn block_rows(w: u32, rows: nat) -> Seq<(u32, u32)>
    decreases rows,
{
    if rows == 0 {
        Seq::empty()
    } else {
        block_rows(w, (rows - 1) as nat) + block_row(w, ((rows - 1) * 256) as nat)
    }
}

/// Block origins covering a `w` x `h` canvas on the composite grid, row by row.
pub fn composite_block_coords(w: u32, h: u32) -> (v: Vec<(u32, u32)>)
    ensures
        v@ == block_rows(w, blocks_across(h)),
{
    let mut v: Vec<(u32, u32)> = Vec::new();
    let mut by: u64 = 0;
    let mut row: u64 = 0;
    while by < h as u64
        invariant
            by == row * 256,
            row <= blocks_across(h),
            by < h as u64 + 256,
            v@ == block_rows(w, row as nat),
        decreases h as u64 + 256 - by,
    {
        let ghost before = v@;
        let mut bx: u64 = 0;
        let mut col: u64 = 0;
        while bx < w as u64
            invariant
                bx == col * 256,
                col <= blocks_across(w),
                bx < w as u64 + 256,
                by < h as u64,
                v@ == before + block_row(w, by as nat).take(col as int),
            decreases w as u64 + 256 - bx,
        {
            v.push((bx as u32, by as u32));
            proof {
                assert(block_row(w, by as nat).take(col + 1) =~= block_row(w, by as nat).take(col as int).push(((col * 256) as u32, by as u32)));
            }
            bx = bx + 256;
            col = col + 1;
        }
        proof {
            assert(col == blocks_across(w));
            assert(block_row(w, by as nat).take(col as int) =~= block_row(w, by as nat));
            assert(row + 1 <= blocks_across(h));
        }
        by = by + 256;
        row = row + 1;
    }
    proof {
        assert(row == blocks_across(h));
    }
    v
}

/// `(block width, block height)` of the block at `(bx, by)`: edge blocks are partial.
pub fn composite_block_dims(w: u32, h: u32, bx: u32, by: u32) -> (r: (usize, usize))
    requires
        bx <= w,
        by <= h,
    ensures
        r.0 == if w - bx < 256 { w - bx } else { 256 },
        r.1 == if h - by < 256 { h - by } else { 256 },
{
    let cw: u32 = if w - bx < COMPOSITE_TILE { w - bx } else { COMPOSITE_TILE };
    let ch: u32 = if h - by < COMPOSITE_TILE { h - by } else { COMPOSITE_TILE };
    (cw as usize, ch as usize)
}

} // verus!
