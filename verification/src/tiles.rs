//! Krita's tiled layer-data blocks (the binary entries under `<doc>/layers/` in a `.kra`).
//! A block is a five-line text header (`VERSION`, `TILEWIDTH`, `TILEHEIGHT`, `PIXELSIZE`,
//! `DATA n`) followed by `n` tile records, each a text descriptor line `x,y,compression,len\n`
//! and then `len` bytes of (already compressed) tile data.

use crate::error::KvcError;
use crate::text::{
    all_ascii, all_digits, trim_end, trim_range, trim_start, lemma_ascii_valid, chars_of, dec_int, dec_nat, lemma_dec_nat_digits, lemma_parse_dec_int,
    lemma_parse_dec_nat, parse_i64_at, parse_i64_spec, parse_unsigned, parse_unsigned_at,
    push_all, push_dec_i64, push_dec_u64, str_from_utf8, utf8_string,
};
use vstd::prelude::*;
use vstd::utf8::{decode_utf8, encode_utf8, valid_utf8};

verus! {

/// One tile record: grid position, compression tag and the raw stored bytes.
#[derive(Debug, Clone, PartialEq)]
pub struct Tile {
    pub x: i64,
    pub y: i64,
    pub compression: String,
    pub data: Vec<u8>,
}

/// A tile as plain values: `(x, y, compression, data)`.
pub type TileView = (int, int, Seq<char>, Seq<u8>);

impl View for Tile {
    type V = TileView;

    open spec fn view(&self) -> TileView {
        (self.x as int, self.y as int, self.compression@, self.data@)
    }
}

/// A parsed block: the verbatim header text (its five lines with their newlines) and the
/// tiles in stored order.
#[derive(Debug, Clone, PartialEq)]
pub struct TiledBlock {
    pub header: String,
    pub tiles: Vec<Tile>,
}

impl View for TiledBlock {
    type V = (Seq<char>, Seq<TileView>);

    open spec fn view(&self) -> (Seq<char>, Seq<TileView>) {
        (self.header@, self.tiles@.map_values(|t: Tile| t@))
    }
}

/// Index of the first `sep` in `s` at or after `from`.
pub open spec fn find_byte(s: Seq<u8>, sep: u8, from: int) -> Option<int>
    decreases s.len() - from,
{
    if from < 0 || from >= s.len() {
        None
    } else if s[from] == sep {
        Some(from)
    } else {
        find_byte(s, sep, from + 1)
    }
}

/// Whether every character of `s` is ASCII.
pub open spec fn ascii_text(s: Seq<char>) -> bool {
    forall|i: int| 0 <= i < s.len() ==> (#[trigger] s[i] as u32) < 128
}

/// The tile count of a `DATA ` line: the rest of the line, trimmed, read as a `usize`.
pub open spec fn parse_count(rest: Seq<char>) -> Option<nat> {
    let t = trim_end(trim_start(rest));
    if ascii_text(t) {
        parse_unsigned(t.map_values(|c: char| (c as u32) as u8), usize::MAX as nat)
    } else {
        None
    }
}

/// The characters `DATA ` that open the count line.
pub open spec fn data_prefix() -> Seq<char> {
    seq!['D', 'A', 'T', 'A', ' ']
}

/// Reading `k` header lines from `pos`: each line must end in a newline and be UTF-8, and a
/// line opening with `DATA ` sets the count. Gives the end of the header and the count seen.
pub open spec fn scan_header(b: Seq<u8>, pos: int, k: nat, count: Option<nat>) -> Result<
    (int, Option<nat>),
    Seq<char>,
>
    decreases k,
{
    if k == 0 {
        Ok((pos, count))
    } else {
        match find_byte(b, 10, pos) {
            None => Err("truncated header"@),
            Some(nl) => {
                let line = b.subrange(pos, nl + 1);
                if !valid_utf8(line) {
                    Err("non-utf8 header"@)
                } else {
                    let text = decode_utf8(line);
                    if text.len() >= 5 && text.take(5) == data_prefix() {
                        match parse_count(text.skip(5)) {
                            None => Err("bad DATA count"@),
                            Some(n) => scan_header(b, nl + 1, (k - 1) as nat, Some(n)),
                        }
                    } else {
                        scan_header(b, nl + 1, (k - 1) as nat, count)
                    }
                }
            },
        }
    }
}

/// The positions of the three commas of a descriptor body that splits into exactly four
/// comma-separated fields.
pub open spec fn descriptor_commas(body: Seq<u8>) -> Option<(int, int, int)> {
    match find_byte(body, 44, 0) {
        None => None,
        Some(c1) => match find_byte(body, 44, c1 + 1) {
            None => None,
            Some(c2) => match find_byte(body, 44, c2 + 1) {
                None => None,
                Some(c3) => if find_byte(body, 44, c3 + 1) is None {
                    Some((c1, c2, c3))
                } else {
                    None
                },
            },
        },
    }
}

/// Reading one tile record at `pos`: the tile and the position after its data.
pub open spec fn scan_tile(b: Seq<u8>, pos: int) -> Result<(TileView, int), Seq<char>> {
    match find_byte(b, 10, pos) {
        None => Err("truncated tile header"@),
        Some(nl) => if !valid_utf8(b.subrange(pos, nl + 1)) {
            Err("non-utf8 tile header"@)
        } else {
            let body = b.subrange(pos, nl);
            match descriptor_commas(body) {
                None => Err("malformed tile descriptor"@),
                Some((c1, c2, c3)) => match parse_i64_spec(body.subrange(0, c1)) {
                    None => Err("bad tile x"@),
                    Some(x) => if body.subrange(0, c1) != dec_int(x) {
                        Err("bad tile x"@)
                    } else { match parse_i64_spec(body.subrange(c1 + 1, c2)) {
                        None => Err("bad tile y"@),
                        Some(y) => if body.subrange(c1 + 1, c2) != dec_int(y) {
                            Err("bad tile y"@)
                        } else { match parse_unsigned(
                            body.subrange(c3 + 1, body.len() as int),
                            usize::MAX as nat,
                        ) {
                            None => Err("bad tile len"@),
                            Some(len) => if body.subrange(c3 + 1, body.len() as int) != dec_nat(len) {
                                Err("bad tile len"@)
                            } else if nl + 1 + len > b.len() {
                                Err("tile data past end of block"@)
                            } else {
                                Ok(
                                    (
                                        (
                                            x,
                                            y,
                                            decode_utf8(body.subrange(c2 + 1, c3)),
                                            b.subrange(nl + 1, nl + 1 + len),
                                        ),
                                        nl + 1 + len,
                                    ),
                                )
                            },
                        } },
                    } },
                },
            }
        },
    }
}

/// Reading `k` tile records from `pos`: the tiles and the position after the last one.
pub open spec fn scan_tiles(b: Seq<u8>, pos: int, k: nat) -> Result<(Seq<TileView>, int), Seq<char>>
    decreases k,
{
    if k == 0 {
        Ok((seq![], pos))
    } else {
        match scan_tile(b, pos) {
            Err(m) => Err(m),
            Ok((t, next)) => match scan_tiles(b, next, (k - 1) as nat) {
                Err(m) => Err(m),
                Ok((rest, end)) => Ok((seq![t] + rest, end)),
            },
        }
    }
}

/// What a block's bytes parse to: its header text and tiles, or the message of the first
/// fault met.
pub open spec fn parse_block(b: Seq<u8>) -> Result<(Seq<char>, Seq<TileView>), Seq<char>> {
    match scan_header(b, 0, 5, None) {
        Err(m) => Err(m),
        Ok((end, count)) => match count {
            None => Err("missing DATA count"@),
            Some(n) => match scan_tiles(b, end, n) {
                Err(m) => Err(m),
                Ok((ts, last)) => if last != b.len() {
                    Err("trailing bytes after last tile"@)
                } else {
                    Ok((decode_utf8(b.subrange(0, end)), ts))
                },
            },
        },
    }
}

/// The descriptor line of a tile, `x,y,compression,len\n`.
pub open spec fn descriptor_bytes(t: TileView) -> Seq<u8> {
    dec_int(t.0) + seq![44u8] + dec_int(t.1) + seq![44u8] + encode_utf8(t.2) + seq![44u8]
        + dec_nat(t.3.len()) + seq![10u8]
}

/// The records of `ts`, each descriptor followed by its data.
pub open spec fn tiles_bytes(ts: Seq<TileView>) -> Seq<u8>
    decreases ts.len(),
{
    if ts.len() == 0 {
        seq![]
    } else {
        tiles_bytes(ts.drop_last()) + descriptor_bytes(ts.last()) + ts.last().3
    }
}

/// The bytes of a block: the header text, then the records.
pub open spec fn block_bytes(header: Seq<char>, ts: Seq<TileView>) -> Seq<u8> {
    encode_utf8(header) + tiles_bytes(ts)
}

/// Whether `bytes` opens with Krita's `VERSION ` header.
pub open spec fn tiled_magic(bytes: Seq<u8>) -> bool {
    bytes.len() >= 8 && bytes.take(8) == seq![86u8, 69, 82, 83, 73, 79, 78, 32]
}

/// A layer-data entry is tiled iff it begins with Krita's `VERSION ` header.
pub fn is_tiled(bytes: &[u8]) -> (r: bool)
    ensures
        r == tiled_magic(bytes@),
{
    let magic: [u8; 8] = [86u8, 69, 82, 83, 73, 79, 78, 32];
    if bytes.len() < 8 {
        return false;
    }
    let mut i: usize = 0;
    while i < 8
        invariant
            i <= 8 <= bytes.len(),
            magic@ == seq![86u8, 69, 82, 83, 73, 79, 78, 32],
            forall|j: int| 0 <= j < i ==> bytes@[j] == magic@[j],
        decreases 8 - i,
    {
        if bytes[i] != magic[i] {
            assert(bytes@.take(8)[i as int] != seq![86u8, 69, 82, 83, 73, 79, 78, 32][i as int]);
            return false;
        }
        i = i + 1;
    }
    assert(bytes@.take(8) =~= seq![86u8, 69, 82, 83, 73, 79, 78, 32]);
    true
}

/// Position of the first `sep` in `s` at or after `from`.
fn find_from(s: &[u8], sep: u8, from: usize) -> (r: Option<usize>)
    requires
        from <= s.len(),
    ensures
        match r {
            Some(i) => find_byte(s@, sep, from as int) == Some(i as int) && from <= i < s.len()
                && s@[i as int] == sep,
            None => find_byte(s@, sep, from as int) is None,
        },
{
    let mut i: usize = from;
    while i < s.len()
        invariant
            from <= i <= s.len(),
            find_byte(s@, sep, from as int) == find_byte(s@, sep, i as int),
        decreases s.len() - i,
    {
        if s[i] == sep {
            return Some(i);
        }
        i = i + 1;
    }
    None
}

/// The count of a `DATA ` line, from the characters after the prefix.
fn read_count(rest: &[char]) -> (r: Option<usize>)
    ensures
        match r {
            Some(n) => parse_count(rest@) == Some(n as nat),
            None => parse_count(rest@) is None,
        },
{
    let (a, b) = trim_range(rest);
    let ghost t = rest@.subrange(a as int, b as int);
    let mut digits: Vec<u8> = Vec::new();
    let mut k: usize = a;
    while k < b
        invariant
            a <= k <= b <= rest@.len(),
            t == rest@.subrange(a as int, b as int),
            trim_end(trim_start(rest@)) == t,
            digits@.len() == k - a,
            forall|j: int| 0 <= j < k - a ==> (#[trigger] t[j] as u32) < 128 && digits@[j] == (
            t[j] as u32) as u8,
        decreases b - k,
    {
        let u = rest[k] as u32;
        if u >= 128 {
            assert(t[k - a] == rest@[k as int]);
            assert(!ascii_text(t));
            return None;
        }
        digits.push(u as u8);
        assert(t[k - a] == rest@[k as int]);
        k = k + 1;
    }
    proof {
        assert(digits@ =~= t.map_values(|c: char| (c as u32) as u8));
        assert(digits@.subrange(0, digits@.len() as int) =~= digits@);
    }
    match parse_unsigned_at(digits.as_slice(), 0, digits.len(), usize::MAX as u64) {
        Some(v) => Some(v as usize),
        None => None,
    }
}


/// A fault of the block format, carrying its message.
fn bad(msg: &str) -> (e: KvcError)
    ensures
        e matches KvcError::BadTiles(m) && m@ == msg@,
{
    KvcError::BadTiles(msg.to_owned())
}

/// Cutting valid UTF-8 around an ASCII byte leaves valid UTF-8 on both sides.
proof fn lemma_valid_around_ascii(s: Seq<u8>, i: int)
    requires
        valid_utf8(s),
        0 <= i < s.len(),
        s[i] < 128,
    ensures
        valid_utf8(s.subrange(0, i)),
        valid_utf8(s.subrange(i + 1, s.len() as int)),
{
    vstd::utf8::is_char_boundary_iff_not_is_continuation_byte(s, i);
    vstd::utf8::valid_utf8_split(s, i);
    let q = s.subrange(i, s.len() as int);
    assert(q[0] == s[i]);
    assert(vstd::utf8::pop_first_scalar(q) =~= s.subrange(i + 1, s.len() as int));
}

/// Whether `s[from..to]` is exactly `expect`.
fn same_bytes(s: &[u8], from: usize, to: usize, expect: &Vec<u8>) -> (r: bool)
    requires
        from <= to <= s.len(),
    ensures
        r == (s@.subrange(from as int, to as int) == expect@),
{
    if to - from != expect.len() {
        return false;
    }
    let mut i: usize = 0;
    while i < expect.len()
        invariant
            from <= to <= s.len(),
            to - from == expect.len(),
            i <= expect.len(),
            forall|j: int| 0 <= j < i ==> s@[from + j] == expect@[j],
        decreases expect.len() - i,
    {
        if s[from + i] != expect[i] {
            proof {
                assert(s@.subrange(from as int, to as int)[i as int] != expect@[i as int]);
            }
            return false;
        }
        i += 1;
    }
    assert(s@.subrange(from as int, to as int) =~= expect@);
    true
}

/// Read the tile record at `pos`: the tile and the position after its data.
fn read_tile(bytes: &[u8], pos: usize) -> (r: Result<(Tile, usize), KvcError>)
    requires
        pos <= bytes.len(),
    ensures
        match scan_tile(bytes@, pos as int) {
            Ok((t, next)) => r matches Ok((tile, q)) && tile@ == t && q == next,
            Err(m) => r matches Err(KvcError::BadTiles(s)) && s@ == m,
        },
{
    let nl = match find_from(bytes, 10u8, pos) {
        Some(nl) => nl,
        None => return Err(bad("truncated tile header")),
    };
    let line = &bytes[pos..nl + 1];
    assert(line@ =~= bytes@.subrange(pos as int, nl + 1));
    if str_from_utf8(line).is_none() {
        return Err(bad("non-utf8 tile header"));
    }
    let body = &bytes[pos..nl];
    assert(body@ =~= bytes@.subrange(pos as int, nl as int));
    let c1 = match find_from(body, 44u8, 0) {
        Some(c) => c,
        None => return Err(bad("malformed tile descriptor")),
    };
    let c2 = match find_from(body, 44u8, c1 + 1) {
        Some(c) => c,
        None => return Err(bad("malformed tile descriptor")),
    };
    let c3 = match find_from(body, 44u8, c2 + 1) {
        Some(c) => c,
        None => return Err(bad("malformed tile descriptor")),
    };
    if find_from(body, 44u8, c3 + 1).is_some() {
        return Err(bad("malformed tile descriptor"));
    }
    let x = match parse_i64_at(body, 0, c1) {
        Some(v) => v,
        None => return Err(bad("bad tile x")),
    };
    let mut ex: Vec<u8> = Vec::new();
    push_dec_i64(&mut ex, x);
    assert(ex@ =~= dec_int(x as int));
    if !same_bytes(body, 0, c1, &ex) {
        return Err(bad("bad tile x"));
    }
    let y = match parse_i64_at(body, c1 + 1, c2) {
        Some(v) => v,
        None => return Err(bad("bad tile y")),
    };
    let mut ey: Vec<u8> = Vec::new();
    push_dec_i64(&mut ey, y);
    assert(ey@ =~= dec_int(y as int));
    if !same_bytes(body, c1 + 1, c2, &ey) {
        return Err(bad("bad tile y"));
    }
    let len64 = match parse_unsigned_at(body, c3 + 1, body.len(), usize::MAX as u64) {
        Some(v) => v,
        None => return Err(bad("bad tile len")),
    };
    let mut el: Vec<u8> = Vec::new();
    push_dec_u64(&mut el, len64);
    assert(el@ =~= dec_nat(len64 as nat));
    if !same_bytes(body, c3 + 1, body.len(), &el) {
        return Err(bad("bad tile len"));
    }
    let len = len64 as usize;
    let start = nl + 1;
    if len > bytes.len() - start {
        return Err(bad("tile data past end of block"));
    }
    proof {
        let l = line@;
        lemma_valid_around_ascii(l, c3 as int);
        let p = l.subrange(0, c3 as int);
        assert(p[c2 as int] == body@[c2 as int]);
        lemma_valid_around_ascii(p, c2 as int);
        assert(p.subrange(c2 + 1, p.len() as int) =~= body@.subrange(c2 + 1, c3 as int));
    }
    let compression = match utf8_string(body, c2 + 1, c3) {
        Some(c) => c,
        None => return Err(bad("non-utf8 tile header")),
    };
    let data = crate::raster::copy_slice(&bytes[start..start + len]);
    assert(data@ =~= bytes@.subrange(start as int, start + len));
    Ok((Tile { x, y, compression, data }, start + len))
}


/// `done` put in front of the outcome of reading the remaining records.
pub open spec fn glue(done: Seq<TileView>, r: Result<(Seq<TileView>, int), Seq<char>>) -> Result<
    (Seq<TileView>, int),
    Seq<char>,
> {
    match r {
        Ok((rest, end)) => Ok((done + rest, end)),
        Err(m) => Err(m),
    }
}

/// The tile count seen so far, as a plain number.
pub open spec fn count_view(c: Option<usize>) -> Option<nat> {
    match c {
        Some(n) => Some(n as nat),
        None => None,
    }
}

/// Parse a block: the header text and every tile record, or `BadTiles` with the first fault.
pub fn parse(bytes: &[u8]) -> (r: Result<TiledBlock, KvcError>)
    ensures
        match parse_block(bytes@) {
            Ok(v) => r matches Ok(blk) && blk@ == v,
            Err(m) => r matches Err(KvcError::BadTiles(s)) && s@ == m,
        },
{
    let mut pos: usize = 0;
    let mut count: Option<usize> = None;
    let mut k: usize = 0;
    assert(bytes@.subrange(0, 0) =~= Seq::<u8>::empty());
    while k < 5
        invariant
            k <= 5,
            pos <= bytes.len(),
            valid_utf8(bytes@.subrange(0, pos as int)),
            scan_header(bytes@, 0, 5, None) == scan_header(
                bytes@,
                pos as int,
                (5 - k) as nat,
                count_view(count),
            ),
        decreases 5 - k,
    {
        let nl = match find_from(bytes, 10u8, pos) {
            Some(nl) => nl,
            None => return Err(bad("truncated header")),
        };
        let line = &bytes[pos..nl + 1];
        assert(line@ =~= bytes@.subrange(pos as int, nl + 1));
        let text = match str_from_utf8(line) {
            Some(t) => t,
            None => return Err(bad("non-utf8 header")),
        };
        let chars = chars_of(text);
        if chars.len() >= 5 && chars[0] == 'D' && chars[1] == 'A' && chars[2] == 'T' && chars[3]
            == 'A' && chars[4] == ' ' {
            assert(chars@.take(5) =~= data_prefix());
            let rest = &chars.as_slice()[5..chars.len()];
            assert(rest@ =~= chars@.skip(5));
            match read_count(rest) {
                Some(n) => {
                    count = Some(n);
                },
                None => return Err(bad("bad DATA count")),
            }
        } else {
            proof {
                if chars@.len() >= 5 && chars@.take(5) == data_prefix() {
                    assert(chars@.take(5)[0] == 'D' && chars@.take(5)[1] == 'A');
                    assert(chars@.take(5)[2] == 'T' && chars@.take(5)[3] == 'A');
                    assert(chars@.take(5)[4] == ' ');
                }
            }
        }
        proof {
            assert(bytes@.subrange(0, pos as int) + line@ =~= bytes@.subrange(0, nl + 1));
            vstd::utf8::valid_utf8_concat(bytes@.subrange(0, pos as int), line@);
        }
        pos = nl + 1;
        k = k + 1;
    }
    let n = match count {
        Some(n) => n,
        None => return Err(bad("missing DATA count")),
    };
    let header = match utf8_string(bytes, 0, pos) {
        Some(h) => h,
        None => return Err(bad("non-utf8 header")),
    };
    let ghost hend = pos as int;
    let mut tiles: Vec<Tile> = Vec::new();
    let mut i: usize = 0;
    while i < n
        invariant
            i <= n,
            pos <= bytes.len(),
            scan_header(bytes@, 0, 5, None) == Ok::<(int, Option<nat>), Seq<char>>(
                (hend, Some(n as nat)),
            ),
            header@ == decode_utf8(bytes@.subrange(0, hend)),
            scan_tiles(bytes@, hend, n as nat) == glue(
                tiles@.map_values(|t: Tile| t@),
                scan_tiles(bytes@, pos as int, (n - i) as nat),
            ),
        decreases n - i,
    {
        match read_tile(bytes, pos) {
            Err(e) => return Err(e),
            Ok((t, next)) => {
                let ghost before = tiles@.map_values(|t: Tile| t@);
                let ghost tv = t@;
                tiles.push(t);
                assert(tiles@.map_values(|t: Tile| t@) =~= before.push(tv));
                proof {
                    match scan_tiles(bytes@, next as int, (n - i - 1) as nat) {
                        Ok((rest, _)) => {
                            assert(before.push(tv) + rest =~= before + (seq![tv] + rest));
                        },
                        Err(_) => {},
                    }
                }
                pos = next;
            },
        }
        i = i + 1;
    }
    assert(tiles@.map_values(|t: Tile| t@) + seq![] =~= tiles@.map_values(|t: Tile| t@));
    if pos != bytes.len() {
        return Err(bad("trailing bytes after last tile"));
    }
    Ok(TiledBlock { header, tiles })
}


/// Append the descriptor line and the data of `t`.
pub(crate) fn push_record(out: &mut Vec<u8>, t: &Tile)
    ensures
        final(out)@ == old(out)@ + descriptor_bytes(t@) + t@.3,
{
    push_dec_i64(out, t.x);
    out.push(44u8);
    push_dec_i64(out, t.y);
    out.push(44u8);
    push_all(out, t.compression.as_str().as_bytes());
    out.push(44u8);
    push_dec_u64(out, t.data.len() as u64);
    out.push(10u8);
    push_all(out, t.data.as_slice());
    assert(out@ =~= old(out)@ + descriptor_bytes(t@) + t@.3);
}

/// The block's bytes: the header text verbatim, then each tile's descriptor line and data.
pub fn serialize(block: &TiledBlock) -> (out: Vec<u8>)
    ensures
        out@ == block_bytes(block@.0, block@.1),
{
    let mut out: Vec<u8> = Vec::new();
    push_all(&mut out, block.header.as_str().as_bytes());
    let ghost views = block@.1;
    let mut i: usize = 0;
    assert(views.take(0) =~= Seq::<TileView>::empty());
    while i < block.tiles.len()
        invariant
            i <= block.tiles.len(),
            views == block@.1,
            views.len() == block.tiles@.len(),
            out@ == encode_utf8(block.header@) + tiles_bytes(views.take(i as int)),
        decreases block.tiles.len() - i,
    {
        let t = &block.tiles[i];
        let ghost before = out@;
        push_record(&mut out, t);
        proof {
            let tv = views[i as int];
            assert(tv == t@);
            assert(views.take(i + 1).drop_last() =~= views.take(i as int));
            assert(views.take(i + 1).last() == tv);
        }
        i = i + 1;
    }
    assert(views.take(views.len() as int) =~= views);
    out
}


/// Whether `s` holds no byte `v`.
pub open spec fn free_of(s: Seq<u8>, v: u8) -> bool {
    forall|i: int| 0 <= i < s.len() ==> #[trigger] s[i] != v
}

/// A tile that a block can carry: coordinates within `i64`, a data length within `usize`, and
/// a compression tag whose UTF-8 holds no comma and no newline.
pub open spec fn tile_fits(t: TileView) -> bool {
    &&& i64::MIN <= t.0 <= i64::MAX
    &&& i64::MIN <= t.1 <= i64::MAX
    &&& t.3.len() <= usize::MAX
    &&& free_of(encode_utf8(t.2), 44)
    &&& free_of(encode_utf8(t.2), 10)
}

/// A header that reads alone as exactly five lines announcing `n` tiles.
pub open spec fn header_announces(h: Seq<char>, n: nat) -> bool {
    scan_header(encode_utf8(h), 0, 5, None) == Ok::<(int, Option<nat>), Seq<char>>(
        (encode_utf8(h).len() as int, Some(n)),
    )
}

proof fn lemma_find_first(s: Seq<u8>, sep: u8, from: int, i: int)
    requires
        0 <= from <= i < s.len(),
        s[i] == sep,
        forall|k: int| from <= k < i ==> s[k] != sep,
    ensures
        find_byte(s, sep, from) == Some(i),
    decreases i - from,
{
    if from < i {
        lemma_find_first(s, sep, from + 1, i);
    }
}

proof fn lemma_find_none(s: Seq<u8>, sep: u8, from: int)
    requires
        0 <= from,
        forall|k: int| from <= k < s.len() ==> s[k] != sep,
    ensures
        find_byte(s, sep, from) is None,
    decreases s.len() - from,
{
    if from < s.len() {
        lemma_find_none(s, sep, from + 1);
    }
}

proof fn lemma_find_in_prefix(b1: Seq<u8>, b2: Seq<u8>, sep: u8, pos: int)
    requires
        find_byte(b1, sep, pos) is Some,
    ensures
        find_byte(b1 + b2, sep, pos) == find_byte(b1, sep, pos),
    decreases b1.len() - pos,
{
    if 0 <= pos < b1.len() && b1[pos] != sep {
        lemma_find_in_prefix(b1, b2, sep, pos + 1);
    }
}

/// A header read to its end in `b1` reads the same with anything after it.
proof fn lemma_scan_header_prefix(b1: Seq<u8>, b2: Seq<u8>, pos: int, k: nat, c: Option<nat>)
    requires
        scan_header(b1, pos, k, c) is Ok,
    ensures
        scan_header(b1 + b2, pos, k, c) == scan_header(b1, pos, k, c),
    decreases k,
{
    if k > 0 {
        let nl = find_byte(b1, 10, pos)->0;
        lemma_find_in_prefix(b1, b2, 10, pos);
        lemma_find_first_bounds(b1, 10, pos);
        assert((b1 + b2).subrange(pos, nl + 1) =~= b1.subrange(pos, nl + 1));
        let text = decode_utf8(b1.subrange(pos, nl + 1));
        if text.len() >= 5 && text.take(5) == data_prefix() {
            lemma_scan_header_prefix(b1, b2, nl + 1, (k - 1) as nat, parse_count(text.skip(5)));
        } else {
            lemma_scan_header_prefix(b1, b2, nl + 1, (k - 1) as nat, c);
        }
    }
}

proof fn lemma_find_first_bounds(s: Seq<u8>, sep: u8, from: int)
    ensures
        find_byte(s, sep, from) matches Some(i) ==> from <= i < s.len() && s[i] == sep,
    decreases s.len() - from,
{
    if 0 <= from < s.len() && s[from] != sep {
        lemma_find_first_bounds(s, sep, from + 1);
    }
}


/// A printed count is ASCII and holds no comma and no newline.
proof fn lemma_dec_nat_plain(n: nat)
    ensures
        all_ascii(dec_nat(n)),
        free_of(dec_nat(n), 44),
        free_of(dec_nat(n), 10),
{
    lemma_dec_nat_digits(n);
    assert(all_digits(dec_nat(n)));
}

/// A printed coordinate is ASCII and holds no comma and no newline.
proof fn lemma_dec_int_plain(x: int)
    ensures
        all_ascii(dec_int(x)),
        free_of(dec_int(x), 44),
        free_of(dec_int(x), 10),
{
    if x < 0 {
        let d = dec_nat((-x) as nat);
        lemma_dec_nat_plain((-x) as nat);
        let s = dec_int(x);
        assert(s =~= seq![45u8] + d);
        assert forall|i: int| 0 <= i < s.len() implies #[trigger] s[i] < 128 && s[i] != 44
            && s[i] != 10 by {
            if i > 0 {
                assert(s[i] == d[i - 1]);
            }
        }
    } else {
        lemma_dec_nat_plain(x as nat);
    }
}


proof fn lemma_free_concat(a: Seq<u8>, b: Seq<u8>, v: u8)
    requires
        free_of(a, v),
        free_of(b, v),
    ensures
        free_of(a + b, v),
{
    assert forall|i: int| 0 <= i < (a + b).len() implies #[trigger] (a + b)[i] != v by {
        if i >= a.len() {
            assert((a + b)[i] == b[i - a.len()]);
        }
    }
}

proof fn lemma_ascii_concat(a: Seq<u8>, b: Seq<u8>)
    requires
        all_ascii(a),
        all_ascii(b),
    ensures
        all_ascii(a + b),
{
    assert forall|i: int| 0 <= i < (a + b).len() implies #[trigger] (a + b)[i] < 128 by {
        if i >= a.len() {
            assert((a + b)[i] == b[i - a.len()]);
        }
    }
}

/// The record of a fitting tile reads back as that tile, whatever stands before or after it.
#[verifier::rlimit(100)]
proof fn lemma_scan_tile_record(pre: Seq<u8>, t: TileView, rest: Seq<u8>)
    requires
        tile_fits(t),
    ensures
        scan_tile(pre + descriptor_bytes(t) + t.3 + rest, pre.len() as int) == Ok::<
            (TileView, int),
            Seq<char>,
        >((t, (pre.len() + descriptor_bytes(t).len() + t.3.len()) as int)),
{
    let dx = dec_int(t.0);
    let dy = dec_int(t.1);
    let ec = encode_utf8(t.2);
    let dl = dec_nat(t.3.len());
    lemma_dec_int_plain(t.0);
    lemma_dec_int_plain(t.1);
    lemma_dec_nat_plain(t.3.len());
    let comma = seq![44u8];
    let newline = seq![10u8];
    assert(free_of(comma, 10) && all_ascii(comma) && all_ascii(newline));
    let a1 = dx + comma;
    let a2 = a1 + dy;
    let a3 = a2 + comma;
    let a4 = a3 + ec;
    let a5 = a4 + comma;
    let bd = a5 + dl;
    lemma_free_concat(dx, comma, 10);
    lemma_free_concat(a1, dy, 10);
    lemma_free_concat(a2, comma, 10);
    lemma_free_concat(a3, ec, 10);
    lemma_free_concat(a4, comma, 10);
    lemma_free_concat(a5, dl, 10);
    let d = descriptor_bytes(t);
    assert(d =~= bd + newline);
    let b = pre + d + t.3 + rest;
    let p = pre.len() as int;
    let nl = p + bd.len();
    assert(b.subrange(p, nl) =~= bd);
    assert(b.subrange(p, nl + 1) =~= d);
    assert forall|k: int| p <= k < nl implies b[k] != 10u8 by {
        assert(b[k] == bd[k - p]);
    }
    lemma_find_first(b, 10, p, nl);
    // the descriptor line is UTF-8
    lemma_ascii_concat(dx, comma);
    lemma_ascii_concat(a1, dy);
    lemma_ascii_concat(a2, comma);
    lemma_ascii_valid(a3);
    vstd::utf8::encode_utf8_valid_utf8(t.2);
    lemma_ascii_concat(comma, dl);
    lemma_ascii_concat(comma + dl, newline);
    lemma_ascii_valid(comma + dl + newline);
    vstd::utf8::valid_utf8_concat(a3, ec);
    vstd::utf8::valid_utf8_concat(a4, comma + dl + newline);
    assert(d =~= a4 + (comma + dl + newline));
    // the three commas
    let c1 = dx.len() as int;
    let c2 = c1 + 1 + dy.len();
    let c3 = c2 + 1 + ec.len();
    assert forall|k: int| 0 <= k < c1 implies bd[k] != 44u8 by {
        assert(bd[k] == dx[k]);
    }
    lemma_find_first(bd, 44, 0, c1);
    assert forall|k: int| c1 + 1 <= k < c2 implies bd[k] != 44u8 by {
        assert(bd[k] == dy[k - c1 - 1]);
    }
    lemma_find_first(bd, 44, c1 + 1, c2);
    assert forall|k: int| c2 + 1 <= k < c3 implies bd[k] != 44u8 by {
        assert(bd[k] == ec[k - c2 - 1]);
    }
    lemma_find_first(bd, 44, c2 + 1, c3);
    assert forall|k: int| c3 + 1 <= k < bd.len() implies bd[k] != 44u8 by {
        assert(bd[k] == dl[k - c3 - 1]);
    }
    lemma_find_none(bd, 44, c3 + 1);
    // the fields
    assert(bd.subrange(0, c1) =~= dx);
    assert(bd.subrange(c1 + 1, c2) =~= dy);
    assert(bd.subrange(c2 + 1, c3) =~= ec);
    assert(bd.subrange(c3 + 1, bd.len() as int) =~= dl);
    lemma_parse_dec_int(t.0);
    lemma_parse_dec_int(t.1);
    lemma_parse_dec_nat(t.3.len(), usize::MAX as nat);
    vstd::utf8::encode_utf8_decode_utf8(t.2);
    assert(b.subrange(nl + 1, nl + 1 + t.3.len()) =~= t.3);
}


proof fn lemma_tiles_bytes_front(ts: Seq<TileView>)
    requires
        ts.len() > 0,
    ensures
        tiles_bytes(ts) == descriptor_bytes(ts[0]) + ts[0].3 + tiles_bytes(ts.skip(1)),
    decreases ts.len(),
{
    if ts.len() == 1 {
        assert(ts.drop_last() =~= Seq::<TileView>::empty());
        assert(ts.skip(1) =~= Seq::<TileView>::empty());
        assert(ts.last() == ts[0]);
    } else {
        let init = ts.drop_last();
        lemma_tiles_bytes_front(init);
        assert(init.skip(1) =~= ts.skip(1).drop_last());
        assert(ts.skip(1).last() == ts.last());
        assert(init[0] == ts[0]);
    }
}

proof fn lemma_scan_tiles_records(pre: Seq<u8>, ts: Seq<TileView>)
    requires
        forall|i: int| 0 <= i < ts.len() ==> tile_fits(#[trigger] ts[i]),
    ensures
        scan_tiles(pre + tiles_bytes(ts), pre.len() as int, ts.len()) == Ok::<
            (Seq<TileView>, int),
            Seq<char>,
        >((ts, (pre.len() + tiles_bytes(ts).len()) as int)),
    decreases ts.len(),
{
    if ts.len() > 0 {
        let t = ts[0];
        let d = descriptor_bytes(t);
        let tail = ts.skip(1);
        lemma_tiles_bytes_front(ts);
        assert(pre + tiles_bytes(ts) =~= pre + d + t.3 + tiles_bytes(tail));
        assert(tile_fits(ts[0]));
        lemma_scan_tile_record(pre, t, tiles_bytes(tail));
        let pre2 = pre + d + t.3;
        assert(pre + tiles_bytes(ts) =~= pre2 + tiles_bytes(tail));
        assert forall|i: int| 0 <= i < tail.len() implies tile_fits(#[trigger] tail[i]) by {
            assert(tail[i] == ts[i + 1]);
        }
        lemma_scan_tiles_records(pre2, tail);
        assert(seq![t] + tail =~= ts);
    } else {
        assert(ts =~= Seq::<TileView>::empty());
    }
}

/// Serializing a block and parsing the bytes gives the block back, for every block whose
/// header reads alone as five lines announcing its tile count and whose tiles fit the record
/// format.
pub proof fn lemma_parse_serialize(header: Seq<char>, ts: Seq<TileView>)
    requires
        header_announces(header, ts.len()),
        forall|i: int| 0 <= i < ts.len() ==> tile_fits(#[trigger] ts[i]),
    ensures
        parse_block(block_bytes(header, ts)) == Ok::<(Seq<char>, Seq<TileView>), Seq<char>>(
            (header, ts),
        ),
{
    let eh = encode_utf8(header);
    let b = block_bytes(header, ts);
    lemma_scan_header_prefix(eh, tiles_bytes(ts), 0, 5, None);
    lemma_scan_tiles_records(eh, ts);
    assert(b.subrange(0, eh.len() as int) =~= eh);
    vstd::utf8::encode_utf8_decode_utf8(header);
}


proof fn lemma_scan_header_valid(b: Seq<u8>, pos: int, k: nat, c: Option<nat>)
    requires
        0 <= pos <= b.len(),
        valid_utf8(b.subrange(0, pos)),
        scan_header(b, pos, k, c) is Ok,
    ensures
        scan_header(b, pos, k, c) matches Ok((end, _)) && pos <= end <= b.len() && valid_utf8(b.subrange(0, end)),
    decreases k,
{
    if k > 0 {
        lemma_find_first_bounds(b, 10, pos);
        let nl = find_byte(b, 10, pos)->0;
        let line = b.subrange(pos, nl + 1);
        assert(b.subrange(0, pos) + line =~= b.subrange(0, nl + 1));
        vstd::utf8::valid_utf8_concat(b.subrange(0, pos), line);
        let text = decode_utf8(line);
        if text.len() >= 5 && text.take(5) == data_prefix() {
            let n = parse_count(text.skip(5))->0;
            lemma_scan_header_valid(b, nl + 1, (k - 1) as nat, Some(n));
        } else {
            lemma_scan_header_valid(b, nl + 1, (k - 1) as nat, c);
        }
    }
}

proof fn lemma_scan_tile_bytes(b: Seq<u8>, pos: int)
    requires
        0 <= pos <= b.len(),
        scan_tile(b, pos) is Ok,
    ensures
        scan_tile(b, pos) matches Ok((t, next)) && pos < next <= b.len() && b.subrange(pos, next) == descriptor_bytes(t)
            + t.3,
{
    lemma_find_first_bounds(b, 10, pos);
    let nl = find_byte(b, 10, pos)->0;
    let line = b.subrange(pos, nl + 1);
    let body = b.subrange(pos, nl);
    lemma_find_first_bounds(body, 44, 0);
    let c1 = find_byte(body, 44, 0)->0;
    lemma_find_first_bounds(body, 44, c1 + 1);
    let c2 = find_byte(body, 44, c1 + 1)->0;
    lemma_find_first_bounds(body, 44, c2 + 1);
    let c3 = find_byte(body, 44, c2 + 1)->0;
    let (t, next) = scan_tile(b, pos)->Ok_0;
    let len = t.3.len();
    assert(line[c3] == body[c3]);
    lemma_valid_around_ascii(line, c3);
    let p = line.subrange(0, c3);
    assert(p[c2] == body[c2]);
    lemma_valid_around_ascii(p, c2);
    assert(p.subrange(c2 + 1, p.len() as int) =~= body.subrange(c2 + 1, c3));
    vstd::utf8::decode_utf8_encode_utf8(body.subrange(c2 + 1, c3));
    assert(body =~= body.subrange(0, c1) + seq![44u8] + body.subrange(c1 + 1, c2) + seq![44u8] + body.subrange(c2 + 1, c3)
        + seq![44u8] + body.subrange(c3 + 1, body.len() as int));
    assert(b.subrange(pos, next) =~= body + seq![10u8] + t.3);
}

#[verifier::rlimit(60)]
proof fn lemma_scan_tiles_bytes(b: Seq<u8>, pos: int, k: nat)
    requires
        0 <= pos <= b.len(),
        scan_tiles(b, pos, k) is Ok,
    ensures
        scan_tiles(b, pos, k) matches Ok((ts, end)) && pos <= end <= b.len() && b.subrange(pos, end) == tiles_bytes(ts),
    decreases k,
{
    if k == 0 {
        assert(b.subrange(pos, pos) =~= Seq::<u8>::empty());
    } else {
        lemma_scan_tile_bytes(b, pos);
        let (t, next) = scan_tile(b, pos)->Ok_0;
        lemma_scan_tiles_bytes(b, next, (k - 1) as nat);
        let (rest, end) = scan_tiles(b, next, (k - 1) as nat)->Ok_0;
        let ts = seq![t] + rest;
        lemma_tiles_bytes_front(ts);
        assert(ts[0] == t);
        assert(ts.skip(1) =~= rest);
        assert(b.subrange(pos, end) =~= b.subrange(pos, next) + b.subrange(next, end));
    }
}

/// Parsing a block and serializing what came out gives back exactly the bytes parsed: `parse`
/// accepts only bytes that are a header followed by records written the way `serialize` writes
/// them, with nothing after the last record.
pub proof fn lemma_serialize_parse(b: Seq<u8>)
    requires
        parse_block(b) is Ok,
    ensures
        parse_block(b) matches Ok((h, ts)) && block_bytes(h, ts) == b,
{
    assert(b.subrange(0, 0) =~= Seq::<u8>::empty());
    lemma_scan_header_valid(b, 0, 5, None);
    let (end, count) = scan_header(b, 0, 5, None)->Ok_0;
    let n = count->0;
    lemma_scan_tiles_bytes(b, end, n);
    vstd::utf8::decode_utf8_encode_utf8(b.subrange(0, end));
    assert(b =~= b.subrange(0, end) + b.subrange(end, b.len() as int));
}

} // verus!
