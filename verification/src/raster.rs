//! Decoding Krita layer tiles into pixel rasters for the visual diff viewer.
//!
//! A stored tile is `[1-byte compression flag][payload]`: flag `1` = LZF-compressed, `0` = raw.
//! The decoded tile is `TILEWIDTH*TILEHEIGHT*PIXELSIZE` bytes, stored planar (one full channel
//! plane after another). Only RGBA 8-bit (pixel size 4, planes B,G,R,A) is decoded.

use crate::lzf::{lzf_compress, lzf_decode, lzf_decompress};
use vstd::prelude::*;

verus! {

/// Planar channel order for Krita's RGBA8 colorspace (in-memory BGRA).
pub const PLANE_B: usize = 0;
pub const PLANE_G: usize = 1;
pub const PLANE_R: usize = 2;
pub const PLANE_A: usize = 3;

/// The planar pixels a stored tile holds, when it decodes to exactly `expected` bytes.
pub open spec fn tile_planar_spec(stored: Seq<u8>, expected: nat) -> Option<Seq<u8>> {
    if stored.len() == 0 {
        None
    } else {
        let payload = stored.skip(1);
        let planar: Option<Seq<u8>> = if stored[0] == 0 {
            Some(payload)
        } else if stored[0] == 1 {
            lzf_decode(payload)
        } else {
            None
        };
        match planar {
            Some(p) => if p.len() == expected { Some(p) } else { None },
            None => None,
        }
    }
}

/// Decode a tile's stored bytes (`[flag][payload]`) into its planar pixel buffer of exactly
/// `expected` bytes. `None` on an unknown flag, malformed LZF, or a length mismatch.
pub fn tile_planar(stored: &[u8], expected: usize) -> (r: Option<Vec<u8>>)
    ensures
        match r {
            Some(v) => tile_planar_spec(stored@, expected as nat) == Some(v@),
            None => tile_planar_spec(stored@, expected as nat) is None,
        },
{
    if stored.len() == 0 {
        return None;
    }
    let flag = stored[0];
    let payload = slice_skip1(stored);
    let planar = if flag == 0 {
        copy_slice(payload)
    } else if flag == 1 {
        match lzf_decompress(payload, expected) {
            Some(p) => p,
            None => return None,
        }
    } else {
        return None;
    };
    if planar.len() == expected {
        Some(planar)
    } else {
        None
    }
}

/// The slice without its first element.
fn slice_skip1(s: &[u8]) -> (r: &[u8])
    requires
        s.len() >= 1,
    ensures
        r@ == s@.skip(1),
{
    let r = &s[1..s.len()];
    assert(r@ =~= s@.skip(1));
    r
}

/// An owned copy of a byte slice.
pub fn copy_slice(s: &[u8]) -> (v: Vec<u8>)
    ensures
        v@ == s@,
{
    let mut v: Vec<u8> = Vec::new();
    let mut i: usize = 0;
    while i < s.len()
        invariant
            i <= s.len(),
            v@ == s@.subrange(0, i as int),
        decreases s.len() - i,
    {
        v.push(s[i]);
        proof {
            assert(s@.subrange(0, i + 1) =~= s@.subrange(0, i as int).push(s[i as int]));
        }
        i = i + 1;
    }
    assert(s@.subrange(0, s@.len() as int) =~= s@);
    v
}

/// Re-encode planar pixels as a stored tile payload: LZF when it actually shrinks, raw
/// otherwise. Decoding the result gives back exactly `planar`.
pub fn tile_from_planar(planar: &[u8]) -> (out: Vec<u8>)
    ensures
        tile_planar_spec(out@, planar@.len()) == Some(planar@),
        out@.len() >= 1,
        out@[0] == 0 ==> out@ == seq![0u8] + planar@,
        out@[0] == 1 ==> out@.len() <= planar@.len(),
        out@[0] == 1 ==> lzf_decode(out@.skip(1)) == Some(planar@),
        out@[0] == 0 || out@[0] == 1,
        crate::lzf::all_same(planar@) && planar@.len() >= 1000 ==> out@[0] == 1 && out@.len() <= planar@.len() / 4,
{
    let c = lzf_compress(planar);
    let mut out: Vec<u8> = Vec::new();
    let body: &[u8] = if c.len() < planar.len() {
        out.push(1u8);
        c.as_slice()
    } else {
        out.push(0u8);
        planar
    };
    let ghost head = out@;
    let mut i: usize = 0;
    while i < body.len()
        invariant
            i <= body.len(),
            out@ == head + body@.subrange(0, i as int),
        decreases body.len() - i,
    {
        out.push(body[i]);
        proof {
            assert(body@.subrange(0, i + 1) =~= body@.subrange(0, i as int).push(body[i as int]));
        }
        i = i + 1;
    }
    proof {
        assert(body@.subrange(0, body@.len() as int) =~= body@);
        assert(out@.skip(1) =~= body@);
    }
    out
}

/// Which plane feeds interleaved channel `c` (0 = R, 1 = G, 2 = B, 3 = A).
pub open spec fn plane_of(c: int) -> int {
    if c == 0 {
        PLANE_R as int
    } else if c == 1 {
        PLANE_G as int
    } else if c == 2 {
        PLANE_B as int
    } else {
        PLANE_A as int
    }
}

/// Interleaved RGBA of a planar B,G,R,A buffer of `n` pixels.
pub open spec fn interleave(planar: Seq<u8>, n: int) -> Seq<u8> {
    Seq::new((4 * n) as nat, |k: int| planar[plane_of(k % 4) * n + k / 4])
}

/// Interleave a planar RGBA8 buffer (`tw*th*4`, planes B,G,R,A) into RGBA pixels.
/// `None` on a length mismatch.
pub fn planar_to_rgba(planar: &[u8], tw: usize, th: usize) -> (r: Option<Vec<u8>>)
    requires
        tw * th * 4 <= usize::MAX,
    ensures
        match r {
            Some(v) => planar@.len() == tw * th * 4 && v@ == interleave(planar@, tw * th),
            None => planar@.len() != tw * th * 4,
        },
{
    proof {
        vstd::arithmetic::mul::lemma_mul_nonnegative(tw as int, th as int);
    }
    let n: usize = tw * th;
    if planar.len() != n * 4 {
        return None;
    }
    let mut rgba: Vec<u8> = Vec::new();
    let mut i: usize = 0;
    while i < n
        invariant
            i <= n,
            n * 4 <= usize::MAX,
            planar@.len() == n * 4,
            rgba@.len() == 4 * i,
            forall|k: int| 0 <= k < 4 * i ==> #[trigger] rgba@[k] == planar@[plane_of(k % 4) * n + k / 4],
        decreases n - i,
    {
        let ghost before = rgba@;
        rgba.push(planar[PLANE_R * n + i]);
        rgba.push(planar[PLANE_G * n + i]);
        rgba.push(planar[PLANE_B * n + i]);
        rgba.push(planar[PLANE_A * n + i]);
        proof {
            assert forall|k: int| 0 <= k < 4 * (i + 1) implies #[trigger] rgba@[k] == planar@[plane_of(k % 4) * n + k / 4] by {
                if k < 4 * i {
                    assert(rgba@[k] == before[k]);
                } else {
                    assert(k / 4 == i);
                }
            }
        }
        i = i + 1;
    }
    proof {
        assert(rgba@ =~= interleave(planar@, n as int));
    }
    Some(rgba)
}

/// Decode one tile's stored bytes into interleaved RGBA (`tw*th*4`). `None` if the pixel size
/// is not 4 or the tile doesn't decode to exactly `tw*th*4` bytes.
pub fn tile_to_rgba(stored: &[u8], tw: usize, th: usize, pixelsize: usize) -> (r: Option<Vec<u8>>)
    requires
        tw * th * 4 <= usize::MAX,
    ensures
        match r {
            Some(v) => pixelsize == 4 && (tile_planar_spec(stored@, (tw * th * 4) as nat) matches Some(p)
                && v@ == interleave(p, tw * th)),
            None => pixelsize != 4 || tile_planar_spec(stored@, (tw * th * 4) as nat) is None,
        },
{
    if pixelsize != 4 {
        return None;
    }
    proof {
        vstd::arithmetic::mul::lemma_mul_nonnegative(tw as int, th as int);
    }
    let planar = match tile_planar(stored, tw * th * pixelsize) {
        Some(p) => p,
        None => return None,
    };
    planar_to_rgba(planar.as_slice(), tw, th)
}

} // verus!
