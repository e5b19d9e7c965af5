//! What the diff viewer is shown: PNG encoding of rasters, `data:` URLs, and the highlight mask
//! that tints the pixels where two composites differ.

use crate::canvas::{cap_rgba, down_px, px, capped_dim};
use crate::error::KvcError;
use crate::text::{all_ascii, ascii_chars, ascii_string};
use vstd::prelude::*;

verus! {

/// What the PNG decoder makes of `data`: pixels, width, height, the PNG color type code
/// (0 gray, 2 RGB, 3 indexed, 4 gray+alpha, 6 RGBA) and the bit depth.
pub uninterp spec fn png_decoded(data: Seq<u8>) -> Option<(Seq<u8>, u32, u32, u8, u8)>;

/// The PNG the encoder writes for an RGBA8 raster (fast deflate, no row filter).
pub uninterp spec fn png_encoding(rgba: Seq<u8>, width: u32, height: u32) -> Seq<u8>;

/// `png::Decoder`: header and first frame of a PNG, with the color type and bit depth as their
/// PNG codes. The contract names the result; a stream the crate cannot read gives `None`.
#[verifier::external_body]
fn png_decode(data: &[u8]) -> (r: Option<(Vec<u8>, u32, u32, u8, u8)>)
    ensures
        match r {
            Some(t) => png_decoded(data@) == Some((t.0@, t.1, t.2, t.3, t.4)),
            None => png_decoded(data@) is None,
        },
{
    let mut reader = png::Decoder::new(std::io::Cursor::new(data)).read_info().ok()?;
    let info = reader.info();
    let (w, h, color, depth) = (info.width, info.height, info.color_type as u8, info.bit_depth as u8);
    let mut buf = vec![0u8; reader.output_buffer_size()?];
    let frame = reader.next_frame(&mut buf).ok()?;
    buf.truncate(frame.buffer_size());
    Some((buf, w, h, color, depth))
}

/// `png::Encoder`: an RGBA8 raster as PNG bytes (fast deflate, no row filter). The contract
/// names the bytes, and says what the crate's source shows of success: the header is refused
/// exactly for a zero side, and the pixel data exactly when it is not `width * height * 4`
/// bytes (the output is an in-memory buffer, which never refuses a write). The crate computes
/// that product without a check, so `requires` keeps it within the machine word. On failure the
/// error's text comes back, flagged `true` when the header could not be written and `false`
/// when the pixel data was refused.
#[verifier::external_body]
fn png_encode(rgba: &[u8], width: u32, height: u32) -> (r: Result<Vec<u8>, (bool, String)>)
    requires
        width * height * 4 <= usize::MAX,
    ensures
        r matches Ok(v) ==> v@ == png_encoding(rgba@, width, height),
        r is Ok <==> encodable(rgba@, width, height),
{
    let mut out = Vec::new();
    {
        let mut enc = png::Encoder::new(std::io::Cursor::new(&mut out), width, height);
        enc.set_color(png::ColorType::Rgba);
        enc.set_depth(png::BitDepth::Eight);
        enc.set_compression(png::Compression::Fast);
        enc.set_filter(png::Filter::NoFilter);
        let mut w = enc.write_header().map_err(|e| (true, e.to_string()))?;
        w.write_image_data(rgba).map_err(|e| (false, e.to_string()))?;
    }
    Ok(out)
}

/// Whether an RGBA8 raster can be written as a PNG: both sides non-zero and exactly four bytes
/// per pixel.
pub open spec fn encodable(rgba: Seq<u8>, width: u32, height: u32) -> bool {
    width > 0 && height > 0 && rgba.len() == width * height * 4
}

/// Encode an RGBA8 raster as PNG bytes; a refusal is `BadTiles` saying which step failed.
pub fn rgba_to_png(rgba: &[u8], width: u32, height: u32) -> (r: Result<Vec<u8>, KvcError>)
    requires
        width * height * 4 <= usize::MAX,
    ensures
        r matches Ok(v) ==> v@ == png_encoding(rgba@, width, height),
        r is Ok <==> encodable(rgba@, width, height),
        r matches Err(e) ==> e is BadTiles,
{
    match png_encode(rgba, width, height) {
        Ok(v) => Ok(v),
        Err((header, msg)) => {
            let mut m = if header {
                String::from_str("png header: ")
            } else {
                String::from_str("png data: ")
            };
            m.append(msg.as_str());
            Err(KvcError::BadTiles(m))
        },
    }
}

/// The base64 alphabet's character for a 6-bit value.
pub open spec fn b64_char(v: int) -> u8 {
    if v < 26 {
        (65 + v) as u8
    } else if v < 52 {
        (97 + v - 26) as u8
    } else if v < 62 {
        (48 + v - 52) as u8
    } else if v == 62 {
        43u8
    } else {
        47u8
    }
}

/// Standard base64 of `b`, padded with `=`.
pub open spec fn b64(b: Seq<u8>) -> Seq<u8>
    decreases b.len(),
{
    if b.len() == 0 {
        Seq::empty()
    } else if b.len() == 1 {
        seq![b64_char(b[0] as int / 4), b64_char((b[0] as int % 4) * 16), 61u8, 61u8]
    } else if b.len() == 2 {
        seq![b64_char(b[0] as int / 4), b64_char((b[0] as int % 4) * 16 + b[1] as int / 16), b64_char((b[1] as int % 16) * 4), 61u8]
    } else {
        seq![
            b64_char(b[0] as int / 4),
            b64_char((b[0] as int % 4) * 16 + b[1] as int / 16),
            b64_char((b[1] as int % 16) * 4 + b[2] as int / 64),
            b64_char(b[2] as int % 64),
        ] + b64(b.skip(3))
    }
}

fn b64_exec(v: u8) -> (c: u8)
    requires
        v < 64,
    ensures
        c == b64_char(v as int),
        c < 128,
{
    if v < 26 {
        65 + v
    } else if v < 52 {
        97 + v - 26
    } else if v < 62 {
        48 + v - 52
    } else if v == 62 {
        43
    } else {
        47
    }
}

proof fn lemma_b64_ascii(b: Seq<u8>)
    ensures
        all_ascii(b64(b)),
    decreases b.len(),
{
    if b.len() >= 3 {
        lemma_b64_ascii(b.skip(3));
        let head = seq![
            b64_char(b[0] as int / 4),
            b64_char((b[0] as int % 4) * 16 + b[1] as int / 16),
            b64_char((b[1] as int % 16) * 4 + b[2] as int / 64),
            b64_char(b[2] as int % 64),
        ];
        crate::text::lemma_all_ascii_concat(head, b64(b.skip(3)));
    }
}

/// Standard base64 of `bytes`, padded with `=`.
pub fn base64(bytes: &[u8]) -> (s: String)
    ensures
        s@ == ascii_chars(b64(bytes@)),
{
    let mut out: Vec<u8> = Vec::new();
    let mut i: usize = 0;
    proof {
        assert(bytes@.skip(0) =~= bytes@);
    }
    while bytes.len() - i >= 3
        invariant
            i <= bytes.len(),
            out@ + b64(bytes@.skip(i as int)) == b64(bytes@),
        decreases bytes.len() - i,
    {
        let ghost rest = bytes@.skip(i as int);
        let ghost before = out@;
        let b0 = bytes[i];
        let b1 = bytes[i + 1];
        let b2 = bytes[i + 2];
        out.push(b64_exec(b0 / 4));
        out.push(b64_exec((b0 % 4) * 16 + b1 / 16));
        out.push(b64_exec((b1 % 16) * 4 + b2 / 64));
        out.push(b64_exec(b2 % 64));
        proof {
            assert(rest.skip(3) =~= bytes@.skip(i + 3));
            assert(rest[0] == b0 && rest[1] == b1 && rest[2] == b2);
            assert(out@ + b64(bytes@.skip(i + 3)) =~= before + b64(rest));
        }
        i += 3;
    }
    let ghost rest = bytes@.skip(i as int);
    let ghost before = out@;
    if bytes.len() - i == 1 {
        let b0 = bytes[i];
        out.push(b64_exec(b0 / 4));
        out.push(b64_exec((b0 % 4) * 16));
        out.push(61);
        out.push(61);
        proof {
            assert(rest[0] == b0);
            assert(out@ =~= before + b64(rest));
        }
    } else if bytes.len() - i == 2 {
        let b0 = bytes[i];
        let b1 = bytes[i + 1];
        out.push(b64_exec(b0 / 4));
        out.push(b64_exec((b0 % 4) * 16 + b1 / 16));
        out.push(b64_exec((b1 % 16) * 4));
        out.push(61);
        proof {
            assert(rest[0] == b0 && rest[1] == b1);
            assert(out@ =~= before + b64(rest));
        }
    } else {
        proof {
            assert(rest.len() == 0);
            assert(out@ =~= before + b64(rest));
        }
    }
    proof {
        lemma_b64_ascii(bytes@);
        assert(out@ == b64(bytes@));
    }
    ascii_string(out.as_slice())
}

/// The `data:` URL of PNG bytes.
pub open spec fn data_url(png: Seq<u8>) -> Seq<char> {
    "data:image/png;base64,"@ + ascii_chars(b64(png))
}

/// Wrap already-encoded PNG bytes in a `data:` URL.
pub fn png_bytes_to_data_url(png: &[u8]) -> (s: String)
    ensures
        s@ == data_url(png@),
{
    proof {
        reveal_strlit("data:image/png;base64,");
    }
    let mut s = String::from_str("data:image/png;base64,");
    let b = base64(png);
    s.append(b.as_str());
    s
}

/// Encode an RGBA8 raster as a PNG and wrap it in a `data:` URL.
pub fn rgba_to_png_data_url(rgba: &[u8], width: u32, height: u32) -> (r: Result<String, KvcError>)
    requires
        width * height * 4 <= usize::MAX,
    ensures
        r matches Ok(s) ==> s@ == data_url(png_encoding(rgba@, width, height)),
        r matches Err(e) ==> e is BadTiles,
        r is Ok <==> encodable(rgba@, width, height),
{
    match rgba_to_png(rgba, width, height) {
        Ok(p) => Ok(png_bytes_to_data_url(p.as_slice())),
        Err(e) => Err(e),
    }
}

/// Whether cached rasters may be served through the desktop shell's image scheme instead of
/// inline `data:` URLs.
pub struct ImgProtocol {
    pub enabled: bool,
}

/// Record that the image scheme is registered and may serve cached rasters.
pub fn enable_img_protocol(p: &mut ImgProtocol)
    ensures
        final(p).enabled,
{
    p.enabled = true;
}

/// RGB pixels widened to RGBA, fully opaque (a trailing partial pixel is dropped).
pub open spec fn expand_rgb(p: Seq<u8>) -> Seq<u8> {
    Seq::new(p.len() / 3 * 4, |i: int| if i % 4 == 3 { 255u8 } else { p[(i / 4) * 3 + i % 4] })
}

/// The straight-alpha RGBA8 pixels and size of a PNG, when it is an 8-bit RGB or RGBA image of
/// non-zero size (RGB gains an opaque alpha).
pub open spec fn png_rgba(data: Seq<u8>) -> Option<(Seq<u8>, u32, u32)> {
    match png_decoded(data) {
        Some((p, w, h, color, depth)) => if w == 0 || h == 0 || depth != 8 || !(color == 6 || color == 2) {
            None
        } else if color == 6 {
            Some((p, w, h))
        } else {
            Some((expand_rgb(p), w, h))
        },
        None => None,
    }
}

fn expand(p: &Vec<u8>) -> (r: Vec<u8>)
    ensures
        r@ == expand_rgb(p@),
{
    let n = p.len() / 3;
    let mut out: Vec<u8> = Vec::new();
    let mut k: usize = 0;
    while k < n
        invariant
            n == p@.len() / 3,
            k <= n,
            out@.len() == k * 4,
            forall|i: int| 0 <= i < k * 4 ==> #[trigger] out@[i] == expand_rgb(p@)[i],
        decreases n - k,
    {
        proof {
            assert(k * 3 + 2 < p@.len()) by (nonlinear_arith)
                requires
                    k < n,
                    n == p@.len() / 3,
            ;
            assert(k * 4 + 4 <= n * 4) by (nonlinear_arith)
                requires
                    k < n,
            ;
        }
        let ghost before = out@;
        let pl = p.len();
        assert(k * 3 + 2 < pl);
        out.push(p[k * 3]);
        out.push(p[k * 3 + 1]);
        out.push(p[k * 3 + 2]);
        out.push(255);
        proof {
            assert forall|i: int| 0 <= i < (k + 1) * 4 implies #[trigger] out@[i] == expand_rgb(p@)[i] by {
                if i >= k * 4 {
                    let c = i - k * 4;
                    vstd::arithmetic::div_mod::lemma_fundamental_div_mod_converse(i, 4, k as int, c);
                } else {
                    assert(out@[i] == before[i]);
                }
            }
        }
        k += 1;
    }
    proof {
        assert(out@ =~= expand_rgb(p@));
    }
    out
}

/// Decode a PNG into straight-alpha RGBA8 pixels and its size; `None` for anything but an
/// 8-bit RGB or RGBA image of non-zero size.
pub fn decode_png_rgba(data: &[u8]) -> (r: Option<(Vec<u8>, u32, u32)>)
    ensures
        match r {
            Some(t) => png_rgba(data@) == Some((t.0@, t.1, t.2)),
            None => png_rgba(data@) is None,
        },
{
    let (pixels, w, h, color, depth) = match png_decode(data) {
        Some(t) => t,
        None => return None,
    };
    if w == 0 || h == 0 || depth != 8 || !(color == 6 || color == 2) {
        return None;
    }
    if color == 6 {
        Some((pixels, w, h))
    } else {
        Some((expand(&pixels), w, h))
    }
}

/// Per-channel difference above which a pixel counts as changed.
pub const DIFF_THRESHOLD: u8 = 16;

/// The before-composite pixel compared with after-pixel `(x, y)`: the same pixel when the sizes
/// agree, else the index-sampled one.
pub open spec fn sample(i: int, n: int, big: int, same: bool) -> int {
    if same {
        i
    } else {
        let s = i * big / n;
        if s > big - 1 { big - 1 } else { s }
    }
}

/// Whether after-pixel `(x, y)` differs from its before-pixel by more than the threshold in
/// some channel.
pub open spec fn differs(a: Seq<u8>, aw: int, ah: int, b: Seq<u8>, bw: int, bh: int, x: int, y: int) -> bool {
    let same = aw == bw && ah == bh;
    differs_at(a, aw, x, y, b, bw, sample(x, aw, bw, same), sample(y, ah, bh, same))
}

/// Whether pixel `(x, y)` of `a` and pixel `(bx, by)` of `b` differ by more than the threshold
/// in some channel.
pub open spec fn differs_at(a: Seq<u8>, aw: int, x: int, y: int, b: Seq<u8>, bw: int, bx: int, by: int) -> bool {
    exists|c: int|
        0 <= c < 4 && #[trigger] abs_diff(a[px(aw, x, y, c)], b[px(bw, bx, by, c)]) > DIFF_THRESHOLD
}

/// `|p - q|`.
pub open spec fn abs_diff(p: u8, q: u8) -> int {
    if p >= q { p - q } else { q - p }
}

/// Whether byte `p` and byte `q` are further apart than the threshold.
pub open spec fn far_apart(p: u8, q: u8) -> bool {
    p > q + DIFF_THRESHOLD || q > p + DIFF_THRESHOLD
}

/// A pixel of the changed-pixel grid is set exactly when one of its four channels (red, green,
/// blue or alpha) is further than the threshold from the same channel of the before-pixel it is
/// compared with (the same pixel when the sizes agree, else the sampled one).
pub proof fn lemma_grid_marks_any_channel(a: Seq<u8>, aw: int, ah: int, b: Seq<u8>, bw: int, bh: int, p: int)
    requires
        aw > 0,
        ah > 0,
        0 <= p < aw * ah,
    ensures
        ({
            let x = p % aw;
            let y = p / aw;
            let same = aw == bw && ah == bh;
            let bx = sample(x, aw, bw, same);
            let by = sample(y, ah, bh, same);
            grid_spec(a, aw, ah, b, bw, bh)[p] == (far_apart(a[px(aw, x, y, 0)], b[px(bw, bx, by, 0)])
                || far_apart(a[px(aw, x, y, 1)], b[px(bw, bx, by, 1)])
                || far_apart(a[px(aw, x, y, 2)], b[px(bw, bx, by, 2)])
                || far_apart(a[px(aw, x, y, 3)], b[px(bw, bx, by, 3)]))
        }),
{
    let x = p % aw;
    let y = p / aw;
    let same = aw == bw && ah == bh;
    let bx = sample(x, aw, bw, same);
    let by = sample(y, ah, bh, same);
    assert(0 <= p < (aw * ah) as nat);
    assert(grid_spec(a, aw, ah, b, bw, bh)[p] == differs(a, aw, ah, b, bw, bh, x, y));
    let d0 = abs_diff(a[px(aw, x, y, 0)], b[px(bw, bx, by, 0)]);
    let d1 = abs_diff(a[px(aw, x, y, 1)], b[px(bw, bx, by, 1)]);
    let d2 = abs_diff(a[px(aw, x, y, 2)], b[px(bw, bx, by, 2)]);
    let d3 = abs_diff(a[px(aw, x, y, 3)], b[px(bw, bx, by, 3)]);
    if differs_at(a, aw, x, y, b, bw, bx, by) {
        let c = choose|c: int| 0 <= c < 4 && #[trigger] abs_diff(a[px(aw, x, y, c)], b[px(bw, bx, by, c)]) > DIFF_THRESHOLD;
        assert(c == 0 || c == 1 || c == 2 || c == 3);
    }
    assert(d0 > DIFF_THRESHOLD ==> differs_at(a, aw, x, y, b, bw, bx, by));
    assert(d1 > DIFF_THRESHOLD ==> differs_at(a, aw, x, y, b, bw, bx, by));
    assert(d2 > DIFF_THRESHOLD ==> differs_at(a, aw, x, y, b, bw, bx, by));
    assert(d3 > DIFF_THRESHOLD ==> differs_at(a, aw, x, y, b, bw, bx, by));
}

/// The changed-pixel grid of the after-composite, row-major.
pub open spec fn grid_spec(a: Seq<u8>, aw: int, ah: int, b: Seq<u8>, bw: int, bh: int) -> Seq<bool> {
    Seq::new((aw * ah) as nat, |p: int| differs(a, aw, ah, b, bw, bh, p % aw, p / aw))
}

/// The accent tint of changed pixels.
pub open spec fn highlight(c: int) -> u8 {
    if c == 0 { 0xE0 } else if c == 1 { 0x7B } else if c == 2 { 0x39 } else { 128 }
}

/// The highlight mask of a grid: tinted where changed, transparent elsewhere.
pub open spec fn mask_spec(grid: Seq<bool>) -> Seq<u8> {
    Seq::new(grid.len() * 4, |i: int| if grid[i / 4] { highlight(i % 4) } else { 0u8 })
}

/// Each changed pixel of the mask is the accent tint `(0xE0, 0x7B, 0x39, 128)` and each other
/// pixel is fully transparent `(0, 0, 0, 0)`; the mask has four bytes per grid cell.
pub proof fn lemma_mask_pixels(grid: Seq<bool>, i: int)
    requires
        0 <= i < grid.len(),
    ensures
        mask_spec(grid).len() == grid.len() * 4,
        grid[i] ==> mask_spec(grid)[4 * i] == 0xE0u8 && mask_spec(grid)[4 * i + 1] == 0x7Bu8
            && mask_spec(grid)[4 * i + 2] == 0x39u8 && mask_spec(grid)[4 * i + 3] == 128u8,
        !grid[i] ==> mask_spec(grid)[4 * i] == 0u8 && mask_spec(grid)[4 * i + 1] == 0u8
            && mask_spec(grid)[4 * i + 2] == 0u8 && mask_spec(grid)[4 * i + 3] == 0u8,
{
    assert((4 * i) / 4 == i && (4 * i) % 4 == 0);
    assert((4 * i + 1) / 4 == i && (4 * i + 1) % 4 == 1);
    assert((4 * i + 2) / 4 == i && (4 * i + 2) % 4 == 2);
    assert((4 * i + 3) / 4 == i && (4 * i + 3) % 4 == 3);
}

/// Whether a decoded raster holds all of its `w`x`h` RGBA pixels.
pub open spec fn fits(p: Seq<u8>, w: int, h: int) -> bool {
    p.len() >= w * h * 4
}

/// The changed-pixel grid of two composites with the after-composite's size, when both decode
/// to complete RGBA8 rasters (and the sampling arithmetic fits the machine).
pub open spec fn grid_plan(before: Seq<u8>, after: Seq<u8>) -> Option<(Seq<bool>, u32, u32)> {
    match (png_rgba(before), png_rgba(after)) {
        (Some((b, bw, bh)), Some((a, aw, ah))) => if fits(a, aw as int, ah as int) && fits(b, bw as int, bh as int)
            && aw * bw <= usize::MAX && ah * bh <= usize::MAX {
            Some((grid_spec(a, aw as int, ah as int, b, bw as int, bh as int), aw, ah))
        } else {
            None
        },
        _ => None,
    }
}

fn mul32(a: u32, b: u32) -> (r: u64)
    ensures
        r == a * b,
{
    proof {
        assert(a * b <= 0xffff_ffff * 0xffff_ffff) by (nonlinear_arith)
            requires
                a <= 0xffff_ffff,
                b <= 0xffff_ffff,
        ;
    }
    (a as u64) * (b as u64)
}

fn sample_exec(i: usize, n: usize, big: usize, same: bool) -> (r: usize)
    requires
        i < n,
        0 < big,
        n * big <= usize::MAX,
        same ==> n == big,
    ensures
        r == sample(i as int, n as int, big as int, same),
        r < big,
{
    if same {
        i
    } else {
        proof {
            assert(i * big <= n * big) by (nonlinear_arith)
                requires
                    i < n,
                    0 < big,
            ;
        }
        let s = i * big / n;
        if s > big - 1 { big - 1 } else { s }
    }
}

fn diff_exec(p: u8, q: u8) -> (r: bool)
    ensures
        r == (abs_diff(p, q) > DIFF_THRESHOLD),
{
    if p >= q { p - q > DIFF_THRESHOLD } else { q - p > DIFF_THRESHOLD }
}

/// The per-pixel changed grid of the after-composite (index-sampling the before-composite when
/// the sizes differ) and its size; `None` when either side does not decode to a complete RGBA8
/// raster.
pub fn changed_grid(before_png: &[u8], after_png: &[u8]) -> (r: Option<(Vec<bool>, usize, usize)>)
    ensures
        match r {
            Some(t) => grid_plan(before_png@, after_png@) matches Some((g, w, h)) && t.0@ == g && t.1 == w && t.2 == h,
            None => grid_plan(before_png@, after_png@) is None,
        },
{
    let (b, bw32, bh32) = match decode_png_rgba(before_png) {
        Some(t) => t,
        None => return None,
    };
    let (a, aw32, ah32) = match decode_png_rgba(after_png) {
        Some(t) => t,
        None => return None,
    };
    let (aw, ah, bw, bh) = (aw32 as usize, ah32 as usize, bw32 as usize, bh32 as usize);
    let (aw64, ah64, bw64, bh64) = (aw32 as u64, ah32 as u64, bw32 as u64, bh32 as u64);
    let alen = a.len() as u64;
    let blen = b.len() as u64;
    if mul32(aw32, ah32) > alen / 4 || mul32(bw32, bh32) > blen / 4 || mul32(aw32, bw32) > usize::MAX as u64
        || mul32(ah32, bh32) > usize::MAX as u64 {
        return None;
    }
    proof {
        assert(png_rgba(after_png@) == Some((a@, aw32, ah32)));
        assert(fits(a@, aw as int, ah as int));
        assert(fits(b@, bw as int, bh as int));
    }
    let same = aw == bw && ah == bh;
    let ghost g = grid_spec(a@, aw as int, ah as int, b@, bw as int, bh as int);
    proof {
        lemma_png_positive(after_png@);
        lemma_png_positive(before_png@);
    }
    let mut grid: Vec<bool> = Vec::new();
    let mut y: usize = 0;
    while y < ah
        invariant
            0 < aw,
            0 < ah,
            0 < bw,
            0 < bh,
            aw * ah * 4 <= a@.len(),
            bw * bh * 4 <= b@.len(),
            aw * bw <= usize::MAX,
            ah * bh <= usize::MAX,
            same == (aw == bw && ah == bh),
            g == grid_spec(a@, aw as int, ah as int, b@, bw as int, bh as int),
            y <= ah,
            grid@.len() == y * aw,
            forall|p: int| 0 <= p < y * aw ==> #[trigger] grid@[p] == g[p],
        decreases ah - y,
    {
        let by = sample_exec(y, ah, bh, same);
        let mut x: usize = 0;
        while x < aw
            invariant
                0 < aw,
                0 < ah,
                0 < bw,
                0 < bh,
                aw * ah * 4 <= a@.len(),
                bw * bh * 4 <= b@.len(),
                aw * bw <= usize::MAX,
                ah * bh <= usize::MAX,
                same == (aw == bw && ah == bh),
                g == grid_spec(a@, aw as int, ah as int, b@, bw as int, bh as int),
                y < ah,
                by == sample(y as int, ah as int, bh as int, same),
                by < bh,
                x <= aw,
                grid@.len() == y * aw + x,
                forall|p: int| 0 <= p < y * aw + x ==> #[trigger] grid@[p] == g[p],
            decreases aw - x,
        {
            let bx = sample_exec(x, aw, bw, same);
            proof {
                crate::canvas::lemma_px_range_pub(aw as int, ah as int, x as int, y as int, 3);
                crate::canvas::lemma_px_range_pub(bw as int, bh as int, bx as int, by as int, 3);
            }
            let al = a.len();
            let bl = b.len();
            assert((y * aw + x) * 4 + 3 < al);
            assert((by * bw + bx) * 4 + 3 < bl);
            let ai = (y * aw + x) * 4;
            let bi = (by * bw + bx) * 4;
            let d0 = diff_exec(a[ai], b[bi]);
            let d1 = diff_exec(a[ai + 1], b[bi + 1]);
            let d2 = diff_exec(a[ai + 2], b[bi + 2]);
            let d3 = diff_exec(a[ai + 3], b[bi + 3]);
            let d = d0 || d1 || d2 || d3;
            proof {
                let p = y * aw + x;
                vstd::arithmetic::div_mod::lemma_fundamental_div_mod_converse(p, aw as int, y as int, x as int);
                assert(p < aw * ah) by (nonlinear_arith)
                    requires
                        p == y * aw + x,
                        x < aw,
                        y < ah,
                ;
                assert(g[p] == differs(a@, aw as int, ah as int, b@, bw as int, bh as int, x as int, y as int));
                if d {
                    if d0 {
                        assert(abs_diff(a@[px(aw as int, x as int, y as int, 0)], b@[px(bw as int, bx as int, by as int, 0)]) > DIFF_THRESHOLD);
                    } else if d1 {
                        assert(abs_diff(a@[px(aw as int, x as int, y as int, 1)], b@[px(bw as int, bx as int, by as int, 1)]) > DIFF_THRESHOLD);
                    } else if d2 {
                        assert(abs_diff(a@[px(aw as int, x as int, y as int, 2)], b@[px(bw as int, bx as int, by as int, 2)]) > DIFF_THRESHOLD);
                    } else {
                        assert(abs_diff(a@[px(aw as int, x as int, y as int, 3)], b@[px(bw as int, bx as int, by as int, 3)]) > DIFF_THRESHOLD);
                    }
                    assert(differs_at(a@, aw as int, x as int, y as int, b@, bw as int, bx as int, by as int));
                    assert(g[p]);
                } else {
                    assert forall|c: int| 0 <= c < 4 implies !(#[trigger] abs_diff(a@[px(aw as int, x as int, y as int, c)], b@[px(bw as int, bx as int, by as int, c)]) > DIFF_THRESHOLD) by {
                        if c == 0 {} else if c == 1 {} else if c == 2 {} else {}
                    }
                    assert(!g[p]);
                }
                assert(d == g[p]);
            }
            let ghost before = grid@;
            grid.push(d);
            proof {
                let p = y * aw + x;
                assert(d == g[p]);
                assert forall|q: int| 0 <= q < y * aw + x + 1 implies #[trigger] grid@[q] == g[q] by {
                    if q < p {
                        assert(grid@[q] == before[q]);
                    }
                }
            }
            x += 1;
        }
        proof {
            assert(y * aw + aw == (y + 1) * aw) by (nonlinear_arith);
        }
        y += 1;
    }
    proof {
        assert(y * aw == aw * ah) by (nonlinear_arith)
            requires
                y == ah,
        ;
        assert(g.len() == aw * ah);
        assert(grid@ =~= g);
    }
    Some((grid, aw, ah))
}

proof fn lemma_png_positive(data: Seq<u8>)
    ensures
        png_rgba(data) matches Some((p, w, h)) ==> w > 0 && h > 0,
{
}

/// The highlight mask of a grid.
pub fn mask_of(grid: &Vec<bool>) -> (m: Vec<u8>)
    requires
        grid@.len() * 4 <= usize::MAX,
    ensures
        m@ == mask_spec(grid@),
{
    let mut m: Vec<u8> = Vec::new();
    let mut i: usize = 0;
    while i < grid.len()
        invariant
            grid@.len() * 4 <= usize::MAX,
            i <= grid@.len(),
            m@.len() == i * 4,
            forall|k: int| 0 <= k < i * 4 ==> #[trigger] m@[k] == mask_spec(grid@)[k],
        decreases grid@.len() - i,
    {
        let ghost before = m@;
        if grid[i] {
            m.push(0xE0);
            m.push(0x7B);
            m.push(0x39);
            m.push(128);
        } else {
            m.push(0);
            m.push(0);
            m.push(0);
            m.push(0);
        }
        proof {
            assert forall|k: int| 0 <= k < (i + 1) * 4 implies #[trigger] m@[k] == mask_spec(grid@)[k] by {
                if k >= i * 4 {
                    vstd::arithmetic::div_mod::lemma_fundamental_div_mod_converse(k, 4, i as int, k - i * 4);
                } else {
                    assert(m@[k] == before[k]);
                }
            }
        }
        i += 1;
    }
    proof {
        assert(m@ =~= mask_spec(grid@));
    }
    m
}

/// What [`cap_rgba`] makes of a `w`x`h` raster: itself when it fits the cap (or is empty),
/// else its box-filtered shrink.
pub open spec fn cap_spec(src: Seq<u8>, w: u32, h: u32) -> (Seq<u8>, u32, u32) {
    if (w <= 2048 && h <= 2048) || w == 0 || h == 0 {
        (src, w, h)
    } else {
        let l = if w > h { w as int } else { h as int };
        let nw = capped_dim(w as int, l);
        let nh = capped_dim(h as int, l);
        (
            Seq::new((nw * nh * 4) as nat, |i: int| down_px(src, w as int, h as int, nw, nh, (i / 4) % nw, (i / 4) / nw, i % 4) as u8),
            nw as u32,
            nh as u32,
        )
    }
}

/// The capped highlight mask of two composites, when they compare and the mask is small enough
/// to shrink (at most 2^40 pixels).
pub open spec fn mask_plan(before: Seq<u8>, after: Seq<u8>) -> Option<(Seq<u8>, u32, u32)> {
    match grid_plan(before, after) {
        Some((g, w, h)) => if w * h <= 0x100_0000_0000 && w * 2048 <= usize::MAX && h * 2048 <= usize::MAX
            && g.len() * 4 <= usize::MAX {
            Some(cap_spec(mask_spec(g), w, h))
        } else {
            None
        },
        None => None,
    }
}

/// A transparent PNG tinted where the two composites differ, capped like the composites. `None`
/// when either side does not decode (the highlight is simply absent) or encoding fails.
pub fn diff_mask_png(before_png: &[u8], after_png: &[u8]) -> (r: Option<Vec<u8>>)
    ensures
        mask_plan(before_png@, after_png@) is None ==> r is None,
        r matches Some(v) ==> mask_plan(before_png@, after_png@) matches Some((m, w, h)) && v@ == png_encoding(m, w, h),
        r is Some <==> (mask_plan(before_png@, after_png@) matches Some((m, w, h)) && encodable(m, w, h)),
{
    let (grid, w, h) = match changed_grid(before_png, after_png) {
        Some(t) => t,
        None => return None,
    };
    let w64 = w as u64;
    let h64 = h as u64;
    if mul32(w as u32, h as u32) > 0x100_0000_0000 || w64 * 2048 > usize::MAX as u64 || h64 * 2048 > usize::MAX as u64
        || grid.len() > usize::MAX / 4 {
        return None;
    }
    let mask = mask_of(&grid);
    let (capped, cw, ch) = cap_rgba(mask.as_slice(), w as u32, h as u32);
    proof {
        let (m2, w2, h2) = cap_spec(mask@, w as u32, h as u32);
        if !((w <= 2048 && h <= 2048) || w == 0 || h == 0) {
            assert forall|i: int| 0 <= i < m2.len() implies #[trigger] capped@[i] == m2[i] by {
                crate::canvas::lemma_px_decompose(i, cw as int, ch as int);
            }
            assert(capped@ =~= m2);
        } else {
            assert(grid@.len() == w as int * h as int);
            assert(capped@.len() == cw as int * ch as int * 4);
        }
        assert(capped@.len() == cw as int * ch as int * 4);
        assert(capped@.len() == capped.len());
        assert(cw * ch * 4 <= usize::MAX);
    }
    match rgba_to_png(capped.as_slice(), cw, ch) {
        Ok(p) => Some(p),
        Err(_) => None,
    }
}

/// The shrunk raster (pixels and size) [`cap_png`] re-encodes, when the PNG is an 8-bit RGB or
/// RGBA image whose longest side is past the cap and whose pixels are complete.
pub open spec fn cap_png_plan(data: Seq<u8>) -> Option<(Seq<u8>, u32, u32)> {
    match png_decoded(data) {
        None => None,
        Some((p, w, h, color, depth)) => {
            if (w <= 2048 && h <= 2048) || depth != 8 || !(color == 6 || color == 2) {
                None
            } else {
                let rgba = if color == 6 { p } else { expand_rgb(p) };
                if fits(rgba, w as int, h as int) && w * h <= 0x100_0000_0000 && w * 2048 <= usize::MAX
                    && h * 2048 <= usize::MAX {
                    Some(cap_spec(rgba, w, h))
                } else {
                    None
                }
            }
        },
    }
}

/// Re-encode a PNG so its longest side fits the cap. `None` means the original bytes are to be
/// used as they are: already small enough, not an 8-bit RGB/RGBA image, undecodable, or the
/// re-encode failed.
pub fn cap_png(data: &[u8]) -> (r: Option<Vec<u8>>)
    ensures
        cap_png_plan(data@) is None ==> r is None,
        r matches Some(v) ==> cap_png_plan(data@) matches Some((m, w, h)) && v@ == png_encoding(m, w, h),
        r is Some <==> (cap_png_plan(data@) matches Some((m, w, h)) && encodable(m, w, h)),
{
    let (pixels, w, h, color, depth) = match png_decode(data) {
        Some(t) => t,
        None => return None,
    };
    if (w <= 2048 && h <= 2048) || depth != 8 || !(color == 6 || color == 2) {
        return None;
    }
    let rgba = if color == 6 { pixels } else { expand(&pixels) };
    let len = rgba.len() as u64;
    if mul32(w, h) > len / 4 || mul32(w, h) > 0x100_0000_0000 || (w as u64) * 2048 > usize::MAX as u64
        || (h as u64) * 2048 > usize::MAX as u64 {
        return None;
    }
    proof {
        assert(fits(rgba@, w as int, h as int));
    }
    let (capped, cw, ch) = cap_rgba(rgba.as_slice(), w, h);
    proof {
        let (m2, w2, h2) = cap_spec(rgba@, w, h);
        if !((w <= 2048 && h <= 2048) || w == 0 || h == 0) {
            assert forall|i: int| 0 <= i < m2.len() implies #[trigger] capped@[i] == m2[i] by {
                crate::canvas::lemma_px_decompose(i, cw as int, ch as int);
            }
            assert(capped@ =~= m2);
            assert(cw * ch * 4 <= usize::MAX) by (nonlinear_arith)
                requires
                    1 <= cw <= 2048,
                    1 <= ch <= 2048,
            ;
        } else {
            assert(cw == 0 || ch == 0);
            assert(cw * ch * 4 == 0) by (nonlinear_arith)
                requires
                    cw == 0 || ch == 0,
            ;
        }
    }
    match rgba_to_png(capped.as_slice(), cw, ch) {
        Ok(p) => Some(p),
        Err(_) => None,
    }
}

/// The changed cells a cached mask PNG marks (a pixel is marked when its alpha is not zero),
/// row by row, with the mask's size; `None` when the PNG is not an 8-bit RGB or RGBA image
/// holding all of its pixels.
pub open spec fn mask_grid_spec(mask: Seq<u8>) -> Option<(Seq<bool>, u32, u32)> {
    match png_rgba(mask) {
        Some((p, w, h)) => if fits(p, w as int, h as int) {
            Some((Seq::new((w * h) as nat, |i: int| p[i * 4 + 3] > 0), w, h))
        } else {
            None
        },
        None => None,
    }
}

/// Read the changed-cell grid back out of a cached mask PNG (see [`mask_grid_spec`]).
pub fn mask_grid_from_png(mask: &[u8]) -> (r: Option<(Vec<bool>, u32, u32)>)
    ensures
        match r {
            Some(t) => mask_grid_spec(mask@) == Some((t.0@, t.1, t.2)),
            None => mask_grid_spec(mask@) is None,
        },
{
    let (rgba, w, h) = match decode_png_rgba(mask) {
        Some(t) => t,
        None => return None,
    };
    let n = mul32(w, h);
    let len = rgba.len();
    if n > len as u64 / 4 {
        return None;
    }
    let count = n as usize;
    let mut grid: Vec<bool> = Vec::new();
    let mut i: usize = 0;
    while i < count
        invariant
            count == w * h,
            count * 4 <= rgba@.len(),
            rgba@.len() == len,
            i <= count,
            grid@.len() == i,
            forall|k: int| 0 <= k < i ==> #[trigger] grid@[k] == (rgba@[k * 4 + 3] > 0),
        decreases count - i,
    {
        grid.push(rgba[i * 4 + 3] > 0);
        i += 1;
    }
    proof {
        assert(fits(rgba@, w as int, h as int));
        assert(grid@ =~= Seq::new((w * h) as nat, |k: int| rgba@[k * 4 + 3] > 0));
    }
    Some((grid, w, h))
}

} // verus!
