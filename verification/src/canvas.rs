//! RGBA8 canvases: placing decoded tiles onto a layer canvas, and shrinking a raster so its
//! longest side fits the preview cap.

use crate::raster::{interleave, planar_to_rgba, tile_planar_spec, tile_to_rgba};
use vstd::prelude::*;

verus! {

/// Byte `c` of pixel `(x, y)` in an RGBA8 raster `w` pixels wide.
pub open spec fn px(w: int, x: int, y: int, c: int) -> int {
    (y * w + x) * 4 + c
}

proof fn lemma_px_range(w: int, h: int, x: int, y: int, c: int)
    requires
        0 <= x < w,
        0 <= y < h,
        0 <= c < 4,
    ensures
        0 <= y * w,
        y * w + x < w * h,
        0 <= px(w, x, y, c) < w * h * 4,
        px(w, x, y, c) + (4 - c) <= w * h * 4,
{
    assert(0 <= y * w) by (nonlinear_arith)
        requires
            0 <= y,
            0 <= w,
    ;
    assert(y * w + x < h * w) by (nonlinear_arith)
        requires
            0 <= x < w,
            0 <= y < h,
    ;
    assert(w * h == h * w) by (nonlinear_arith);
}

proof fn lemma_px_inj(w: int, x: int, y: int, c: int, x2: int, y2: int, c2: int)
    requires
        0 <= x < w,
        0 <= x2 < w,
        0 <= y,
        0 <= y2,
        0 <= c < 4,
        0 <= c2 < 4,
        px(w, x, y, c) == px(w, x2, y2, c2),
    ensures
        x == x2 && y == y2 && c == c2,
{
    let p = y * w + x;
    let p2 = y2 * w + x2;
    vstd::arithmetic::div_mod::lemma_fundamental_div_mod_converse(px(w, x, y, c), 4, p, c);
    vstd::arithmetic::div_mod::lemma_fundamental_div_mod_converse(px(w, x2, y2, c2), 4, p2, c2);
    assert(p * 4 == 4 * p) by (nonlinear_arith);
    assert(p2 * 4 == 4 * p2) by (nonlinear_arith);
    assert(p == p2 && c == c2);
    vstd::arithmetic::div_mod::lemma_fundamental_div_mod_converse(p, w, y, x);
    vstd::arithmetic::div_mod::lemma_fundamental_div_mod_converse(p2, w, y2, x2);
}

/// What blitting a `tw`x`th` tile at `(tx, ty)` leaves in byte `c` of canvas pixel `(x, y)`,
/// counting only tile rows before `rows` and, on row `rows`, columns before `cols`.
pub open spec fn blitted(
    old: Seq<u8>,
    iw: int,
    tile: Seq<u8>,
    tx: int,
    ty: int,
    tw: int,
    th: int,
    rows: int,
    cols: int,
    x: int,
    y: int,
    c: int,
) -> u8 {
    if tx <= x < tx + tw && ty <= y < ty + th && (y - ty < rows || (y - ty == rows && x - tx < cols)) {
        tile[px(tw, x - tx, y - ty, c)]
    } else {
        old[px(iw, x, y, c)]
    }
}

fn copy_px(canvas: &mut Vec<u8>, dst: usize, tile: &[u8], src: usize)
    requires
        dst + 4 <= old(canvas)@.len(),
        src + 4 <= tile@.len(),
        dst + 4 <= usize::MAX,
        src + 4 <= usize::MAX,
    ensures
        final(canvas)@.len() == old(canvas)@.len(),
        forall|k: int| 0 <= k < 4 ==> #[trigger] final(canvas)@[dst + k] == tile@[src + k],
        forall|i: int| 0 <= i < old(canvas)@.len() && !(dst <= i < dst + 4) ==> #[trigger] final(canvas)@[i] == old(canvas)@[i],
{
    canvas.set(dst, tile[src]);
    canvas.set(dst + 1, tile[src + 1]);
    canvas.set(dst + 2, tile[src + 2]);
    canvas.set(dst + 3, tile[src + 3]);
}

/// Copy a `tw`x`th` RGBA tile into an `iw`x`ih` RGBA canvas with its top-left pixel at
/// `(tx, ty)`, clipped to the canvas (tiles may hang past the image edge or sit at negative
/// offsets). Every canvas pixel the tile covers takes the tile's pixel; everything else stays.
pub fn blit(canvas: &mut Vec<u8>, iw: i64, ih: i64, tx: i64, ty: i64, tile: &[u8], tw: i64, th: i64)
    requires
        0 <= iw,
        0 <= ih,
        0 <= tw,
        0 <= th,
        iw * ih * 4 <= old(canvas)@.len(),
        tw * th * 4 <= tile@.len(),
        iw * ih * 4 <= i64::MAX,
        tw * th * 4 <= i64::MAX,
        tx + tw <= i64::MAX,
        ty + th <= i64::MAX,
    ensures
        final(canvas)@.len() == old(canvas)@.len(),
        forall|i: int| iw * ih * 4 <= i < old(canvas)@.len() ==> #[trigger] final(canvas)@[i] == old(canvas)@[i],
        forall|x: int, y: int, c: int|
            0 <= x < iw && 0 <= y < ih && 0 <= c < 4 ==> #[trigger] final(canvas)@[px(iw as int, x, y, c)] == blitted(
                old(canvas)@,
                iw as int,
                tile@,
                tx as int,
                ty as int,
                tw as int,
                th as int,
                th as int,
                0,
                x,
                y,
                c,
            ),
{
    let ghost old_c = canvas@;
    let mut row: i64 = 0;
    while row < th
        invariant
            0 <= iw,
            0 <= ih,
            0 <= tw,
            0 <= th,
            0 <= row <= th,
            iw * ih * 4 <= old_c.len(),
            tw * th * 4 <= tile@.len(),
            iw * ih * 4 <= i64::MAX,
            tw * th * 4 <= i64::MAX,
            tx + tw <= i64::MAX,
            ty + th <= i64::MAX,
            canvas@.len() == old_c.len(),
            forall|i: int| iw * ih * 4 <= i < old_c.len() ==> #[trigger] canvas@[i] == old_c[i],
            forall|x: int, y: int, c: int|
                0 <= x < iw && 0 <= y < ih && 0 <= c < 4 ==> #[trigger] canvas@[px(iw as int, x, y, c)] == blitted(
                    old_c,
                    iw as int,
                    tile@,
                    tx as int,
                    ty as int,
                    tw as int,
                    th as int,
                    row as int,
                    0,
                    x,
                    y,
                    c,
                ),
        decreases th - row,
    {
        let cy = ty + row;
        let mut col: i64 = 0;
        while col < tw
            invariant
                0 <= iw,
                0 <= ih,
                0 <= tw,
                0 <= th,
                0 <= row < th,
                cy == ty + row,
                0 <= col <= tw,
                iw * ih * 4 <= old_c.len(),
                tw * th * 4 <= tile@.len(),
                iw * ih * 4 <= i64::MAX,
                tw * th * 4 <= i64::MAX,
                tx + tw <= i64::MAX,
                ty + th <= i64::MAX,
                canvas@.len() == old_c.len(),
                forall|i: int| iw * ih * 4 <= i < old_c.len() ==> #[trigger] canvas@[i] == old_c[i],
                forall|x: int, y: int, c: int|
                    0 <= x < iw && 0 <= y < ih && 0 <= c < 4 ==> #[trigger] canvas@[px(iw as int, x, y, c)] == blitted(
                        old_c,
                        iw as int,
                        tile@,
                        tx as int,
                        ty as int,
                        tw as int,
                        th as int,
                        row as int,
                        col as int,
                        x,
                        y,
                        c,
                    ),
            decreases tw - col,
        {
            let cx = tx + col;
            if 0 <= cy && cy < ih && 0 <= cx && cx < iw {
                proof {
                    lemma_px_range(iw as int, ih as int, cx as int, cy as int, 0);
                    lemma_px_range(tw as int, th as int, col as int, row as int, 0);
                }
                let clen = canvas.len();
                let tlen = tile.len();
                assert((cy * iw + cx) * 4 < clen);
                assert((row * tw + col) * 4 < tlen);
                let dst = ((cy * iw + cx) * 4) as usize;
                let src = ((row * tw + col) * 4) as usize;
                proof {
                    assert(dst as int == px(iw as int, cx as int, cy as int, 0));
                    assert(src as int == px(tw as int, col as int, row as int, 0));
                }
                let ghost before = canvas@;
                copy_px(canvas, dst, tile, src);
                proof {
                    assert forall|i: int| iw * ih * 4 <= i < old_c.len() implies #[trigger] canvas@[i] == old_c[i] by {
                        assert(canvas@[i] == before[i]);
                    }
                    assert forall|x: int, y: int, c: int|
                        0 <= x < iw && 0 <= y < ih && 0 <= c < 4 implies #[trigger] canvas@[px(iw as int, x, y, c)] == blitted(
                            old_c,
                            iw as int,
                            tile@,
                            tx as int,
                            ty as int,
                            tw as int,
                            th as int,
                            row as int,
                            col + 1,
                            x,
                            y,
                            c,
                        ) by {
                        lemma_px_range(iw as int, ih as int, x, y, c);
                        if x == cx && y == cy {
                            assert(px(iw as int, x, y, c) == dst + c);
                            assert(px(tw as int, x - tx, y - ty, c) == src + c);
                            assert(canvas@[dst + c] == tile@[src + c]);
                        } else {
                            if dst <= px(iw as int, x, y, c) < dst + 4 {
                                let k = px(iw as int, x, y, c) - dst;
                                lemma_px_inj(iw as int, x, y, c, cx as int, cy as int, k);
                            }
                            assert(canvas@[px(iw as int, x, y, c)] == before[px(iw as int, x, y, c)]);
                        }
                    }
                }
            } else {
                proof {
                    assert forall|x: int, y: int, c: int|
                        0 <= x < iw && 0 <= y < ih && 0 <= c < 4 implies #[trigger] canvas@[px(iw as int, x, y, c)] == blitted(
                            old_c,
                            iw as int,
                            tile@,
                            tx as int,
                            ty as int,
                            tw as int,
                            th as int,
                            row as int,
                            col + 1,
                            x,
                            y,
                            c,
                        ) by {
                        assert(blitted(old_c, iw as int, tile@, tx as int, ty as int, tw as int, th as int, row as int, col as int, x, y, c)
                            == blitted(old_c, iw as int, tile@, tx as int, ty as int, tw as int, th as int, row as int, col + 1, x, y, c));
                    }
                }
            }
            col += 1;
        }
        proof {
            assert forall|x: int, y: int, c: int|
                0 <= x < iw && 0 <= y < ih && 0 <= c < 4 implies #[trigger] canvas@[px(iw as int, x, y, c)] == blitted(
                    old_c,
                    iw as int,
                    tile@,
                    tx as int,
                    ty as int,
                    tw as int,
                    th as int,
                    row + 1,
                    0,
                    x,
                    y,
                    c,
                ) by {
                assert(blitted(old_c, iw as int, tile@, tx as int, ty as int, tw as int, th as int, row as int, tw as int, x, y, c)
                    == blitted(old_c, iw as int, tile@, tx as int, ty as int, tw as int, th as int, row + 1, 0, x, y, c));
            }
        }
        row += 1;
    }
}


/// Longest side a preview raster is capped to.
pub const MAX_RASTER_DIM: u32 = 2048;

/// Where the source span of destination index `i` starts, shrinking `big` to `n`.
pub open spec fn span0(i: int, n: int, big: int) -> int {
    i * big / n
}

/// Where that span ends: at least one source pixel past its start, at most `big`.
pub open spec fn span1(i: int, n: int, big: int) -> int {
    let s0 = span0(i, n, big);
    let e = (i + 1) * big / n;
    let e2 = if e < s0 + 1 { s0 + 1 } else { e };
    if e2 > big { big } else { e2 }
}

/// The weight source pixel `(sx, sy)` adds to channel `ch` of a box: its alpha for the alpha
/// channel, its color times its alpha (premultiplied) for a color channel.
pub open spec fn weight(rgba: Seq<u8>, w: int, sx: int, sy: int, ch: int) -> int {
    if ch == 3 {
        rgba[px(w, sx, sy, 3)] as int
    } else {
        rgba[px(w, sx, sy, ch)] * rgba[px(w, sx, sy, 3)]
    }
}

/// Sum of the weights of row `sy` from column `x0` up to (not including) `x1`.
pub open spec fn row_sum(rgba: Seq<u8>, w: int, sy: int, x0: int, x1: int, ch: int) -> int
    decreases x1 - x0,
{
    if x1 <= x0 {
        0
    } else {
        row_sum(rgba, w, sy, x0, x1 - 1, ch) + weight(rgba, w, x1 - 1, sy, ch)
    }
}

/// Sum of the weights of the box of columns `x0..x1` and rows `y0..y1`.
pub open spec fn box_sum(rgba: Seq<u8>, w: int, x0: int, x1: int, y0: int, y1: int, ch: int) -> int
    decreases y1 - y0,
{
    if y1 <= y0 {
        0
    } else {
        box_sum(rgba, w, x0, x1, y0, y1 - 1, ch) + row_sum(rgba, w, y1 - 1, x0, x1, ch)
    }
}

/// `a / b` rounded half up, capped at 255.
pub open spec fn round_cap(a: int, b: int) -> int {
    let q = (2 * a + b) / (2 * b);
    if q > 255 { 255 } else { q }
}

/// Byte `c` of destination pixel `(x, y)` when a `w`x`h` raster is shrunk to `nw`x`nh` by
/// averaging each destination pixel's source box in premultiplied alpha: alpha is the box's
/// mean alpha, color the alpha-weighted mean color (0 where the box is fully transparent).
pub open spec fn down_px(rgba: Seq<u8>, w: int, h: int, nw: int, nh: int, x: int, y: int, c: int) -> int {
    let sx0 = span0(x, nw, w);
    let sx1 = span1(x, nw, w);
    let sy0 = span0(y, nh, h);
    let sy1 = span1(y, nh, h);
    let count = (sy1 - sy0) * (sx1 - sx0);
    let a = box_sum(rgba, w, sx0, sx1, sy0, sy1, 3);
    if c == 3 {
        round_cap(a, count)
    } else if a > 0 {
        round_cap(box_sum(rgba, w, sx0, sx1, sy0, sy1, c), a)
    } else {
        0
    }
}

proof fn lemma_span(i: int, n: int, big: int)
    requires
        0 <= i < n,
        0 < n <= big,
    ensures
        0 <= span0(i, n, big) < span1(i, n, big) <= big,
        span1(i, n, big) - span0(i, n, big) <= big,
{
    assert(0 <= i * big) by (nonlinear_arith)
        requires
            0 <= i,
            0 < big,
    ;
    assert(i * big < n * big) by (nonlinear_arith)
        requires
            0 <= i < n,
            0 < big,
    ;
    assert(i * big / n < big) by (nonlinear_arith)
        requires
            0 <= i * big < n * big,
            0 < n,
    ;
    assert(0 <= i * big / n) by (nonlinear_arith)
        requires
            0 <= i * big,
            0 < n,
    ;
}

proof fn lemma_row_sum_bound(rgba: Seq<u8>, w: int, sy: int, x0: int, x1: int, ch: int)
    requires
        0 <= ch < 4,
        x0 <= x1,
    ensures
        0 <= row_sum(rgba, w, sy, x0, x1, ch) <= (x1 - x0) * 65025,
    decreases x1 - x0,
{
    if x1 > x0 {
        lemma_row_sum_bound(rgba, w, sy, x0, x1 - 1, ch);
        let i = px(w, x1 - 1, sy, 3);
        let j = px(w, x1 - 1, sy, ch);
        assert(0 <= rgba[j] * rgba[i] <= 65025) by (nonlinear_arith)
            requires
                0 <= rgba[j] <= 255,
                0 <= rgba[i] <= 255,
        ;
    }
}

proof fn lemma_box_sum_bound(rgba: Seq<u8>, w: int, x0: int, x1: int, y0: int, y1: int, ch: int)
    requires
        0 <= ch < 4,
        x0 <= x1,
        y0 <= y1,
    ensures
        0 <= box_sum(rgba, w, x0, x1, y0, y1, ch) <= (y1 - y0) * (x1 - x0) * 65025,
    decreases y1 - y0,
{
    if y1 > y0 {
        lemma_box_sum_bound(rgba, w, x0, x1, y0, y1 - 1, ch);
        lemma_row_sum_bound(rgba, w, y1 - 1, x0, x1, ch);
        assert((y1 - 1 - y0) * (x1 - x0) * 65025 + (x1 - x0) * 65025 == (y1 - y0) * (x1 - x0) * 65025)
            by (nonlinear_arith);
    }
}

fn zeros(n: usize) -> (v: Vec<u8>)
    ensures
        v@.len() == n,
        forall|i: int| 0 <= i < n ==> v@[i] == 0,
{
    let mut v: Vec<u8> = Vec::new();
    let mut i: usize = 0;
    while i < n
        invariant
            i <= n,
            v@.len() == i,
            forall|k: int| 0 <= k < i ==> v@[k] == 0,
        decreases n - i,
    {
        v.push(0);
        i += 1;
    }
    v
}

/// The four box sums (red, green, blue, alpha) of one destination pixel.
fn box_sums(rgba: &[u8], w: usize, h: usize, sx0: usize, sx1: usize, sy0: usize, sy1: usize) -> (r: (u64, u64, u64, u64))
    requires
        sx0 <= sx1 <= w,
        sy0 <= sy1 <= h,
        w * h * 4 <= rgba@.len(),
        w * h * 65025 <= u64::MAX,
    ensures
        r.0 == box_sum(rgba@, w as int, sx0 as int, sx1 as int, sy0 as int, sy1 as int, 0),
        r.1 == box_sum(rgba@, w as int, sx0 as int, sx1 as int, sy0 as int, sy1 as int, 1),
        r.2 == box_sum(rgba@, w as int, sx0 as int, sx1 as int, sy0 as int, sy1 as int, 2),
        r.3 == box_sum(rgba@, w as int, sx0 as int, sx1 as int, sy0 as int, sy1 as int, 3),
{
    let ghost s = rgba@;
    let ghost wi = w as int;
    proof {
        assert((sy1 - sy0) * (sx1 - sx0) * 65025 <= w * h * 65025) by (nonlinear_arith)
            requires
                0 <= sy1 - sy0 <= h,
                0 <= sx1 - sx0 <= w,
        ;
    }
    let (mut r, mut g, mut b, mut a) = (0u64, 0u64, 0u64, 0u64);
    let mut sy = sy0;
    while sy < sy1
        invariant
            sx0 <= sx1 <= w,
            sy0 <= sy <= sy1 <= h,
            w * h * 4 <= rgba@.len(),
            (sy1 - sy0) * (sx1 - sx0) * 65025 <= u64::MAX,
            s == rgba@,
            wi == w,
            r == box_sum(s, wi, sx0 as int, sx1 as int, sy0 as int, sy as int, 0),
            g == box_sum(s, wi, sx0 as int, sx1 as int, sy0 as int, sy as int, 1),
            b == box_sum(s, wi, sx0 as int, sx1 as int, sy0 as int, sy as int, 2),
            a == box_sum(s, wi, sx0 as int, sx1 as int, sy0 as int, sy as int, 3),
        decreases sy1 - sy,
    {
        proof {
            lemma_box_sum_bound(s, wi, sx0 as int, sx1 as int, sy0 as int, sy + 1, 0);
            lemma_box_sum_bound(s, wi, sx0 as int, sx1 as int, sy0 as int, sy + 1, 1);
            lemma_box_sum_bound(s, wi, sx0 as int, sx1 as int, sy0 as int, sy + 1, 2);
            lemma_box_sum_bound(s, wi, sx0 as int, sx1 as int, sy0 as int, sy + 1, 3);
            assert((sy + 1 - sy0) * (sx1 - sx0) * 65025 <= (sy1 - sy0) * (sx1 - sx0) * 65025) by (nonlinear_arith)
                requires
                    sy + 1 <= sy1,
                    sx0 <= sx1,
            ;
            lemma_box_sum_bound(s, wi, sx0 as int, sx1 as int, sy0 as int, sy as int, 0);
            lemma_box_sum_bound(s, wi, sx0 as int, sx1 as int, sy0 as int, sy as int, 1);
            lemma_box_sum_bound(s, wi, sx0 as int, sx1 as int, sy0 as int, sy as int, 2);
            lemma_box_sum_bound(s, wi, sx0 as int, sx1 as int, sy0 as int, sy as int, 3);
        }
        let ghost r0 = r;
        let ghost g0 = g;
        let ghost b0 = b;
        let ghost a0 = a;
        let mut sx = sx0;
        while sx < sx1
            invariant
                sx0 <= sx <= sx1 <= w,
                sy0 <= sy < sy1 <= h,
                w * h * 4 <= rgba@.len(),
                s == rgba@,
                wi == w,
                r0 + row_sum(s, wi, sy as int, sx0 as int, sx1 as int, 0) <= u64::MAX,
                g0 + row_sum(s, wi, sy as int, sx0 as int, sx1 as int, 1) <= u64::MAX,
                b0 + row_sum(s, wi, sy as int, sx0 as int, sx1 as int, 2) <= u64::MAX,
                a0 + row_sum(s, wi, sy as int, sx0 as int, sx1 as int, 3) <= u64::MAX,
                r == r0 + row_sum(s, wi, sy as int, sx0 as int, sx as int, 0),
                g == g0 + row_sum(s, wi, sy as int, sx0 as int, sx as int, 1),
                b == b0 + row_sum(s, wi, sy as int, sx0 as int, sx as int, 2),
                a == a0 + row_sum(s, wi, sy as int, sx0 as int, sx as int, 3),
            decreases sx1 - sx,
        {
            proof {
                lemma_px_range(wi, h as int, sx as int, sy as int, 3);
                lemma_row_sum_monotone(s, wi, sy as int, sx0 as int, sx + 1, sx1 as int, 0);
                lemma_row_sum_monotone(s, wi, sy as int, sx0 as int, sx + 1, sx1 as int, 1);
                lemma_row_sum_monotone(s, wi, sy as int, sx0 as int, sx + 1, sx1 as int, 2);
                lemma_row_sum_monotone(s, wi, sy as int, sx0 as int, sx + 1, sx1 as int, 3);
            }
            let len = rgba.len();
            assert((sy * w + sx) * 4 + 3 < len);
            let i = (sy * w + sx) * 4;
            let af = rgba[i + 3] as u64;
            proof {
                assert(rgba[i as int] as u64 * af == weight(s, wi, sx as int, sy as int, 0));
                assert(rgba[i + 1] as u64 * af == weight(s, wi, sx as int, sy as int, 1));
                assert(rgba[i + 2] as u64 * af == weight(s, wi, sx as int, sy as int, 2));
            }
            r += rgba[i] as u64 * af;
            g += rgba[i + 1] as u64 * af;
            b += rgba[i + 2] as u64 * af;
            a += af;
            sx += 1;
        }
        sy += 1;
    }
    (r, g, b, a)
}

proof fn lemma_row_sum_monotone(rgba: Seq<u8>, w: int, sy: int, x0: int, x: int, x1: int, ch: int)
    requires
        0 <= ch < 4,
        x0 <= x <= x1,
    ensures
        row_sum(rgba, w, sy, x0, x, ch) <= row_sum(rgba, w, sy, x0, x1, ch),
    decreases x1 - x,
{
    if x < x1 {
        lemma_row_sum_monotone(rgba, w, sy, x0, x, x1 - 1, ch);
        lemma_row_sum_bound(rgba, w, sy, x1 - 1, x1, ch);
        let i = px(w, x1 - 1, sy, 3);
        let j = px(w, x1 - 1, sy, ch);
        assert(0 <= rgba[j] * rgba[i]) by (nonlinear_arith)
            requires
                0 <= rgba[j],
                0 <= rgba[i],
        ;
    }
}

/// Start and end of destination index `i`'s source span.
fn spans(i: usize, n: usize, big: usize) -> (r: (usize, usize))
    requires
        i < n,
        0 < n <= big,
        n * big <= usize::MAX,
    ensures
        r.0 == span0(i as int, n as int, big as int),
        r.1 == span1(i as int, n as int, big as int),
{
    proof {
        assert((i + 1) * big <= n * big) by (nonlinear_arith)
            requires
                i + 1 <= n,
                0 < big,
        ;
        assert(i * big <= (i + 1) * big) by (nonlinear_arith)
            requires
                0 < big,
        ;
        lemma_span(i as int, n as int, big as int);
    }
    let s0 = i * big / n;
    let e = (i + 1) * big / n;
    let e2 = if e < s0 + 1 { s0 + 1 } else { e };
    let s1 = if e2 > big { big } else { e2 };
    (s0, s1)
}

/// Whether destination pixel `(x, y)` comes before `(cx, cy)` in row-major order.
pub open spec fn done_before(x: int, y: int, cx: int, cy: int) -> bool {
    y < cy || (y == cy && x < cx)
}

/// Shrink a `w`x`h` RGBA8 raster to `nw`x`nh` (no larger than the source) by an area-average
/// box filter in premultiplied alpha: see [`down_px`].
pub fn box_downscale(rgba: &[u8], w: usize, h: usize, nw: usize, nh: usize) -> (out: Vec<u8>)
    requires
        0 < nw <= w,
        0 < nh <= h,
        w * h * 4 <= rgba@.len(),
        w * h <= 0x100_0000_0000,
        nw * w <= usize::MAX,
        nh * h <= usize::MAX,
        nw * nh * 4 <= usize::MAX,
    ensures
        out@.len() == nw * nh * 4,
        forall|x: int, y: int, c: int|
            0 <= x < nw && 0 <= y < nh && 0 <= c < 4 ==> #[trigger] out@[px(nw as int, x, y, c)] as int == down_px(
                rgba@,
                w as int,
                h as int,
                nw as int,
                nh as int,
                x,
                y,
                c,
            ),
{
    proof {
        assert(w * h * 65025 <= u64::MAX) by (nonlinear_arith)
            requires
                w * h <= 0x100_0000_0000,
        ;
    }
    let mut out = zeros(nw * nh * 4);
    let mut y: usize = 0;
    while y < nh
        invariant
            0 < nw <= w,
            0 < nh <= h,
            w * h * 4 <= rgba@.len(),
            w * h <= 0x100_0000_0000,
            w * h * 65025 <= u64::MAX,
            nw * w <= usize::MAX,
            nh * h <= usize::MAX,
            y <= nh,
            out@.len() == nw * nh * 4,
            forall|x: int, yy: int, c: int|
                0 <= x < nw && 0 <= yy < nh && 0 <= c < 4 && done_before(x, yy, 0, y as int) ==> #[trigger] out@[px(nw as int, x, yy, c)] as int
                    == down_px(rgba@, w as int, h as int, nw as int, nh as int, x, yy, c),
        decreases nh - y,
    {
        let (sy0, sy1) = spans(y, nh, h);
        proof {
            lemma_span(y as int, nh as int, h as int);
        }
        let mut x: usize = 0;
        while x < nw
            invariant
                0 < nw <= w,
                0 < nh <= h,
                w * h * 4 <= rgba@.len(),
                w * h <= 0x100_0000_0000,
                w * h * 65025 <= u64::MAX,
                nw * w <= usize::MAX,
                nh * h <= usize::MAX,
                y < nh,
                x <= nw,
                sy0 == span0(y as int, nh as int, h as int),
                sy1 == span1(y as int, nh as int, h as int),
                sy0 < sy1 <= h,
                out@.len() == nw * nh * 4,
                forall|xx: int, yy: int, c: int|
                    0 <= xx < nw && 0 <= yy < nh && 0 <= c < 4 && done_before(xx, yy, x as int, y as int) ==> #[trigger] out@[px(nw as int, xx, yy, c)] as int
                        == down_px(rgba@, w as int, h as int, nw as int, nh as int, xx, yy, c),
            decreases nw - x,
        {
            let (sx0, sx1) = spans(x, nw, w);
            proof {
                lemma_span(x as int, nw as int, w as int);
            }
            let (r, g, b, a) = box_sums(rgba, w, h, sx0, sx1, sy0, sy1);
            let ghost count_i = (sy1 - sy0) * (sx1 - sx0);
            proof {
                assert(1 <= count_i <= w * h) by (nonlinear_arith)
                    requires
                        count_i == (sy1 - sy0) * (sx1 - sx0),
                        1 <= sy1 - sy0 <= h,
                        1 <= sx1 - sx0 <= w,
                ;
                lemma_box_sum_bound(rgba@, w as int, sx0 as int, sx1 as int, sy0 as int, sy1 as int, 0);
                lemma_box_sum_bound(rgba@, w as int, sx0 as int, sx1 as int, sy0 as int, sy1 as int, 1);
                lemma_box_sum_bound(rgba@, w as int, sx0 as int, sx1 as int, sy0 as int, sy1 as int, 2);
                lemma_box_sum_bound(rgba@, w as int, sx0 as int, sx1 as int, sy0 as int, sy1 as int, 3);
                assert(count_i * 65025 <= w * h * 65025) by (nonlinear_arith)
                    requires
                        count_i <= w * h,
                ;
            }
            let rl = rgba.len();
            assert((sy1 - sy0) * (sx1 - sx0) <= rl) by (nonlinear_arith)
                requires
                    (sy1 - sy0) * (sx1 - sx0) <= w * h,
                    w * h * 4 <= rl,
            ;
            let count = ((sy1 - sy0) * (sx1 - sx0)) as u64;
            let av = (2 * a + count) / (2 * count);
            let alpha: u8 = if av > 255 { 255 } else { av as u8 };
            let (cr, cg, cb): (u8, u8, u8) = if a > 0 {
                let rv = (2 * r + a) / (2 * a);
                let gv = (2 * g + a) / (2 * a);
                let bv = (2 * b + a) / (2 * a);
                (
                    if rv > 255 { 255 } else { rv as u8 },
                    if gv > 255 { 255 } else { gv as u8 },
                    if bv > 255 { 255 } else { bv as u8 },
                )
            } else {
                (0, 0, 0)
            };
            proof {
                lemma_px_range(nw as int, nh as int, x as int, y as int, 0);
            }
            let olen = out.len();
            assert((y * nw + x) * 4 + 3 < olen);
            let dst = (y * nw + x) * 4;
            let ghost before = out@;
            out.set(dst, cr);
            out.set(dst + 1, cg);
            out.set(dst + 2, cb);
            out.set(dst + 3, alpha);
            proof {
                assert forall|xx: int, yy: int, c: int|
                    0 <= xx < nw && 0 <= yy < nh && 0 <= c < 4 && done_before(xx, yy, x + 1, y as int) implies #[trigger] out@[px(nw as int, xx, yy, c)] as int
                        == down_px(rgba@, w as int, h as int, nw as int, nh as int, xx, yy, c) by {
                    lemma_px_range(nw as int, nh as int, xx, yy, c);
                    if xx == x && yy == y {
                        assert(px(nw as int, xx, yy, c) == dst + c);
                    } else {
                        if dst <= px(nw as int, xx, yy, c) < dst + 4 {
                            let k = px(nw as int, xx, yy, c) - dst;
                            lemma_px_inj(nw as int, xx, yy, c, x as int, y as int, k);
                        }
                        assert(out@[px(nw as int, xx, yy, c)] == before[px(nw as int, xx, yy, c)]);
                    }
                }
            }
            x += 1;
        }
        y += 1;
    }
    out
}

/// Dimensions capped so the longest side is at most [`MAX_RASTER_DIM`], each side scaled by
/// the same factor and rounded half up, never below 1.
pub open spec fn capped_dim(side: int, longest: int) -> int {
    let d = (2 * side * 2048 + longest) / (2 * longest);
    if d < 1 { 1 } else { d }
}

/// Shrink an RGBA8 raster so its longest side is at most [`MAX_RASTER_DIM`]: the downscaled
/// pixels and dimensions, or the input unchanged when it already fits (or is empty).
pub fn cap_rgba(rgba: &[u8], width: u32, height: u32) -> (r: (Vec<u8>, u32, u32))
    requires
        (width > 2048 || height > 2048) && width > 0 && height > 0 ==> width * height * 4 <= rgba@.len()
            && width * height <= 0x100_0000_0000 && width * 2048 <= usize::MAX && height * 2048 <= usize::MAX,
    ensures
        (width <= 2048 && height <= 2048) || width == 0 || height == 0 ==> r.0@ == rgba@ && r.1 == width && r.2 == height,
        !((width <= 2048 && height <= 2048) || width == 0 || height == 0) ==> {
            let longest = if width > height { width as int } else { height as int };
            &&& r.1 == capped_dim(width as int, longest)
            &&& r.2 == capped_dim(height as int, longest)
            &&& r.1 <= width && r.2 <= height
            &&& 1 <= r.1 <= MAX_RASTER_DIM && 1 <= r.2 <= MAX_RASTER_DIM
            &&& r.0@.len() == r.1 * r.2 * 4
            &&& forall|x: int, y: int, c: int|
                0 <= x < r.1 && 0 <= y < r.2 && 0 <= c < 4 ==> #[trigger] r.0@[px(r.1 as int, x, y, c)] as int
                    == down_px(rgba@, width as int, height as int, r.1 as int, r.2 as int, x, y, c)
        },
{
    let longest: u32 = if width > height { width } else { height };
    if longest <= MAX_RASTER_DIM || width == 0 || height == 0 {
        return (crate::raster::copy_slice(rgba), width, height);
    }
    let l = longest as u64;
    let w = width as u64;
    let h = height as u64;
    let nw0 = (2 * w * 2048 + l) / (2 * l);
    let nh0 = (2 * h * 2048 + l) / (2 * l);
    let nw: u64 = if nw0 < 1 { 1 } else { nw0 };
    let nh: u64 = if nh0 < 1 { 1 } else { nh0 };
    proof {
        assert(nw0 <= w) by (nonlinear_arith)
            requires
                nw0 == (2 * w * 2048 + l) / (2 * l),
                w <= l,
                l > 2048,
        ;
        assert(nh0 <= h) by (nonlinear_arith)
            requires
                nh0 == (2 * h * 2048 + l) / (2 * l),
                h <= l,
                l > 2048,
        ;
        assert(nw0 <= 2048) by (nonlinear_arith)
            requires
                nw0 == (2 * w * 2048 + l) / (2 * l),
                w <= l,
                l > 0,
        ;
        assert(nh0 <= 2048) by (nonlinear_arith)
            requires
                nh0 == (2 * h * 2048 + l) / (2 * l),
                h <= l,
                l > 0,
        ;
        assert(nw * width <= width * 2048) by (nonlinear_arith)
            requires
                nw <= 2048,
        ;
        assert(nh * height <= height * 2048) by (nonlinear_arith)
            requires
                nh <= 2048,
        ;
        assert(nw * nh * 4 <= width * height * 4) by (nonlinear_arith)
            requires
                nw <= width,
                nh <= height,
        ;
    }
    let rl = rgba.len();
    assert(nw * nh * 4 <= rl);
    let out = box_downscale(rgba, width as usize, height as usize, nw as usize, nh as usize);
    (out, nw as u32, nh as u32)
}

/// [`px`] stays inside a `w`x`h` raster.
pub proof fn lemma_px_range_pub(w: int, h: int, x: int, y: int, c: int)
    requires
        0 <= x < w,
        0 <= y < h,
        0 <= c < 4,
    ensures
        0 <= y * w,
        y * w + x < w * h,
        0 <= px(w, x, y, c) < w * h * 4,
        px(w, x, y, c) + (4 - c) <= w * h * 4,
{
    lemma_px_range(w, h, x, y, c);
}

/// Every byte index of a `w`x`h` RGBA raster is some pixel's channel.
pub proof fn lemma_px_decompose(i: int, w: int, h: int)
    requires
        0 < w,
        0 <= i < w * h * 4,
    ensures
        i == px(w, (i / 4) % w, (i / 4) / w, i % 4),
        0 <= (i / 4) % w < w,
        0 <= (i / 4) / w < h,
        0 <= i % 4 < 4,
{
    let p = i / 4;
    vstd::arithmetic::div_mod::lemma_fundamental_div_mod(i, 4);
    vstd::arithmetic::div_mod::lemma_fundamental_div_mod(p, w);
    assert(0 <= p < w * h) by (nonlinear_arith)
        requires
            p == i / 4,
            0 <= i < w * h * 4,
    ;
    assert(p / w < h) by (nonlinear_arith)
        requires
            0 <= p < w * h,
            0 < w,
    ;
    assert(0 <= p % w < w) by (nonlinear_arith)
        requires
            0 < w,
    ;
    assert(0 <= p / w) by (nonlinear_arith)
        requires
            0 <= p,
            0 < w,
    ;
    assert(i == (w * (p / w) + p % w) * 4 + i % 4) by (nonlinear_arith)
        requires
            p == w * (p / w) + p % w,
            i == 4 * p + i % 4,
    ;
    assert(w * (p / w) == (p / w) * w) by (nonlinear_arith);
}

/// The RGBA pixels of one stored tile of a `tw`x`th` RGBA8 layer: a planar-pixel stream
/// (`raw`) interleaved, or the stored tile decoded and interleaved; `None` when it does not
/// hold exactly one tile's pixels.
pub open spec fn tile_pixels(raw: bool, data: Seq<u8>, tw: int, th: int) -> Option<Seq<u8>> {
    if raw {
        if data.len() == tw * th * 4 { Some(interleave(data, tw * th)) } else { None }
    } else {
        match tile_planar_spec(data, (tw * th * 4) as nat) {
            Some(p) => Some(interleave(p, tw * th)),
            None => None,
        }
    }
}

/// Byte `c` of pixel `(x, y)` of a layer canvas after placing the first `k` tiles: the last
/// of them that decodes and covers the pixel gives it; otherwise the default pixel, or
/// transparent zero when there is none.
pub open spec fn painted(
    tiles: Seq<(i64, i64, bool, Seq<u8>)>,
    k: int,
    tw: int,
    th: int,
    fill: Option<Seq<u8>>,
    x: int,
    y: int,
    c: int,
) -> u8
    decreases k,
{
    if k <= 0 {
        match fill {
            Some(f) => f[c],
            None => 0,
        }
    } else {
        let t = tiles[k - 1];
        match tile_pixels(t.2, t.3, tw, th) {
            Some(p) => if t.0 <= x < t.0 + tw && t.1 <= y < t.1 + th {
                p[px(tw, x - t.0, y - t.1, c)]
            } else {
                painted(tiles, k - 1, tw, th, fill, x, y, c)
            },
            None => painted(tiles, k - 1, tw, th, fill, x, y, c),
        }
    }
}

/// The tiles as plain values.
pub open spec fn tiles_view(tiles: Seq<(i64, i64, bool, Vec<u8>)>) -> Seq<(i64, i64, bool, Seq<u8>)> {
    tiles.map_values(|t: (i64, i64, bool, Vec<u8>)| (t.0, t.1, t.2, t.3@))
}

proof fn lemma_px_mod(w: int, x: int, y: int, c: int)
    requires
        0 <= x < w,
        0 <= y,
        0 <= c < 4,
    ensures
        px(w, x, y, c) % 4 == c,
{
    assert(0 <= y * w) by (nonlinear_arith)
        requires
            0 <= y,
            0 <= w,
    ;
    vstd::arithmetic::div_mod::lemma_fundamental_div_mod_converse(px(w, x, y, c), 4, y * w + x, c);
}

/// A `width`x`height` RGBA8 layer canvas: the default pixel (`fill`, RGBA) everywhere, or
/// transparent zero, with each tile that decodes placed at its position in order, clipped to
/// the canvas (see [`painted`]).
pub fn layer_canvas(tiles: &Vec<(i64, i64, bool, Vec<u8>)>, tw: i64, th: i64, width: i64, height: i64, fill: Option<[u8; 4]>) -> (r: Vec<u8>)
    requires
        0 < tw,
        0 < th,
        0 <= width,
        0 <= height,
        tw * th * 4 <= i64::MAX,
        width * height * 4 <= i64::MAX,
        tw * th * 4 <= usize::MAX,
        width * height * 4 <= usize::MAX,
    ensures
        r@.len() == width * height * 4,
        forall|x: int, y: int, c: int|
            0 <= x < width && 0 <= y < height && 0 <= c < 4 ==> #[trigger] r@[px(width as int, x, y, c)] == painted(
                tiles_view(tiles@),
                tiles@.len() as int,
                tw as int,
                th as int,
                match fill {
                    Some(f) => Some(f@),
                    None => None,
                },
                x,
                y,
                c,
            ),
{
    let ghost fv: Option<Seq<u8>> = match fill {
        Some(f) => Some(f@),
        None => None,
    };
    let ghost tv = tiles_view(tiles@);
    let f: [u8; 4] = match fill {
        Some(f) => f,
        None => [0u8, 0, 0, 0],
    };
    let total: usize = (width * height * 4) as usize;
    let mut canvas: Vec<u8> = Vec::new();
    let mut i: usize = 0;
    while i < total
        invariant
            total == width * height * 4,
            i <= total,
            canvas@.len() == i,
            forall|j: int| 0 <= j < i ==> #[trigger] canvas@[j] == f@[j % 4],
        decreases total - i,
    {
        canvas.push(f[i % 4]);
        i += 1;
    }
    proof {
        assert forall|x: int, y: int, c: int|
            0 <= x < width && 0 <= y < height && 0 <= c < 4 implies #[trigger] canvas@[px(width as int, x, y, c)] == painted(
                tv, 0, tw as int, th as int, fv, x, y, c) by {
            lemma_px_range(width as int, height as int, x, y, c);
            lemma_px_mod(width as int, x, y, c);
        }
    }
    let mut k: usize = 0;
    while k < tiles.len()
        invariant
            0 < tw,
            0 < th,
            0 <= width,
            0 <= height,
            tw * th * 4 <= i64::MAX,
            width * height * 4 <= i64::MAX,
            tw * th * 4 <= usize::MAX,
            k <= tiles@.len(),
            tv == tiles_view(tiles@),
            canvas@.len() == width * height * 4,
            forall|x: int, y: int, c: int|
                0 <= x < width && 0 <= y < height && 0 <= c < 4 ==> #[trigger] canvas@[px(width as int, x, y, c)] == painted(
                    tv, k as int, tw as int, th as int, fv, x, y, c),
        decreases tiles@.len() - k,
    {
        let t = &tiles[k];
        assert(tv[k as int] == (t.0, t.1, t.2, t.3@));
        proof {
            vstd::arithmetic::mul::lemma_mul_nonnegative(tw as int, th as int);
            assert(tw <= tw * th * 4 && th <= tw * th * 4) by (nonlinear_arith)
                requires
                    0 < tw,
                    0 < th,
            ;
            assert((tw as usize) as int == tw && (th as usize) as int == th);
        }
        let decoded = if t.2 {
            planar_to_rgba(t.3.as_slice(), tw as usize, th as usize)
        } else {
            tile_to_rgba(t.3.as_slice(), tw as usize, th as usize, 4)
        };
        assert(match decoded {
            Some(p) => tile_pixels(t.2, t.3@, tw as int, th as int) == Some(p@),
            None => tile_pixels(t.2, t.3@, tw as int, th as int) is None,
        });
        match decoded {
            Some(p) => {
                assert(p@.len() == tw * th * 4) by (nonlinear_arith)
                    requires
                        p@.len() == 4 * (tw * th),
                ;
                if t.0 <= i64::MAX - tw && t.1 <= i64::MAX - th {
                    let ghost before = canvas@;
                    blit(&mut canvas, width, height, t.0, t.1, p.as_slice(), tw, th);
                    proof {
                        assert forall|x: int, y: int, c: int|
                            0 <= x < width && 0 <= y < height && 0 <= c < 4 implies #[trigger] canvas@[px(width as int, x, y, c)]
                                == painted(tv, k + 1, tw as int, th as int, fv, x, y, c) by {
                            assert(before[px(width as int, x, y, c)] == painted(tv, k as int, tw as int, th as int, fv, x, y, c));
                        }
                    }
                } else {
                    proof {
                        assert forall|x: int, y: int, c: int|
                            0 <= x < width && 0 <= y < height && 0 <= c < 4 implies #[trigger] canvas@[px(width as int, x, y, c)]
                                == painted(tv, k + 1, tw as int, th as int, fv, x, y, c) by {
                            assert(width * 4 <= width * height * 4 && height * 4 <= width * height * 4) by (nonlinear_arith)
                                requires
                                    0 < width,
                                    0 < height,
                            ;
                            assert(tw * 4 <= tw * th * 4 && th * 4 <= tw * th * 4) by (nonlinear_arith)
                                requires
                                    0 < tw,
                                    0 < th,
                            ;
                            assert(!(t.0 <= x < t.0 + tw && t.1 <= y < t.1 + th));
                        }
                    }
                }
            },
            None => {},
        }
        k += 1;
    }
    canvas
}

} // verus!
