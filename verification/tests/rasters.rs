use krita_vcs::canvas::{blit, box_downscale, cap_rgba, layer_canvas, MAX_RASTER_DIM};
use krita_vcs::lzf::{lzf_compress, lzf_decompress};
use krita_vcs::overlay::{
    base64, cap_png, decode_png_rgba, diff_mask_png, mask_grid_from_png, enable_img_protocol, png_bytes_to_data_url,
    rgba_to_png, rgba_to_png_data_url, ImgProtocol,
};
use krita_vcs::raster::{tile_from_planar, tile_planar, tile_to_rgba, PLANE_A, PLANE_B, PLANE_G, PLANE_R};

fn lzf_literals(data: &[u8]) -> Vec<u8> {
    let mut out = Vec::new();
    for chunk in data.chunks(32) {
        out.push((chunk.len() - 1) as u8);
        out.extend_from_slice(chunk);
    }
    out
}

#[test]
fn lzf_literal_roundtrip() {
    let data: Vec<u8> = (0..200u32).map(|i| (i * 7 % 256) as u8).collect();
    let comp = lzf_literals(&data);
    assert_eq!(lzf_decompress(&comp, data.len()).unwrap(), data);
}

#[test]
fn lzf_backreference() {
    let mut comp = vec![2u8, b'a', b'b', b'c'];
    comp.push((4 << 5) | 0);
    comp.push(2);
    assert_eq!(lzf_decompress(&comp, 9).unwrap(), b"abcabcabc");
}

#[test]
fn lzf_compress_roundtrips_through_decoder() {
    let mut seed = 0xC0FFEEu64;
    let mut rng = |n: usize| -> Vec<u8> {
        (0..n)
            .map(|_| {
                seed = seed.wrapping_mul(6364136223846793005).wrapping_add(1442695040888963407);
                (seed >> 33) as u8
            })
            .collect()
    };
    let cases: Vec<Vec<u8>> = vec![
        Vec::new(),
        vec![7],
        vec![1, 2],
        vec![0u8; 20_000],
        (0..20_000u32).map(|i| (i / 64) as u8).collect(),
        rng(20_000),
        b"abcabcabcabcabcabc".to_vec(),
    ];
    for data in cases {
        let comp = lzf_compress(&data);
        assert_eq!(
            lzf_decompress(&comp, data.len()).unwrap_or_default(),
            data,
            "round-trip failed for a {}-byte buffer",
            data.len()
        );
        if data.len() >= 1000 && data.iter().all(|&b| b == data[0]) {
            assert!(comp.len() < data.len() / 4);
        }
    }
}

#[test]
fn lzf_rejects_truncated_streams() {
    let comp = lzf_literals(b"hello");
    assert_eq!(lzf_decompress(&comp, 5).unwrap(), b"hello");
    assert!(lzf_decompress(&comp, 4).is_none(), "a stream of another size is refused");
    assert!(lzf_decompress(&comp, 6).is_none());
    assert!(lzf_decompress(&comp[..3], 5).is_none());
    assert!(lzf_decompress(&[0x20, 5], 3).is_none(), "back-reference before the start");
}

#[test]
fn tile_from_planar_roundtrip() {
    let planar: Vec<u8> = (0..64 * 64 * 4u32).map(|i| (i % 251) as u8).collect();
    let stored = tile_from_planar(&planar);
    assert_eq!(tile_planar(&stored, planar.len()).unwrap(), planar);
}

#[test]
fn tile_decode_bgra_to_rgba() {
    let tw = 2;
    let th = 1;
    let n = tw * th;
    let mut planar = vec![0u8; n * 4];
    planar[PLANE_B * n] = 30;
    planar[PLANE_G * n] = 20;
    planar[PLANE_R * n] = 10;
    planar[PLANE_A * n] = 40;
    let stored = {
        let mut s = vec![0u8];
        s.extend_from_slice(&planar);
        s
    };
    let rgba = tile_to_rgba(&stored, tw, th, 4).unwrap();
    assert_eq!(&rgba[0..4], &[10, 20, 30, 40]);
}

#[test]
fn tile_decode_refuses_other_pixel_sizes() {
    let stored = vec![0u8; 1 + 2 * 8];
    assert!(tile_to_rgba(&stored, 2, 1, 8).is_none());
}

#[test]
fn png_encode_is_decodable() {
    let rgba = vec![255u8; 4 * 4 * 4];
    let url = rgba_to_png_data_url(&rgba, 4, 4).unwrap();
    assert!(url.starts_with("data:image/png;base64,"));
}

#[test]
fn png_round_trips_through_the_decoder() {
    let rgba: Vec<u8> = (0..3 * 2 * 4u32).map(|i| (i * 11) as u8).collect();
    let png = rgba_to_png(&rgba, 3, 2).unwrap();
    let (back, w, h) = decode_png_rgba(&png).unwrap();
    assert_eq!((w, h), (3, 2));
    assert_eq!(back, rgba);
    assert!(decode_png_rgba(b"not a png").is_none());
    assert!(rgba_to_png(&rgba, 5, 5).is_err(), "pixel data of the wrong size is refused");
}

#[test]
fn base64_matches_the_standard_vectors() {
    assert_eq!(base64(b""), "");
    assert_eq!(base64(b"f"), "Zg==");
    assert_eq!(base64(b"fo"), "Zm8=");
    assert_eq!(base64(b"foo"), "Zm9v");
    assert_eq!(base64(b"foob"), "Zm9vYg==");
    assert_eq!(base64(b"fooba"), "Zm9vYmE=");
    assert_eq!(base64(b"foobar"), "Zm9vYmFy");
    assert_eq!(base64(&[0xff, 0xfe, 0xfd]), "//79");
    assert_eq!(png_bytes_to_data_url(b"hi"), "data:image/png;base64,aGk=");
}

#[test]
fn cap_png_shrinks_oversized() {
    let w = MAX_RASTER_DIM + 100;
    let rgba = vec![128u8; w as usize * 4];
    let png = rgba_to_png(&rgba, w, 1).unwrap();
    let capped = cap_png(&png).expect("an oversized raster is re-encoded");
    let (_, cw, ch) = decode_png_rgba(&capped).unwrap();
    assert_eq!(cw.max(ch), MAX_RASTER_DIM);
}

#[test]
fn cap_png_passthrough_small_and_malformed() {
    let png = rgba_to_png(&[0u8; 16], 2, 2).unwrap();
    assert!(cap_png(&png).is_none());
    assert!(cap_png(b"not a png").is_none());
}

#[test]
fn box_downscale_averages_not_samples() {
    let src = [0, 0, 0, 255, 255, 0, 0, 255, 255, 0, 0, 255, 0, 0, 0, 255];
    let out = box_downscale(&src, 2, 2, 1, 1);
    assert_eq!(out[3], 255, "opaque");
    assert_eq!(out[0], 128, "mean of 0,255,255,0 rounds to 128");
    assert_eq!(&out[1..3], &[0, 0]);
}

#[test]
fn box_downscale_matches_f64_reference() {
    fn reference(rgba: &[u8], w: usize, h: usize, nw: usize, nh: usize) -> Vec<u8> {
        let mut out = vec![0u8; nw * nh * 4];
        for y in 0..nh {
            let sy0 = y * h / nh;
            let sy1 = (((y + 1) * h) / nh).max(sy0 + 1).min(h);
            for x in 0..nw {
                let sx0 = x * w / nw;
                let sx1 = (((x + 1) * w) / nw).max(sx0 + 1).min(w);
                let (mut r, mut g, mut b, mut a, mut count) = (0f64, 0f64, 0f64, 0f64, 0f64);
                for sy in sy0..sy1 {
                    let row = sy * w;
                    for sx in sx0..sx1 {
                        let i = (row + sx) * 4;
                        let af = rgba[i + 3] as f64 / 255.0;
                        r += rgba[i] as f64 * af;
                        g += rgba[i + 1] as f64 * af;
                        b += rgba[i + 2] as f64 * af;
                        a += rgba[i + 3] as f64;
                        count += 1.0;
                    }
                }
                let dst = (y * nw + x) * 4;
                let a_avg = a / count;
                out[dst + 3] = a_avg.round().clamp(0.0, 255.0) as u8;
                if a_avg > 0.0 {
                    let a_frac = a_avg / 255.0;
                    out[dst] = (r / count / a_frac).round().clamp(0.0, 255.0) as u8;
                    out[dst + 1] = (g / count / a_frac).round().clamp(0.0, 255.0) as u8;
                    out[dst + 2] = (b / count / a_frac).round().clamp(0.0, 255.0) as u8;
                }
            }
        }
        out
    }
    let (w, h, nw, nh) = (37usize, 23usize, 13usize, 7usize);
    let mut seed = 0x12345678u64;
    let rgba: Vec<u8> = (0..w * h * 4)
        .map(|_| {
            seed = seed.wrapping_mul(6364136223846793005).wrapping_add(1442695040888963407);
            (seed >> 33) as u8
        })
        .collect();
    let a = box_downscale(&rgba, w, h, nw, nh);
    let b = reference(&rgba, w, h, nw, nh);
    for i in 0..a.len() {
        assert!((a[i] as i32 - b[i] as i32).abs() <= 1, "channel {i}: {} vs reference {}", a[i], b[i]);
    }
}

#[test]
fn box_downscale_no_dark_bleed_from_transparent() {
    let src = [255, 0, 0, 255, 0, 0, 0, 0];
    let out = box_downscale(&src, 2, 1, 1, 1);
    assert_eq!(out[3], 128, "alpha is the mean of 255 and 0");
    assert_eq!(&out[0..3], &[255, 0, 0], "color stays red, no dark bleed");
}

#[test]
fn cap_rgba_dimensions_follow_float_rounding() {
    for (w, h) in [(2049u32, 1u32), (4096, 3), (12288, 3), (5000, 7), (2048, 2049), (2100, 50)] {
        let l = w.max(h);
        let scale = MAX_RASTER_DIM as f64 / l as f64;
        let fw = ((w as f64 * scale).round() as u32).max(1);
        let fh = ((h as f64 * scale).round() as u32).max(1);
        let rgba = vec![7u8; (w * h * 4) as usize];
        let (out, nw, nh) = cap_rgba(&rgba, w, h);
        assert_eq!((nw, nh), (fw, fh), "{w}x{h}");
        assert_eq!(out.len(), (nw * nh * 4) as usize);
        assert!(out.iter().all(|&b| b == 7));
    }
    let small = vec![1u8, 2, 3, 4];
    assert_eq!(cap_rgba(&small, 1, 1), (small.clone(), 1, 1));
}

#[test]
fn diff_mask_transparent_where_equal() {
    let png = rgba_to_png(&[10, 20, 30, 255, 40, 50, 60, 255], 2, 1).unwrap();
    let mask = diff_mask_png(&png, &png).unwrap();
    let (rgba, _, _) = decode_png_rgba(&mask).unwrap();
    assert!(rgba.iter().all(|&b| b == 0), "identical composites → fully transparent");
}

#[test]
fn diff_mask_opaque_where_changed() {
    let before = rgba_to_png(&[0, 0, 0, 255, 0, 0, 0, 255], 2, 1).unwrap();
    let after = rgba_to_png(&[0, 0, 0, 255, 200, 200, 200, 255], 2, 1).unwrap();
    let mask = diff_mask_png(&before, &after).unwrap();
    let (rgba, _, _) = decode_png_rgba(&mask).unwrap();
    assert_eq!(&rgba[0..4], &[0, 0, 0, 0], "unchanged pixel stays transparent");
    assert_eq!(&rgba[4..8], &[0xE0, 0x7B, 0x39, 128], "changed pixel is accent-tinted");
}

#[test]
fn diff_mask_samples_a_differently_sized_before() {
    let before = rgba_to_png(&[0, 0, 0, 255], 1, 1).unwrap();
    let after = rgba_to_png(&[0, 0, 0, 255, 0, 0, 17, 255, 0, 0, 16, 255], 3, 1).unwrap();
    let mask = diff_mask_png(&before, &after).unwrap();
    let (rgba, w, h) = decode_png_rgba(&mask).unwrap();
    assert_eq!((w, h), (3, 1));
    assert_eq!(rgba[3], 0);
    assert_eq!(rgba[7], 128, "17 is past the threshold");
    assert_eq!(rgba[11], 0, "16 is not");
    assert!(diff_mask_png(b"junk", &after).is_none());
}

#[test]
fn blit_clips_to_the_canvas() {
    let mut canvas = vec![0u8; 3 * 2 * 4];
    let tile: Vec<u8> = (1..=16).collect();
    blit(&mut canvas, 3, 2, 2, -1, &tile, 2, 2);
    let mut expect = vec![0u8; 24];
    expect[8..12].copy_from_slice(&tile[8..12]);
    assert_eq!(canvas, expect);
    let mut c2 = vec![9u8; 2 * 2 * 4 + 3];
    blit(&mut c2, 2, 2, 0, 0, &tile, 2, 2);
    assert_eq!(&c2[..16], &tile[..]);
    assert_eq!(&c2[16..], &[9, 9, 9]);
}

#[test]
fn enabling_the_image_scheme_sticks() {
    let mut p = ImgProtocol { enabled: false };
    enable_img_protocol(&mut p);
    assert!(p.enabled);
}

#[test]
fn png_encode_refuses_a_zero_side() {
    assert!(rgba_to_png(&[], 0, 3).is_err());
    assert!(rgba_to_png(&[], 3, 0).is_err());
    assert!(rgba_to_png(&[9u8; 4], 1, 1).is_ok());
}

#[test]
fn a_mask_png_gives_back_its_alpha_grid() {
    let rgba = vec![0, 0, 0, 0, 255, 0, 0, 200, 0, 0, 0, 0];
    let png = rgba_to_png(&rgba, 3, 1).unwrap();
    assert_eq!(mask_grid_from_png(&png), Some((vec![false, true, false], 3, 1)));
    assert_eq!(mask_grid_from_png(b"junk"), None);
}

#[test]
fn a_layer_canvas_is_the_default_pixel_with_its_tiles_placed() {
    // One 1x1 tile stored raw (flag 0) as planar B, G, R, A.
    let tile = vec![0u8, 30, 20, 10, 255];
    let tiles = vec![(1i64, 0i64, false, tile), (5i64, 5i64, false, vec![9u8])];
    let canvas = layer_canvas(&tiles, 1, 1, 2, 1, Some([1, 2, 3, 4]));
    assert_eq!(canvas, vec![1, 2, 3, 4, 10, 20, 30, 255]);
    let planar = vec![(0i64, 0i64, true, vec![7u8, 8, 9, 6])];
    assert_eq!(layer_canvas(&planar, 1, 1, 1, 1, None), vec![9, 8, 7, 6]);
}

#[test]
fn constant_tiles_are_stored_compressed() {
    let planar = vec![5u8; 4096];
    let stored = tile_from_planar(&planar);
    assert_eq!(stored[0], 1);
    assert!(stored.len() <= planar.len() / 4);
    assert!(lzf_compress(&vec![0u8; 20000]).len() < 5000);
}
