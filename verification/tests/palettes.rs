use krita_vcs::palette::{diff, hex, is_palette, parse, parse_aco, parse_ase, parse_gpl, unit8, Palette, Swatch};

#[test]
fn gpl_parses_colors_and_columns() {
    let src = b"GIMP Palette\nName: Test\nColumns: 3\n#\n255 0 0 Red\n0 255 0\tGreen\n";
    let p = parse_gpl(src).unwrap();
    assert_eq!(p.columns, 3);
    assert_eq!(p.swatches.len(), 2);
    assert_eq!(p.swatches[0].name, "Red");
    assert_eq!(p.swatches[0].rgb, (255, 0, 0));
    assert_eq!(p.swatches[1].name, "Green");
}

#[test]
fn aco_v1_rgb() {
    let bytes = [0, 1, 0, 1, 0, 0, 0xFF, 0xFF, 0, 0, 0, 0, 0, 0];
    let p = parse_aco(&bytes).unwrap();
    assert_eq!(p.swatches.len(), 1);
    assert_eq!(p.swatches[0].rgb, (255, 0, 0));
}

#[test]
fn ase_rgb_with_name() {
    let mut b = Vec::new();
    b.extend_from_slice(b"ASEF");
    b.extend_from_slice(&[0, 1, 0, 0]);
    b.extend_from_slice(&1u32.to_be_bytes());
    b.extend_from_slice(&0x0001u16.to_be_bytes());
    let mut body = Vec::new();
    body.extend_from_slice(&3u16.to_be_bytes());
    for u in [b'H' as u16, b'i' as u16, 0u16] {
        body.extend_from_slice(&u.to_be_bytes());
    }
    body.extend_from_slice(b"RGB ");
    body.extend_from_slice(&0.0f32.to_be_bytes());
    body.extend_from_slice(&0.5f32.to_be_bytes());
    body.extend_from_slice(&1.0f32.to_be_bytes());
    body.extend_from_slice(&0u16.to_be_bytes());
    b.extend_from_slice(&(body.len() as u32).to_be_bytes());
    b.extend_from_slice(&body);

    let p = parse_ase(&b).unwrap();
    assert_eq!(p.swatches.len(), 1);
    assert_eq!(p.swatches[0].name, "Hi");
    assert_eq!(p.swatches[0].rgb, (0, 128, 255));
}

fn sw(name: &str, rgb: (u8, u8, u8)) -> Swatch {
    Swatch { name: name.to_string(), rgb }
}

#[test]
fn diff_classifies_changes() {
    let old = Palette {
        columns: 4,
        swatches: vec![sw("A", (255, 0, 0)), sw("B", (0, 255, 0)), sw("Gone", (1, 1, 1))],
        pending: Vec::new(),
    };
    let new = Palette {
        columns: 4,
        swatches: vec![sw("A", (255, 0, 0)), sw("B", (0, 0, 255)), sw("New", (9, 9, 9))],
        pending: Vec::new(),
    };
    let d = diff(Some(&old), Some(&new));
    let by = |n: &str| d.swatches.iter().find(|s| s.name == n).unwrap();
    assert_eq!(by("A").change, "unchanged");
    assert_eq!(by("B").change, "modified");
    assert_eq!(by("B").before.as_deref(), Some("#00FF00"));
    assert_eq!(by("B").after.as_deref(), Some("#0000FF"));
    assert_eq!(by("New").change, "added");
    assert_eq!(by("Gone").change, "removed");
}

#[test]
fn hex_is_upper_case_rrggbb() {
    assert_eq!(hex((0, 0x7b, 0xff)), "#007BFF");
    assert_eq!(hex((16, 1, 0)), "#100100");
}

#[test]
fn palette_extensions_are_recognised() {
    assert!(is_palette("a/b/Sun.GPL"));
    assert!(is_palette("x.aco"));
    assert!(is_palette("x.ase"));
    assert!(is_palette("x.kpl"));
    assert!(!is_palette("x.kra"));
    assert!(parse("x.gpl", b"GIMP Palette\n1 2 3 c\n").is_some());
    assert!(parse("x.gpl", b"not a palette").is_none());
}

#[test]
fn unit8_matches_float_rounding_of_clamped_channels() {
    let samples: Vec<f32> = vec![
        0.0, 0.5, 1.0, -0.25, 1.5, 0.001, 0.999, 0.25, 0.75, 0.3333, 0.6667, 2.0e-7, 127.5 / 255.0,
        0.5 / 255.0, 1.5 / 255.0, f32::MAX, f32::MIN, f32::MIN_POSITIVE, -0.0,
    ];
    for v in samples {
        let expected = ((v as f64).clamp(0.0, 1.0) * 255.0).round() as u8;
        assert_eq!(unit8(v.to_bits()), expected, "channel {v}");
    }
    let mut x = 0u32;
    for _ in 0..20000 {
        x = x.wrapping_mul(1664525).wrapping_add(1013904223);
        let v = f32::from_bits((x >> 9) | 0x3f00_0000) - 0.5;
        let expected = ((v as f64).clamp(0.0, 1.0) * 255.0).round() as u8;
        assert_eq!(unit8(v.to_bits()), expected, "channel {v}");
    }
}
