use krita_vcs::kra::{
    composite_block_coords, composite_block_dims, entry_key, layer_bounds, manifest_stream_key, referenced_streams,
    tile_dims, tile_key, KraEntry, KraManifest, TileRef,
};
use krita_vcs::merge::{
    attr, fail, fold_layers, fresh_uuid, or_q, replace_all, same_colour_space, same_parts, set_open_name, unique_name, xml_escape,
    IncomingLayer,
};
use krita_vcs::error::KvcError;

fn tile(x: i64, y: i64, hash: &str) -> TileRef {
    TileRef { x, y, compression: "LZF".to_string(), hash: hash.to_string(), raw: false }
}

fn manifest() -> KraManifest {
    KraManifest {
        entries: vec![
            KraEntry::Raw { path: "mimetype".to_string(), blob: "m1".to_string(), stored: true, crc32: 1, size: 2 },
            KraEntry::Tiled {
                path: "doc/layers/layer2".to_string(),
                header: "VERSION 2\nTILEWIDTH 64\nTILEHEIGHT  32 \nPIXELSIZE 4\nDATA 2\n".to_string(),
                tiles: vec![tile(0, 0, "t1"), tile(-64, 128, "t2")],
                crc32: 3,
                size: 4,
            },
            KraEntry::CompositePng {
                path: "mergedimage.png".to_string(),
                width: 300,
                height: 10,
                color: "rgba".to_string(),
                srgb: None,
                pixels_hash: "px".to_string(),
                tiles: vec![tile(256, 0, "b1")],
                crc32: 5,
                size: 6,
            },
            KraEntry::Raw { path: "maindoc.xml".to_string(), blob: "d1".to_string(), stored: false, crc32: 7, size: 8 },
        ],
    }
}

#[test]
fn stream_keys_name_the_document_entry_and_tile() {
    assert_eq!(manifest_stream_key("a/b.kra"), "kra:a/b.kra:manifest");
    assert_eq!(entry_key("a.kra", "maindoc.xml"), "kra:a.kra:entry:maindoc.xml");
    assert_eq!(tile_key("a.kra", "doc/layers/layer2", -64, 128), "kra:a.kra:tile:doc/layers/layer2:-64,128");
}

#[test]
fn a_manifest_references_its_blobs_and_every_tile() {
    let refs = referenced_streams("a.kra", &manifest());
    let expected: Vec<(String, String)> = [
        ("kra:a.kra:entry:mimetype", "m1"),
        ("kra:a.kra:tile:doc/layers/layer2:0,0", "t1"),
        ("kra:a.kra:tile:doc/layers/layer2:-64,128", "t2"),
        ("kra:a.kra:tile:mergedimage.png:256,0", "b1"),
        ("kra:a.kra:entry:maindoc.xml", "d1"),
    ]
    .iter()
    .map(|(k, h)| (k.to_string(), h.to_string()))
    .collect();
    assert_eq!(refs, expected);
}

#[test]
fn entry_hashes_and_raw_names() {
    let m = manifest();
    assert_eq!(m.entry_hash("maindoc.xml").as_deref(), Some("d1"));
    assert_eq!(m.entry_hash("mergedimage.png").as_deref(), Some("px"));
    assert_eq!(m.entry_hash("doc/layers/layer2"), None);
    assert_eq!(m.raw_entry_names(), vec!["mimetype".to_string(), "maindoc.xml".to_string()]);
}

#[test]
fn tile_headers_give_dims_and_default_to_zero() {
    assert_eq!(tile_dims("VERSION 2\nTILEWIDTH 64\nTILEHEIGHT  32 \nPIXELSIZE 4\n"), (64, 32, 4));
    assert_eq!(tile_dims("TILEWIDTH x\nTILEHEIGHT 8"), (0, 8, 0));
    assert_eq!(tile_dims(""), (0, 0, 0));
    assert_eq!(tile_dims("TILEWIDTH 7\r\nTILEWIDTH 9\n"), (7, 0, 0));
}

#[test]
fn tile_index_and_layer_bounds() {
    let index = manifest().tile_index();
    assert_eq!(index.len(), 1);
    assert_eq!((index[0].1, index[0].2), (64, 32));
    // Tiles at (0,0) and (-64,128) of 64x32: box x -64..64, y 0..160, clipped to 100x100.
    assert_eq!(layer_bounds(&index, "doc/layers/layer2", 100, 100), Some((0, 0, 64, 100)));
    assert_eq!(layer_bounds(&index, "doc/layers/layer2", 0, 100), None);
    assert_eq!(layer_bounds(&index, "missing", 100, 100), None);
}

#[test]
fn composite_blocks_cover_the_canvas_row_by_row() {
    assert_eq!(composite_block_coords(300, 10), vec![(0, 0), (256, 0)]);
    assert_eq!(composite_block_coords(256, 257), vec![(0, 0), (0, 256)]);
    assert!(composite_block_coords(0, 5).is_empty());
    assert_eq!(composite_block_dims(300, 10, 256, 0), (44, 10));
    assert_eq!(composite_block_dims(600, 600, 256, 256), (256, 256));
}

#[test]
fn merge_text_helpers() {
    assert!(matches!(fail("no layers"), KvcError::MergeFailed(m) if m == "no layers"));
    assert_eq!(or_q(""), "?");
    assert_eq!(or_q("RGBA"), "RGBA");
    assert_eq!(attr("filename", "layer3"), "filename=\"layer3\"");
    assert_eq!(xml_escape("a<b>&\"c\""), "a&lt;b&gt;&amp;&quot;c&quot;");
    assert_eq!(
        set_open_name("<layer filename=\"layer2\" name=\"Sky\" x=\"0\"", "Sky [2]").as_deref(),
        Some("<layer filename=\"layer2\" name=\"Sky [2]\" x=\"0\"")
    );
    assert_eq!(set_open_name("<layer filename=\"layer2\"", "X"), None);
    let taken = vec!["Sky".to_string(), "Sky [2]".to_string(), "Sky [4]".to_string()];
    assert_eq!(unique_name("Sky", &taken), "Sky [3]");
    assert_eq!(unique_name("Sea", &taken), "Sea [2]");
    let id = fresh_uuid("{abc}", 0);
    assert_eq!(id.len(), 38);
    assert!(id.starts_with('{') && id.ends_with('}'));
    let dashes: Vec<usize> = id.char_indices().filter(|(_, c)| *c == '-').map(|(i, _)| i).collect();
    assert_eq!(dashes, vec![9, 14, 19, 24]);
    assert_ne!(fresh_uuid("{abc}", 1), id);
    let expected = blake3::hash(b"kvc-merge\0{abc}\x000").to_hex().to_string();
    assert_eq!(&id[1..9], &expected[0..8]);
}

fn layer(text: &str, name: Option<&str>, files: &[&str], uuids: &[&str], unchanged: bool) -> IncomingLayer {
    IncomingLayer {
        text: text.to_string(),
        name: name.map(|n| n.to_string()),
        files: files.iter().map(|s| s.to_string()).collect(),
        uuids: uuids.iter().map(|s| s.to_string()).collect(),
        unchanged,
    }
}

fn texts(v: &[&str]) -> Vec<String> {
    v.iter().map(|s| s.to_string()).collect()
}

#[test]
fn folding_layers_renames_files_ids_and_clashing_names() {
    let base = "<IMAGE><layers a=\"1\"><layer name=\"Sky\" filename=\"layer3\" uuid=\"{b}\"/></layers></IMAGE>";
    let start = base.find("<layers").unwrap();
    let end = base.find("</layers>").unwrap() + "</layers>".len();
    let incoming = vec![
        layer("<layer name=\"Sky\" filename=\"layer2\" uuid=\"{u}\"/>", Some("Sky"), &["layer2"], &["{u}"], false),
        layer("<layer name=\"Old\" filename=\"layer9\" uuid=\"{o}\"/>", Some("Old"), &["layer9"], &["{o}"], true),
    ];
    let (merged, renames) = fold_layers(
        base,
        start,
        end,
        &texts(&["Sky"]),
        &texts(&["layer3", "layer4x", "other"]),
        &texts(&["{b}"]),
        &incoming,
    )
    .unwrap();
    assert_eq!(renames, vec![("layer2".to_string(), "layer4".to_string())]);
    let id = fresh_uuid("{u}", 0);
    let expected = format!(
        "<IMAGE><layers a=\"1\">\n<layer name=\"Sky [2]\" filename=\"layer4\" uuid=\"{id}\"/><layer name=\"Sky\" filename=\"layer3\" uuid=\"{{b}}\"/></layers></IMAGE>"
    );
    assert_eq!(merged, expected);
}

#[test]
fn folding_refuses_when_nothing_changed_or_the_stack_is_malformed() {
    let base = "<IMAGE><layers></layers></IMAGE>";
    let unchanged = vec![layer("<layer/>", None, &[], &[], true)];
    match fold_layers(base, 7, 23, &Vec::new(), &Vec::new(), &Vec::new(), &unchanged) {
        Err(KvcError::MergeFailed(m)) => assert_eq!(m, "set-aside file has no changed layers to bring back"),
        other => panic!("unexpected {other:?}"),
    }
    let changed = vec![layer("<layer/>", None, &[], &[], false)];
    match fold_layers(base, 30, 31, &Vec::new(), &Vec::new(), &Vec::new(), &changed) {
        Err(KvcError::MergeFailed(m)) => assert_eq!(m, "base <layers> tag is malformed"),
        other => panic!("unexpected {other:?}"),
    }
}

#[test]
fn replacing_is_left_to_right_and_non_overlapping() {
    assert_eq!(replace_all("aaaa", "aa", "b"), "bb");
    assert_eq!(replace_all("x=\"1\" y=\"1\"", "=\"1\"", "=\"2\""), "x=\"2\" y=\"2\"");
    assert_eq!(replace_all("abc", "zz", "q"), "abc");
}

#[test]
fn merging_needs_one_colour_space_and_tells_unchanged_parts() {
    assert!(same_colour_space("RGBA", "RGBA").is_ok());
    match same_colour_space("RGBA", "") {
        Err(KvcError::MergeFailed(m)) => assert_eq!(
            m,
            "different color space (RGBA vs ?) \u{2014} bring the set-aside work back onto a clean file"
        ),
        other => panic!("unexpected {other:?}"),
    }
    assert!(same_parts(&vec![vec![1, 2], vec![]], &vec![vec![1, 2], vec![]]));
    assert!(!same_parts(&vec![vec![1, 2]], &vec![vec![1, 3]]));
    assert!(!same_parts(&vec![vec![1, 2]], &vec![vec![1, 2], vec![]]));
}
