use krita_vcs::chains::ChainStore;
use krita_vcs::delta::Prepared;
use krita_vcs::error::KvcError;
use krita_vcs::kra::{KraEntry, KraManifest};
use krita_vcs::materialize::{assemble_tiled, materialize_plan, restore_chunks, Plan};
use krita_vcs::tiles::parse;
use krita_vcs::kra_store::{prepare_entry_work, EntryWork};
use krita_vcs::repo::{hash_bytes, Config, Index, Repo};
use krita_vcs::tiles::{serialize, Tile, TiledBlock};

fn repo() -> Repo {
    Repo::open("/art".to_string(), Config::default(), Index::default(), ChainStore::empty(), Vec::new(), 0, false, None, None)
}

#[test]
fn a_tiled_entry_becomes_one_stream_per_tile() {
    let block = TiledBlock {
        header: "VERSION 2\nTILEWIDTH 64\nTILEHEIGHT 64\nPIXELSIZE 4\nDATA 2\n".to_string(),
        tiles: vec![
            Tile { x: 0, y: 0, compression: "LZF".into(), data: vec![1, 2, 3] },
            Tile { x: 64, y: 0, compression: "LZF".into(), data: vec![4, 5] },
        ],
    };
    let buf = serialize(&block);
    let w = EntryWork::Fresh { name: "doc/layers/layer1".into(), crc32: 9, size: buf.len() as u64, buf };
    let (entry, items) = prepare_entry_work(&repo(), "art.kra", w).unwrap();
    assert_eq!(items.len(), 2);
    assert_eq!(items[0].0, "kra:art.kra:tile:doc/layers/layer1:0,0");
    assert_eq!(items[1].0, "kra:art.kra:tile:doc/layers/layer1:64,0");
    match entry {
        KraEntry::Tiled { path, tiles, crc32, .. } => {
            assert_eq!(path, "doc/layers/layer1");
            assert_eq!(crc32, 9);
            assert_eq!(tiles.len(), 2);
            assert_eq!(tiles[1].x, 64);
            assert_eq!(tiles[0].hash, hash_bytes(&[1, 2, 3]));
            assert!(!tiles[0].raw);
        }
        _ => panic!("expected a tiled entry"),
    }
    assert!(matches!(items[0].1, Prepared::New { .. }));
}

#[test]
fn other_entries_are_one_raw_stream_and_mimetype_stays_stored() {
    let w = EntryWork::Fresh { name: "mimetype".into(), crc32: 1, size: 19, buf: b"application/x-krita".to_vec() };
    let (entry, items) = prepare_entry_work(&repo(), "art.kra", w).unwrap();
    assert_eq!(items.len(), 1);
    assert_eq!(items[0].0, "kra:art.kra:entry:mimetype");
    match entry {
        KraEntry::Raw { stored, blob, .. } => {
            assert!(stored);
            assert_eq!(blob, hash_bytes(b"application/x-krita"));
        }
        _ => panic!("expected a raw entry"),
    }
}

#[test]
fn a_broken_tiled_entry_is_refused() {
    let w = EntryWork::Fresh { name: "doc/layers/layer1".into(), crc32: 1, size: 9, buf: b"VERSION 2\n".to_vec() };
    assert!(matches!(prepare_entry_work(&repo(), "art.kra", w), Err(KvcError::BadTiles(_))));
}

fn tref(x: i64, hash: &str) -> krita_vcs::kra::TileRef {
    krita_vcs::kra::TileRef { x, y: 0, compression: "LZF".into(), hash: hash.into(), raw: false }
}

#[test]
fn unchanged_entries_are_copied_and_changed_tiles_are_rebuilt() {
    let raw = |blob: &str, crc: u32| KraEntry::Raw { path: "maindoc.xml".into(), blob: blob.into(), stored: false, crc32: crc, size: 10 };
    let tiled = |tiles: Vec<krita_vcs::kra::TileRef>, crc: u32| KraEntry::Tiled {
        path: "doc/layers/layer1".into(),
        header: "H".into(),
        tiles,
        crc32: crc,
        size: 20,
    };
    let current = KraManifest { entries: vec![raw("a", 1), tiled(vec![tref(0, "t0"), tref(64, "t1")], 2)] };
    let target = KraManifest { entries: vec![raw("a", 1), tiled(vec![tref(64, "t1"), tref(0, "t9")], 3)] };
    let working = vec![("maindoc.xml".to_string(), 1u32, 10u64), ("doc/layers/layer1".to_string(), 2u32, 20u64)];
    let plan = materialize_plan(&target, &current, &working);
    assert!(matches!(plan[0], Plan::Copy(0)));
    match &plan[1] {
        Plan::Build(reuse) => assert_eq!(reuse, &vec![(64i64, 0i64)]),
        _ => panic!("a changed tiled entry is rebuilt"),
    }
    // The same tiles in another order are the same content.
    let reordered = KraManifest { entries: vec![tiled(vec![tref(64, "t1"), tref(0, "t0")], 2)] };
    let plan = materialize_plan(&reordered, &current, &working);
    assert!(matches!(plan[0], Plan::Copy(1)));
    // A working entry whose crc does not match is not trusted.
    let stale = vec![("maindoc.xml".to_string(), 7u32, 10u64)];
    let plan = materialize_plan(&target, &current, &stale);
    assert!(matches!(plan[0], Plan::Build(_)));
}

#[test]
fn a_tiled_entry_is_put_back_from_its_tiles() {
    let header = "VERSION 2\nTILEWIDTH 2\nTILEHEIGHT 1\nPIXELSIZE 4\nDATA 2\n".to_string();
    let mut planar_ref = tref(2, "p");
    planar_ref.raw = true;
    let refs = vec![tref(0, "a"), planar_ref];
    let planar = vec![7u8; 8];
    let bytes = assemble_tiled(&header, &refs, &vec![vec![0u8, 1, 2], planar.clone()]);
    let block = parse(&bytes).unwrap();
    assert_eq!(block.header, header);
    assert_eq!(block.tiles[0].data, vec![0u8, 1, 2]);
    assert_eq!(block.tiles[1].x, 2);
    assert_eq!(krita_vcs::raster::tile_planar(&block.tiles[1].data, 8).unwrap(), planar);
}

#[test]
fn restores_run_in_budgeted_groups() {
    let mib = 1u64 << 20;
    let sizes = vec![10 * mib, 50 * mib, 10 * mib, 100 * mib, 0];
    assert_eq!(restore_chunks(&sizes), vec![(0, 2), (2, 3), (3, 4), (4, 5)]);
    assert!(restore_chunks(&vec![]).is_empty());
}

#[test]
fn a_batch_commits_every_version_and_each_object_once() {
    let mut r = repo();
    let a = r.prepare_stream("file:a", b"same", None).unwrap();
    let b = r.prepare_stream("file:b", b"same", None).unwrap();
    let (hashes, objects) = r.commit_prepared_batch(vec![("file:a".to_string(), a), ("file:b".to_string(), b)]);
    assert_eq!(hashes, vec![hash_bytes(b"same"), hash_bytes(b"same")]);
    assert_eq!(objects.len(), 1, "two streams with the same content share one object");
    assert_eq!(r.chains.chain("file:a").unwrap().len(), 1);
    assert_eq!(r.chains.chain("file:b").unwrap().len(), 1);
}
