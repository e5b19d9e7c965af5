use krita_vcs::chains::{shard_of, ChainStore, Chains, Version};
use krita_vcs::delta::{looks_compressed, rebuild, Packs, PackSlot, Prepared, StoreOpts, TileCache};
use krita_vcs::error::KvcError;
use krita_vcs::repo::{hash_bytes, Config, Index, Repo};
use krita_vcs::scan::{is_supported, must_read, scan, scan_detailed, Seen};

fn repo() -> Repo {
    Repo::open("/art".to_string(), Config::default(), Index::default(), ChainStore::empty(), Vec::new(), 0, false, None, None)
}

#[test]
fn shards_follow_the_tracked_file() {
    assert_eq!(shard_of("file:notes/a.txt"), "notes/a.txt");
    assert_eq!(shard_of("kra:art.kra:manifest"), "art.kra");
    assert_eq!(shard_of("kra:art.kra:entry:layers/layer2"), "art.kra");
    assert_eq!(shard_of("kra:art.kra:tile:layer2:64,0"), "art.kra");
    assert_eq!(shard_of("kra:art.kra"), "art.kra");
    assert_eq!(shard_of("other"), "other");
}

#[test]
fn object_names_derive_from_hash_and_base() {
    let full = Version { hash: "aa".into(), base: None, chain_len: 0 };
    let patch = Version { hash: "bb".into(), base: Some("aa".into()), chain_len: 1 };
    assert_eq!(full.object_name(), "aa.full");
    assert_eq!(patch.object_name(), "bb.aa.patch");
}

#[test]
fn compressed_payloads_are_sniffed() {
    assert!(looks_compressed(b"\x89PNG\r\n"));
    assert!(looks_compressed(b"PK\x03\x04rest"));
    assert!(looks_compressed(&[0x28, 0xB5, 0x2F, 0xFD, 0]));
    assert!(!looks_compressed(b"PK\x03"));
    assert!(!looks_compressed(b"<xml/>"));
}

#[test]
fn storing_dedups_identical_content() {
    let mut r = repo();
    let (h1, obj) = r.store_stream("file:a.txt", b"hello world", None).unwrap();
    assert_eq!(h1, hash_bytes(b"hello world"));
    let (name, payload) = obj.expect("a first version writes an object");
    assert_eq!(name, format!("{h1}.full"));
    assert_eq!(rebuild(&vec![payload]).unwrap(), b"hello world");
    let (h2, obj2) = r.store_stream("file:a.txt", b"hello world", None).unwrap();
    assert_eq!(h2, h1);
    assert!(obj2.is_none(), "identical content is not stored twice");
    assert_eq!(r.chains.chain("file:a.txt").unwrap().len(), 1);
    assert!(r.chains.has_dirty());
    assert_eq!(r.chains.dirty, vec!["a.txt".to_string()]);
    r.chains.mark_flushed();
    assert!(!r.chains.has_dirty());
}

#[test]
fn large_edits_are_stored_as_verified_patches() {
    let mut r = repo();
    let v1: Vec<u8> = (0..100_000u32).map(|i| (i % 97) as u8 + b' ').collect();
    let mut v2 = v1.clone();
    v2[500] = b'!';
    v2[90_000] = b'?';
    let (h1, o1) = r.store_stream("kra:art.kra:manifest", &v1, None).unwrap();
    let (_, full) = o1.unwrap();
    let head = r.patch_head("kra:art.kra:manifest", &v2, 65536).expect("a patch is worth trying");
    assert_eq!(head.hash, h1);
    let base = rebuild(&vec![full.clone()]).unwrap();
    let (h2, o2) = r.store_stream("kra:art.kra:manifest", &v2, Some(base)).unwrap();
    let (name, patch) = o2.unwrap();
    assert_eq!(name, format!("{h2}.{h1}.patch"));
    let chain = r.chains.chain("kra:art.kra:manifest").unwrap();
    assert_eq!(chain.len(), 2);
    assert_eq!(chain[1].chain_len, 1);
    let path = r.restore_path("kra:art.kra:manifest", &h2).unwrap();
    assert_eq!(path.len(), 2);
    assert_eq!(path[0].hash, h2);
    assert_eq!(path[1].hash, h1);
    assert_eq!(rebuild(&vec![patch, full]).unwrap(), v2);
}

#[test]
fn small_or_headless_content_is_stored_full() {
    let mut r = repo();
    r.store_stream("file:a", b"one", None).unwrap();
    assert!(r.patch_head("file:a", b"two", 65536).is_none(), "below the patch floor");
    let p = r.prepare_stream("file:a", b"two", None).unwrap();
    match p {
        Prepared::New { version, .. } => {
            assert!(version.base.is_none());
            assert_eq!(version.chain_len, 0);
        }
        Prepared::Dedup(_) => panic!("new content"),
    }
    let p = r.prepare_stream_opts("file:a", b"one", StoreOpts { zstd_level: 3, patch_floor: 0 }, None).unwrap();
    assert!(matches!(p, Prepared::Dedup(_)));
    assert_eq!(p.hash(), hash_bytes(b"one"));
}

#[test]
fn restore_paths_report_what_is_missing() {
    let mut r = repo();
    assert!(matches!(r.restore_path("file:x", "h"), Err(KvcError::NotTracked(k)) if k == "file:x"));
    r.chains.push("file:x".into(), Version { hash: "b".into(), base: Some("a".into()), chain_len: 1 });
    match r.restore_path("file:x", "b") {
        Err(KvcError::MissingObject(m)) => assert_eq!(m, "file:x@a"),
        other => panic!("unexpected {other:?}"),
    }
    r.chains.push("file:x".into(), Version { hash: "a".into(), base: Some("b".into()), chain_len: 1 });
    assert!(matches!(r.restore_path("file:x", "b"), Err(KvcError::Corrupt(_))), "a loop is refused");
}

#[test]
fn legacy_monolith_marks_every_shard_dirty() {
    let legacy = Chains(vec![
        ("file:a".to_string(), vec![Version { hash: "1".into(), base: None, chain_len: 0 }]),
        ("kra:b.kra:manifest".to_string(), vec![Version { hash: "2".into(), base: None, chain_len: 0 }]),
        ("kra:b.kra:tile:l:0,0".to_string(), vec![Version { hash: "3".into(), base: None, chain_len: 0 }]),
    ]);
    let store = ChainStore::from_legacy(legacy);
    assert!(store.retire_monolith);
    assert_eq!(store.dirty, vec!["a".to_string(), "b.kra".to_string()]);
}

#[test]
fn tile_cache_rebuilds_each_hash_once() {
    let mut cache = TileCache::new();
    let mut calls = 0;
    let a = cache.get_or_reconstruct("h1", || {
        calls += 1;
        Ok(vec![1, 2, 3])
    });
    assert_eq!(a.unwrap(), vec![1, 2, 3]);
    let b = cache.get_or_reconstruct("h1", || Ok(vec![9]));
    assert_eq!(b.unwrap(), vec![1, 2, 3]);
    assert_eq!(calls, 1);
    assert!(cache.get_or_reconstruct("h2", || Err(KvcError::MissingObject("h2".into()))).is_err());
    assert!(cache.get_or_reconstruct("h2", || Ok(vec![4])).is_ok());
}

#[test]
fn pack_index_lookups() {
    let mut packs = Packs::new();
    assert!(packs.needs_load());
    assert!(!packs.contains("x"));
    packs.install(vec![("aa.full".to_string(), PackSlot { pack: "p1.pack".into(), offset: 9, len: 4 })]);
    assert!(packs.contains("aa.full"));
    assert_eq!(packs.slot("aa.full").unwrap().offset, 9);
    assert!(packs.slot("bb.full").is_none());
    packs.invalidate();
    assert!(packs.needs_load());
}

#[test]
fn only_krita_documents_are_tracked() {
    assert!(is_supported("art/Cat.KRA"));
    assert!(!is_supported("art/cat-autosave.kra"));
    assert!(!is_supported("art/cat.kra~"));
    assert!(!is_supported("notes.txt"));
}

#[test]
fn scan_classifies_against_the_index() {
    let mut r = repo();
    r.store_stream("file:x", b"x", None).unwrap();
    let mut idx = Index::default();
    idx.files.push((
        "a.kra".to_string(),
        krita_vcs::repo::TrackedFile { hash: hash_bytes(b"A"), is_kra: true, size: 1, mtime: 5 },
    ));
    idx.files.push((
        "b.kra".to_string(),
        krita_vcs::repo::TrackedFile { hash: hash_bytes(b"B"), is_kra: true, size: 1, mtime: 5 },
    ));
    r.index = idx;
    let tf = &r.index.files[0].1;
    assert!(!must_read(Some(tf), 1, 5, 10), "matching size and mtime older than the index");
    assert!(must_read(Some(tf), 1, 5, 5), "same tick as the index: re-hash");
    assert!(must_read(None, 1, 5, 10));
    let seen = vec![
        Seen { rel: "a.kra".into(), stat: Some((1, 5)), bytes: None },
        Seen { rel: "b.kra".into(), stat: None, bytes: None },
        Seen { rel: "c.kra".into(), stat: Some((3, 9)), bytes: Some(b"new".to_vec()) },
    ];
    let out = scan(&r, seen, 10).unwrap();
    assert_eq!(out, vec![("b.kra".to_string(), "D".to_string()), ("c.kra".to_string(), "U".to_string())]);
    let seen = vec![Seen { rel: "a.kra".into(), stat: Some((2, 6)), bytes: Some(b"A2".to_vec()) }];
    let d = scan_detailed(&r, seen, 10, true).unwrap();
    assert_eq!(d[0].status, "M");
    assert_eq!(d[0].hash, hash_bytes(b"A2"));
    assert_eq!(d[0].bytes.as_deref(), Some(&b"A2"[..]));
    let seen = vec![Seen { rel: "a.kra".into(), stat: Some((1, 5)), bytes: Some(b"A".to_vec()) }];
    assert!(scan(&r, seen, 5).unwrap().is_empty(), "re-hashed and unchanged");
    let bad = vec![Seen { rel: "../x.kra".into(), stat: None, bytes: None }];
    assert!(matches!(scan(&r, bad, 10), Err(KvcError::BadPath(_))));
    let unread = vec![Seen { rel: "z.kra".into(), stat: Some((1, 1)), bytes: None }];
    assert!(matches!(scan(&r, unread, 10), Err(KvcError::Io(_))));
}
