use krita_vcs::chains::{ChainStore, Version};
use krita_vcs::commit::{commit_snapshot, StoredChange};
use krita_vcs::error::{format_age, lock_holder_description};
use krita_vcs::kra::{KraEntry, KraManifest};
use krita_vcs::repo::{Config, Index, Repo};
use krita_vcs::stats::{compute_storage_stats, object_of, stored_bytes_by_commit};

fn change(rel: &str, status: &str, content: &str, size: u64) -> StoredChange {
    StoredChange {
        rel: rel.to_string(),
        status: status.to_string(),
        hash: format!("h-{content}"),
        size,
        mtime: 7,
        content: if status == "D" { None } else { Some(content.to_string()) },
        is_kra: rel.ends_with(".kra"),
        partial: false,
    }
}

fn version(hash: &str, base: Option<&str>) -> Version {
    Version { hash: hash.to_string(), base: base.map(|b| b.to_string()), chain_len: if base.is_some() { 1 } else { 0 } }
}

fn repo() -> Repo {
    let mut store = ChainStore::empty();
    store.push("file:a.txt".to_string(), version("A1", None));
    store.push("file:a.txt".to_string(), version("A2", Some("A1")));
    store.push("file:b.txt".to_string(), version("B1", None));
    store.push("kra:p.kra:manifest".to_string(), version("M1", None));
    store.push("kra:p.kra:entry:maindoc.xml".to_string(), version("D1", None));
    Repo::open("/art".to_string(), Config::default(), Index::default(), store, Vec::new(), 0, false, None, None)
}

#[test]
fn ages_are_coarse() {
    assert_eq!(format_age(59), "59s");
    assert_eq!(format_age(60), "1m");
    assert_eq!(format_age(3599), "59m");
    assert_eq!(format_age(7300), "2h");
}

#[test]
fn lock_holders_are_described() {
    assert_eq!(lock_holder_description("art", Some("committing"), Some(90)), "art \u{2014} committing for 1m");
    assert_eq!(lock_holder_description("art", Some(""), None), "art \u{2014} writing");
    assert_eq!(lock_holder_description("art", None, Some(5)), "art \u{2014} writing for 5s");
}

#[test]
fn objects_resolve_through_chains() {
    let r = repo();
    assert_eq!(object_of(&r.chains, "file:a.txt", "A2").as_deref(), Some("A2.A1.patch"));
    assert_eq!(object_of(&r.chains, "file:a.txt", "A1").as_deref(), Some("A1.full"));
    assert_eq!(object_of(&r.chains, "file:a.txt", "ZZ"), None);
    assert_eq!(object_of(&r.chains, "file:zzz", "A1"), None);
}

#[test]
fn storage_is_attributed_to_the_first_version_that_references_it() {
    let mut r = repo();
    let one = commit_snapshot(&mut r, "one", "me", vec![change("a.txt", "U", "A1", 100), change("p.kra", "U", "M1", 500)]).unwrap();
    let two = commit_snapshot(&mut r, "two", "me", vec![change("a.txt", "M", "A2", 110), change("b.txt", "U", "B1", 7)]).unwrap();
    let sizes: Vec<(String, u64)> = [("A1.full", 40u64), ("A2.A1.patch", 3), ("B1.full", 5), ("M1.full", 9), ("D1.full", 11)]
        .iter()
        .map(|(n, s)| (n.to_string(), *s))
        .collect();
    let manifests = vec![(
        ("p.kra".to_string(), "M1".to_string()),
        KraManifest {
            entries: vec![KraEntry::Raw {
                path: "maindoc.xml".to_string(),
                blob: "D1".to_string(),
                stored: false,
                crc32: 0,
                size: 0,
            }],
        },
    )];
    let stored = stored_bytes_by_commit(&r, &sizes, &manifests);
    assert_eq!(stored, vec![(one.id.clone(), 40 + 9 + 11), (two.id.clone(), 3 + 5)]);
    let without = stored_bytes_by_commit(&r, &sizes, &Vec::new());
    assert_eq!(without[0].1, 40 + 9);

    let st = compute_storage_stats(&r, &sizes, &manifests, 50);
    assert_eq!(st.per_version.len(), 2);
    assert_eq!(st.per_version[0].version, 1);
    assert_eq!(st.per_version[0].file_count, 2);
    assert_eq!(st.per_version[0].original_bytes, 600);
    assert_eq!(st.per_version[1].file_count, 3);
    assert_eq!(st.per_version[1].original_bytes, 110 + 500 + 7);
    assert_eq!(st.per_version[1].stored_bytes, 8);
    assert_eq!(st.naive_bytes, 600 + 617);
    assert_eq!(st.saved_bytes, 600 + 617 - 50);
    assert_eq!(compute_storage_stats(&r, &sizes, &manifests, 5000).saved_bytes, 0);
}
