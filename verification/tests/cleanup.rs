use krita_vcs::chains::{ChainStore, Version};
use krita_vcs::cli::{parse_flags, require};
use krita_vcs::commit::{commit_snapshot, StoredChange};
use krita_vcs::gc::{drop_unreachable, live_roots, mark_live, reachable_commits, record_root, sweep_plan, unreachable_count, victims};
use krita_vcs::repo::{Config, Index, Repo};

fn repo() -> Repo {
    Repo::open("/art".to_string(), Config::default(), Index::default(), ChainStore::empty(), Vec::new(), 0, false, None, None)
}

fn change(rel: &str, content: &str) -> StoredChange {
    StoredChange {
        rel: rel.to_string(),
        status: "A".to_string(),
        hash: format!("h-{content}"),
        size: content.len() as u64,
        mtime: 7,
        content: Some(content.to_string()),
        is_kra: rel.ends_with(".kra"),
        partial: false,
    }
}

fn version(hash: &str, base: Option<&str>, chain_len: usize) -> Version {
    Version { hash: hash.to_string(), base: base.map(|b| b.to_string()), chain_len }
}

#[test]
fn unreachable_commits_are_found_and_dropped() {
    let mut r = repo();
    let a = commit_snapshot(&mut r, "first", "me", vec![change("a.txt", "s1")]).unwrap();
    let b = commit_snapshot(&mut r, "second", "me", vec![change("b.txt", "s2")]).unwrap();
    let mut orphan = a.clone();
    orphan.id = "orphan".to_string();
    orphan.parents = Vec::new();
    r.commits.push(orphan);

    let reach = reachable_commits(&r);
    assert!(reach.contains(&a.id));
    assert!(reach.contains(&b.id));
    assert!(!reach.contains(&"orphan".to_string()));

    let dropped = drop_unreachable(&mut r, &reach);
    assert_eq!(dropped, 1);
    let ids: Vec<&str> = r.commits.iter().map(|c| c.id.as_str()).collect();
    assert_eq!(ids, vec![a.id.as_str(), b.id.as_str()]);
    assert!(r.commits_rewrite);
}

#[test]
fn live_roots_name_the_streams_of_reachable_records() {
    let mut r = repo();
    commit_snapshot(&mut r, "first", "me", vec![change("a.txt", "s1"), change("pic.kra", "m1")]).unwrap();
    let reach = reachable_commits(&r);
    let roots = live_roots(&r, &reach);
    assert!(roots.contains(&("file:a.txt".to_string(), "s1".to_string(), "a.txt".to_string(), false)));
    assert!(roots.contains(&("kra:pic.kra:manifest".to_string(), "m1".to_string(), "pic.kra".to_string(), true)));
    assert!(live_roots(&r, &Vec::new()).is_empty());
}

#[test]
fn record_roots_follow_the_stream_naming() {
    assert_eq!(record_root("dir/a.txt", false), "file:dir/a.txt");
    assert_eq!(record_root("pic.kra", true), "kra:pic.kra:manifest");
}

#[test]
fn marking_closes_over_patch_bases_and_the_sweep_keeps_them() {
    let mut store = ChainStore::empty();
    store.push("file:a.txt".to_string(), version("h1", None, 0));
    store.push("file:a.txt".to_string(), version("h2", Some("h1"), 1));
    store.push("file:a.txt".to_string(), version("h3", None, 0));
    store.push("file:b.txt".to_string(), version("g1", None, 0));

    let marked = mark_live(&store, &vec![("file:a.txt".to_string(), "h2".to_string())]);
    let plan = sweep_plan(&store, &marked);
    assert_eq!(plan.versions_removed, 2);
    assert_eq!(plan.chains.0.len(), 1);
    assert_eq!(plan.chains.0[0].0, "file:a.txt");
    let hashes: Vec<&str> = plan.chains.0[0].1.iter().map(|v| v.hash.as_str()).collect();
    assert_eq!(hashes, vec!["h1", "h2"]);
    assert_eq!(plan.live_objects, vec!["h1.full".to_string(), "h2.h1.patch".to_string()]);
}

#[test]
fn sweeping_with_no_marks_empties_the_store() {
    let mut store = ChainStore::empty();
    store.push("file:a.txt".to_string(), version("h1", None, 0));
    let plan = sweep_plan(&store, &Vec::new());
    assert_eq!(plan.versions_removed, 1);
    assert!(plan.chains.0.is_empty());
    assert!(plan.live_objects.is_empty());
}

#[test]
fn flags_pair_names_with_values_and_later_ones_win() {
    let args: Vec<String> = ["--repo", "/x", "loose", "--msg", "a", "--msg", "b", "--dangling"]
        .iter()
        .map(|s| s.to_string())
        .collect();
    let flags = parse_flags(&args);
    assert_eq!(require(&flags, "repo"), Ok("/x".to_string()));
    assert_eq!(require(&flags, "msg"), Ok("b".to_string()));
    assert_eq!(require(&flags, "dangling"), Err("missing required --dangling".to_string()));
    assert_eq!(require(&flags, "author"), Err("missing required --author".to_string()));
}

#[test]
fn cleanup_moves_out_only_the_objects_no_live_version_needs() {
    let files = vec!["a.full".to_string(), "b.full".to_string(), "c.patch".to_string()];
    let live = vec!["b.full".to_string()];
    assert_eq!(victims(&files, &live), vec![0, 2]);
    assert!(victims(&files, &files).is_empty());
    let r = repo();
    assert_eq!(unreachable_count(&r, &vec![]), 0);
}
