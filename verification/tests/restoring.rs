use krita_vcs::chains::ChainStore;
use krita_vcs::commit::{apply_changes, commit_snapshot, current_tree, tree_at_commit, StoredChange};
use krita_vcs::error::KvcError;
use krita_vcs::repo::{CommittedFile, Config, Index, Repo};
use krita_vcs::restore::{
    deletions, discard_plan, forget_absent, join_texts, pop, record_rollback, rewrites, rollback_is_discard, rollback_records,
    select_changes, sort_texts, Discard,
};
use krita_vcs::scan::ScanChange;
use krita_vcs::stash::create;

fn repo() -> Repo {
    Repo::open("/art".to_string(), Config::default(), Index::default(), ChainStore::empty(), Vec::new(), 0, false, None, None)
}

fn change(rel: &str, status: &str, content: &str) -> StoredChange {
    StoredChange {
        rel: rel.to_string(),
        status: status.to_string(),
        hash: format!("h-{content}"),
        size: content.len() as u64,
        mtime: 7,
        content: if status == "D" { None } else { Some(content.to_string()) },
        is_kra: false,
        partial: false,
    }
}

fn scanned(rel: &str, status: &str) -> ScanChange {
    ScanChange {
        rel: rel.to_string(),
        status: status.to_string(),
        hash: String::new(),
        size: 0,
        mtime: 0,
        bytes: None,
        partial: false,
    }
}

fn entry<'a>(t: &'a [(String, CommittedFile)], p: &str) -> Option<&'a CommittedFile> {
    t.iter().find(|(k, _)| k == p).map(|(_, f)| f)
}

fn strings(v: &[&str]) -> Vec<String> {
    v.iter().map(|s| s.to_string()).collect()
}

#[test]
fn selection_keeps_only_named_paths_in_order() {
    let all = vec![scanned("a.txt", "M"), scanned("b.txt", "U"), scanned("c.txt", "D")];
    let only = strings(&["c.txt", "a.txt", "zzz"]);
    let picked: Vec<String> = select_changes(all, Some(&only)).into_iter().map(|c| c.rel).collect();
    assert_eq!(picked, strings(&["a.txt", "c.txt"]));
    let every = select_changes(vec![scanned("a.txt", "M"), scanned("b.txt", "U")], None);
    assert_eq!(every.len(), 2);
}

#[test]
fn texts_sort_bytewise_and_join() {
    let sorted = sort_texts(&strings(&["b", "a/z", "B", "a", "b"]));
    assert_eq!(sorted, strings(&["B", "a", "a/z", "b", "b"]));
    assert_eq!(join_texts(&sorted, ", "), "B, a, a/z, b, b");
    assert_eq!(join_texts(&Vec::new(), ", "), "");
}

fn shelved(rel: &str) -> CommittedFile {
    CommittedFile {
        path: rel.to_string(),
        status: "M".to_string(),
        content: Some("S1".to_string()),
        is_kra: false,
        file_hash: Some("h".to_string()),
        original_size: 1,
    }
}

#[test]
fn popping_refuses_dirty_paths_and_unknown_ids() {
    let mut r = repo();
    commit_snapshot(&mut r, "base", "me", vec![change("a.txt", "U", "A1")]).unwrap();
    let s = create(&mut r, "wip", "me", vec![shelved("z.txt"), shelved("a.txt"), shelved("m.txt")]).unwrap();
    match pop(&mut r, &s.id, &strings(&["m.txt", "z.txt", "other"])) {
        Err(KvcError::StashConflict(m)) => assert_eq!(m, "m.txt, z.txt"),
        other => panic!("unexpected {other:?}"),
    }
    assert_eq!(r.stashes.stashes.len(), 1, "a refused pop keeps the stash");
    assert!(matches!(pop(&mut r, "nope", &Vec::new()), Err(KvcError::NoStash(id)) if id == "nope"));
    let back = pop(&mut r, &s.id, &strings(&["other"])).unwrap();
    assert_eq!(back.id, s.id);
    assert!(r.stashes.stashes.is_empty());
}

#[test]
fn rollback_rewrites_only_changed_files_and_restores_the_tree() {
    let mut r = repo();
    let first = commit_snapshot(&mut r, "one", "me", vec![change("a.txt", "U", "A1"), change("b.txt", "U", "B1")]).unwrap();
    commit_snapshot(
        &mut r,
        "two",
        "me",
        vec![change("a.txt", "M", "A2"), change("b.txt", "D", ""), change("c.txt", "U", "C1")],
    )
    .unwrap();
    let target = tree_at_commit(&r.commits, &first.id).unwrap();
    let current = current_tree(&r);

    let w: Vec<String> = rewrites(&current, &target).into_iter().map(|(p, _)| p).collect();
    assert_eq!(w, strings(&["a.txt", "b.txt"]));
    let d: Vec<String> = deletions(&current, &target).into_iter().map(|(p, _)| p).collect();
    assert_eq!(d, strings(&["c.txt"]));

    let files = rollback_records(&current, &target, &strings(&["ha", "hb"]));
    let shape: Vec<(&str, &str, Option<&str>)> =
        files.iter().map(|f| (f.path.as_str(), f.status.as_str(), f.content.as_deref())).collect();
    assert_eq!(shape, vec![("a.txt", "M", Some("A1")), ("b.txt", "A", Some("B1")), ("c.txt", "D", None)]);
    assert_eq!(files[0].file_hash.as_deref(), Some("ha"));

    let mut tree = current.clone();
    apply_changes(&mut tree, &files);
    for (p, f) in &target {
        assert_eq!(entry(&tree, p).and_then(|e| e.content.clone()), f.content.clone());
    }
    assert!(entry(&tree, "c.txt").is_none());

    let commit = record_rollback(&mut r, &first.id, "me", files).unwrap();
    assert_eq!(commit.message, "Restored to Version 1");
    assert_eq!(commit.restored_from.as_deref(), Some(first.id.as_str()));
    assert_eq!(r.branches.tip(), Some(commit.id.as_str()));
    assert!(matches!(record_rollback(&mut r, &first.id, "me", Vec::new()), Err(KvcError::Nothing)));
}

#[test]
fn forgetting_drops_index_paths_the_target_lacks() {
    let mut r = repo();
    let first = commit_snapshot(&mut r, "one", "me", vec![change("a.txt", "U", "A1")]).unwrap();
    commit_snapshot(&mut r, "two", "me", vec![change("b.txt", "U", "B1"), change("c.txt", "U", "C1")]).unwrap();
    let target = tree_at_commit(&r.commits, &first.id).unwrap();
    let gone = forget_absent(&mut r.index, &target);
    assert_eq!(gone, strings(&["b.txt", "c.txt"]));
    let left: Vec<&str> = r.index.files.iter().map(|(p, _)| p.as_str()).collect();
    assert_eq!(left, vec!["a.txt"]);
}

#[test]
fn discarding_removes_untracked_and_rewrites_the_rest() {
    let mut r = repo();
    let first = commit_snapshot(&mut r, "one", "me", vec![change("a.txt", "U", "A1")]).unwrap();
    let target = tree_at_commit(&r.commits, &first.id).unwrap();
    let steps = discard_plan(&target, &vec![scanned("new.txt", "U"), scanned("a.txt", "M")]).unwrap();
    assert!(matches!(&steps[0], Discard::Remove(p) if p == "new.txt"));
    assert!(matches!(&steps[1], Discard::Rewrite(p, f) if p == "a.txt" && f.content.as_deref() == Some("A1")));
    assert!(matches!(discard_plan(&target, &Vec::new()), Err(KvcError::Nothing)));
    assert!(matches!(
        discard_plan(&target, &vec![scanned("ghost.txt", "D"), scanned("other.txt", "M")]),
        Err(KvcError::NotTracked(p)) if p == "ghost.txt"
    ));
}

#[test]
fn a_rollback_to_the_tip_is_only_a_discard() {
    let mut r = repo();
    assert!(!rollback_is_discard(&r.branches, "x"));
    let first = commit_snapshot(&mut r, "one", "me", vec![change("a.txt", "U", "A1")]).unwrap();
    assert!(rollback_is_discard(&r.branches, &first.id));
    let second = commit_snapshot(&mut r, "two", "me", vec![change("a.txt", "M", "A2")]).unwrap();
    assert!(!rollback_is_discard(&r.branches, &first.id));
    assert!(rollback_is_discard(&r.branches, &second.id));
}
