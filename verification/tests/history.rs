use krita_vcs::branch::{create_branch, delete_branch, merge_branch, switch_branch, validate_name};
use krita_vcs::chains::ChainStore;
use krita_vcs::commit::{
    ancestors, commit_snapshot, current_tree, file_at_commit, tree_at_commit, undo_last_commit, version_label,
    StoredChange,
};
use krita_vcs::error::KvcError;
use krita_vcs::repo::{epoch_to_iso, Config, Index, LogWrite, Repo};
use krita_vcs::stash::{create, drop_all, drop_one, list};

fn repo() -> Repo {
    Repo::open("/art".to_string(), Config::default(), Index::default(), ChainStore::empty(), Vec::new(), 0, false, None, None)
}

fn change(rel: &str, status: &str, content: &str) -> StoredChange {
    StoredChange {
        rel: rel.to_string(),
        status: status.to_string(),
        hash: format!("h-{content}"),
        size: content.len() as u64,
        mtime: 7,
        content: if status == "D" { None } else { Some(content.to_string()) },
        is_kra: rel.ends_with(".kra"),
        partial: false,
    }
}

#[test]
fn nothing_to_commit_is_refused() {
    let mut r = repo();
    assert!(matches!(commit_snapshot(&mut r, "m", "me", Vec::new()), Err(KvcError::Nothing)));
    assert!(r.commits.is_empty());
}

#[test]
fn commits_chain_on_the_current_tip_and_fold_into_trees() {
    let mut r = repo();
    let c1 = commit_snapshot(&mut r, "first", "me", vec![change("a.kra", "U", "A1"), change("b.txt", "U", "B1")]).unwrap();
    assert!(c1.parents.is_empty());
    assert_eq!(c1.files[0].status, "A");
    assert_eq!(c1.id.len(), 12);
    assert_eq!(r.branches.tip(), Some(c1.id.as_str()));
    let c2 = commit_snapshot(&mut r, "second", "me", vec![change("a.kra", "M", "A2"), change("b.txt", "D", "")]).unwrap();
    assert_eq!(c2.parents, vec![c1.id.clone()]);
    assert_eq!(c2.files[1].status, "D");
    assert!(c2.files[1].content.is_none());

    let t1 = tree_at_commit(&r.commits, &c1.id).unwrap();
    assert_eq!(t1.len(), 2);
    let t2 = tree_at_commit(&r.commits, &c2.id).unwrap();
    assert_eq!(t2.len(), 1);
    assert_eq!(t2[0].0, "a.kra");
    assert_eq!(t2[0].1.content.as_deref(), Some("A2"));
    assert_eq!(current_tree(&r).len(), 1);
    assert!(tree_at_commit(&r.commits, "nope").is_none());

    assert_eq!(r.index.files.len(), 1, "the deletion left the index");
    assert_eq!(r.index.files[0].1.hash, "h-A2");

    assert_eq!(file_at_commit(&r, "a.kra", &c1.id).unwrap(), (true, "A1".to_string()));
    assert!(matches!(file_at_commit(&r, "b.txt", &c2.id), Err(KvcError::NotTracked(m)) if m == "b.txt (deleted in this commit)"));
    assert!(matches!(file_at_commit(&r, "c.txt", &c2.id), Err(KvcError::NotTracked(m)) if m == "c.txt"));
    assert!(matches!(file_at_commit(&r, "a.kra", "zzz"), Err(KvcError::NoCommit(_))));

    let anc = ancestors(&r.commits, &c2.id);
    assert!(anc.contains(&c1.id) && anc.contains(&c2.id));
    assert_eq!(version_label(&r, &c2.id), "Version 2");
    assert_eq!(version_label(&r, &c1.id), "Version 1");
}

#[test]
fn partial_commits_record_zero_size_and_mtime() {
    let mut r = repo();
    let mut c = change("a.kra", "U", "A1");
    c.partial = true;
    commit_snapshot(&mut r, "m", "me", vec![c]).unwrap();
    assert_eq!((r.index.files[0].1.size, r.index.files[0].1.mtime), (0, 0));
}

#[test]
fn undo_pops_the_tip_and_restores_the_index() {
    let mut r = repo();
    let c1 = commit_snapshot(&mut r, "first", "me", vec![change("a.kra", "U", "A1")]).unwrap();
    commit_snapshot(&mut r, "second", "me", vec![change("a.kra", "M", "A2"), change("n.txt", "U", "N")]).unwrap();
    let undone = undo_last_commit(&mut r).unwrap();
    assert_eq!(undone.head.unwrap().id, c1.id);
    assert_eq!(r.commits.len(), 1);
    assert_eq!(r.branches.tip(), Some(c1.id.as_str()));
    assert!(r.commits_rewrite, "a truncated log is rewritten on save");
    assert_eq!(r.index.files.len(), 1);
    assert_eq!(r.index.files[0].0, "a.kra");
    let plan = r.save();
    assert_eq!(plan.log, LogWrite::Rewrite);
}

#[test]
fn branches_switch_merge_and_delete() {
    let mut r = repo();
    let base = commit_snapshot(&mut r, "base", "me", vec![change("a.kra", "U", "A1"), change("b.txt", "U", "B1")]).unwrap();
    create_branch(&mut r, "feature").unwrap();
    assert!(matches!(create_branch(&mut r, "feature"), Err(KvcError::BranchExists(_))));
    assert!(matches!(create_branch(&mut r, "bad/name"), Err(KvcError::BadBranchName(_))));
    assert!(validate_name(" ok ").is_ok());

    assert_eq!(r.branches.current, "feature", "a new branch becomes current");
    assert!(switch_branch(&mut r, "feature", true).unwrap().is_none());
    assert!(matches!(switch_branch(&mut r, "main", false), Err(KvcError::DirtyTree)));
    let f = commit_snapshot(&mut r, "feat", "me", vec![change("b.txt", "M", "B2")]).unwrap();
    assert_eq!(f.parents, vec![base.id.clone()]);
    assert_eq!(f.branch, "feature");

    let sw = switch_branch(&mut r, "main", true).unwrap().unwrap();
    assert_eq!(sw.current.len(), 2);
    let m = commit_snapshot(&mut r, "main work", "me", vec![change("c.txt", "U", "C1")]).unwrap();
    let merged = merge_branch(&mut r, "feature", "me", true).unwrap();
    assert_eq!(merged.commit.parents, vec![m.id.clone(), f.id.clone()]);
    assert_eq!(merged.commit.message, "Merge feature into main");
    let tree = tree_at_commit(&r.commits, &merged.commit.id).unwrap();
    let b = tree.iter().find(|(p, _)| p == "b.txt").unwrap();
    assert_eq!(b.1.content.as_deref(), Some("B2"), "the other side's edit arrives");
    assert!(tree.iter().any(|(p, _)| p == "c.txt"), "our own edit stays");
    assert!(matches!(merge_branch(&mut r, "main", "me", true), Err(KvcError::NothingToMerge(_))));

    assert!(matches!(delete_branch(&mut r, "main"), Err(KvcError::DeleteCurrent) | Err(KvcError::DeleteMain)));
    delete_branch(&mut r, "feature").unwrap();
    assert!(matches!(switch_branch(&mut r, "feature", true), Err(KvcError::NoBranch(_))));
}

#[test]
fn stashes_shelve_and_drop() {
    let mut r = repo();
    let c = change("a.kra", "U", "A1");
    commit_snapshot(&mut r, "base", "me", vec![c]).unwrap();
    let files = vec![krita_vcs::repo::CommittedFile {
        path: "a.kra".to_string(),
        status: "M".to_string(),
        content: Some("S1".to_string()),
        is_kra: true,
        file_hash: Some("h".to_string()),
        original_size: 1,
    }];
    let s = create(&mut r, "wip", "me", files).unwrap();
    assert_eq!(list(&r).len(), 1);
    assert!(drop_one(&mut r, "nope").is_err());
    drop_one(&mut r, &s.id).unwrap();
    assert!(list(&r).is_empty());
    assert_eq!(drop_all(&mut r), 0);
}

#[test]
fn saves_append_only_new_commits() {
    let mut r = repo();
    commit_snapshot(&mut r, "one", "me", vec![change("a.kra", "U", "A1")]).unwrap();
    assert_eq!(r.save().log, LogWrite::Append { from: 0 });
    assert_eq!(r.save().log, LogWrite::Unchanged);
    commit_snapshot(&mut r, "two", "me", vec![change("a.kra", "M", "A2")]).unwrap();
    assert_eq!(r.save().log, LogWrite::Append { from: 1 });
}

#[test]
fn iso_timestamps_of_known_instants() {
    assert_eq!(epoch_to_iso(0), "1970-01-01T00:00:00Z");
    assert_eq!(epoch_to_iso(951782400), "2000-02-29T00:00:00Z");
    assert_eq!(epoch_to_iso(1700000000), "2023-11-14T22:13:20Z");
    assert_eq!(epoch_to_iso(-1), "1969-12-31T23:59:59Z");
    assert_eq!(epoch_to_iso(253402300799), "9999-12-31T23:59:59Z");
}
