use krita_vcs::check::{marked_problems, problem, sort_problems, tip_problems, CheckReport};
use krita_vcs::chains::Version;
use krita_vcs::cpu::{lower_process_priority, pool_to_build, set_budget, threads_for, PoolSlot, DEFAULT_BUDGET};
use krita_vcs::diskspace::{check_available, evaluate, free_bytes};
use krita_vcs::error::{io_at, KvcError};
use krita_vcs::gc::worth_rewriting;
use krita_vcs::chains::ChainStore;
use krita_vcs::repo::{Config, Index, Repo};

#[test]
fn free_bytes_on_current_dir_is_plausible() {
    if let Some(bytes) = free_bytes(".") {
        assert!(bytes > 0);
    }
}

#[test]
fn refuses_when_available_is_below_double_the_need() {
    let err = evaluate(Some(100), 60).unwrap_err();
    assert!(matches!(
        err,
        KvcError::InsufficientDiskSpace {
            needed: 120,
            available: 100
        }
    ));
}

#[test]
fn passes_when_available_covers_double_the_need() {
    assert!(evaluate(Some(200), 60).is_ok());
}

#[test]
fn skips_the_check_when_free_space_is_unknown() {
    assert!(evaluate(None, u64::MAX).is_ok());
}

#[test]
fn doubling_saturates_instead_of_overflowing() {
    let err = evaluate(Some(5), u64::MAX).unwrap_err();
    assert!(matches!(
        err,
        KvcError::InsufficientDiskSpace {
            needed: u64::MAX,
            available: 5
        }
    ));
    assert!(evaluate(Some(120), 60).is_ok());
}

#[test]
fn rewrite_gate_over_quarter_dead() {
    assert!(!worth_rewriting(0, 100));
    assert!(!worth_rewriting(25, 100), "25% dead: keep the pack");
    assert!(worth_rewriting(26, 100), ">25% dead: rewrite");
}

#[test]
fn rewrite_gate_on_uneven_totals() {
    assert!(!worth_rewriting(25, 101));
    assert!(worth_rewriting(26, 101));
    assert!(worth_rewriting(1, 0));
    assert!(worth_rewriting(1, 3));
    assert!(!worth_rewriting(1, 4));
}

#[test]
fn budget_bounds_thread_count() {
    let cores = 8;
    assert_eq!(threads_for(cores, 0), 1, "never zero threads");
    assert!(threads_for(cores, 100) >= threads_for(cores, 50));
    assert!(threads_for(cores, 100) >= 1);
}

#[test]
fn thread_share_rounds_down() {
    assert_eq!(threads_for(8, 75), 6);
    assert_eq!(threads_for(3, 50), 1);
    assert_eq!(threads_for(16, 100), 16);
    assert_eq!(threads_for(1, 10), 1);
}

#[test]
fn set_budget_clamps_and_skips_identical_rebuilds() {
    let mut slot = PoolSlot::new();
    assert_eq!(pool_to_build(&mut slot), Some(DEFAULT_BUDGET));
    assert_eq!(pool_to_build(&mut slot), None);
    assert_eq!(set_budget(&mut slot, 5), Some(10));
    assert_eq!(set_budget(&mut slot, 3), None, "same clamped budget: no rebuild");
    assert_eq!(set_budget(&mut slot, 250), Some(100));
    assert_eq!(set_budget(&mut slot, 60), Some(60));
    assert_eq!(slot.percent, Some(60));
    lower_process_priority();
}

#[test]
fn io_errors_name_the_path_when_permission_is_refused() {
    match io_at("/r/.kvc/index.json", true, "denied".to_string()) {
        KvcError::PermissionDenied(p) => assert_eq!(p, "/r/.kvc/index.json"),
        other => panic!("unexpected {other:?}"),
    }
    match io_at("/r/x", false, "disk full".to_string()) {
        KvcError::Io(m) => assert_eq!(m, "disk full"),
        other => panic!("unexpected {other:?}"),
    }
}

#[test]
fn check_report_is_ok_only_without_problems() {
    let mut report = CheckReport {
        commits_checked: 3,
        objects_checked: 10,
        scrub_performed: false,
        versions_scrubbed: 0,
        problems: Vec::new(),
    };
    assert!(report.ok());
    report.problems.push(problem("missingObject", "abc.full".to_string()));
    assert!(!report.ok());
    assert_eq!(report.problems[0].kind, "missingObject");
}

#[test]
fn tip_problems_names_dangling_and_missing_branches() {
    let mut repo = common_repo();
    repo.branches.branches.push(("zeta".to_string(), "deadbeef".to_string()));
    repo.branches.current = "gone".to_string();
    let problems = tip_problems(&repo);
    assert_eq!(problems.len(), 2);
    assert_eq!(problems[0].kind, "danglingTip");
    assert_eq!(problems[0].detail, "branch 'zeta' points at unknown version deadbeef");
    assert_eq!(problems[1].detail, "current branch 'gone' does not exist");
    assert!(check_available(&repo, 1 << 40).is_ok());
}

fn common_repo() -> Repo {
    Repo::open(
        "/art".to_string(),
        Config::default(),
        Index::default(),
        ChainStore::empty(),
        Vec::new(),
        0,
        false,
        None,
        None,
    )
}

#[test]
fn marked_versions_report_broken_chains_and_missing_objects() {
    let mut store = ChainStore::empty();
    store.push("file:a.txt".to_string(), Version { hash: "h1".to_string(), base: None, chain_len: 0 });
    store.push("file:a.txt".to_string(), Version { hash: "h2".to_string(), base: Some("h1".to_string()), chain_len: 1 });
    let marked = vec![("file:a.txt".to_string(), vec!["h2".to_string(), "h1".to_string(), "h9".to_string()])];
    let (found, checked) = marked_problems(&store, &marked, &vec!["h1.full".to_string()]);
    assert_eq!(checked, 2);
    let rows: Vec<(String, String)> = found.into_iter().map(|p| (p.kind, p.detail)).collect();
    assert_eq!(
        rows,
        vec![
            ("missingObject".to_string(), "h2.h1.patch (needed by file:a.txt)".to_string()),
            ("brokenChain".to_string(), "no stored version for file:a.txt@h9".to_string()),
        ]
    );
    let sorted = sort_problems(vec![
        problem("missingObject", "b".to_string()),
        problem("brokenChain", "z".to_string()),
        problem("missingObject", "a".to_string()),
    ]);
    let order: Vec<(String, String)> = sorted.into_iter().map(|p| (p.kind, p.detail)).collect();
    assert_eq!(
        order,
        vec![
            ("brokenChain".to_string(), "z".to_string()),
            ("missingObject".to_string(), "a".to_string()),
            ("missingObject".to_string(), "b".to_string()),
        ]
    );
}
