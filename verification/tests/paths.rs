use krita_vcs::error::KvcError;
use krita_vcs::paths::{cache_dir, chains_dir, kvc_dir, objects_dir, safe_join, safe_join_on};
use std::path::{Path, PathBuf};

#[test]
fn safe_join_allows_normal_relative_paths() {
    let root = Path::new("/repo");
    assert_eq!(PathBuf::from(safe_join("/repo", "art.kra").unwrap()), root.join("art.kra"));
    assert_eq!(
        PathBuf::from(safe_join("/repo", "sub/dir/art.kra").unwrap()),
        root.join("sub").join("dir").join("art.kra")
    );
}

#[test]
fn safe_join_rejects_escapes() {
    for bad in ["", "..", "../evil", "a/../../evil", "/etc/passwd", "/abs/path"] {
        assert!(
            matches!(safe_join("/repo", bad), Err(KvcError::BadPath(_))),
            "expected {bad:?} to be rejected"
        );
    }
}

#[test]
fn safe_join_rejects_windows_drive_and_unc() {
    // Drive letters, UNC prefixes and backslash separators only mean something on Windows;
    // elsewhere these are ordinary file names.
    if std::path::MAIN_SEPARATOR != '\\' {
        return;
    }
    for bad in [r"C:\Windows\System32\evil", r"\\server\share\evil", r"..\..\evil"] {
        assert!(
            matches!(safe_join(r"C:\repo", bad), Err(KvcError::BadPath(_))),
            "expected {bad:?} to be rejected"
        );
    }
}

#[test]
fn safe_join_drops_empty_and_dot_pieces() {
    assert_eq!(safe_join("/repo", "a//b/./c/").unwrap(), "/repo/a/b/c");
    assert_eq!(safe_join("/repo/", "x").unwrap(), "/repo/x");
    assert_eq!(safe_join("", "x/y").unwrap(), "x/y");
    match safe_join("/repo", "./a") {
        Err(KvcError::BadPath(m)) => assert_eq!(m, "./a"),
        other => panic!("unexpected {other:?}"),
    }
    assert!(safe_join("/repo", "a/..").is_err());
    assert!(safe_join("/repo", "a/..b").is_ok());
}

#[test]
fn state_directories_sit_under_kvc() {
    assert_eq!(kvc_dir("/art"), "/art/.kvc");
    assert_eq!(objects_dir("/art"), "/art/.kvc/objects");
    assert_eq!(cache_dir("/art/"), "/art/.kvc/cache");
    assert_eq!(chains_dir("art"), "art/.kvc/chains");
}

#[test]
fn backslash_and_colon_are_refused_only_under_windows_rules() {
    for bad in [r"C:\Windows\evil", r"\\server\share\evil", r"..\..\evil", "a:b"] {
        assert!(matches!(safe_join_on("/repo", bad, true), Err(KvcError::BadPath(_))), "{bad:?}");
    }
    assert_eq!(safe_join_on("/repo", "a:b", false).unwrap(), "/repo/a:b");
    assert_eq!(safe_join_on("/repo", r"a\b", false).unwrap(), r"/repo/a\b");
    if std::path::MAIN_SEPARATOR == '/' {
        assert_eq!(safe_join("/repo", "a:b").unwrap(), "/repo/a:b");
    }
}
