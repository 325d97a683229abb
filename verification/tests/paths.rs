use git_server::error::Error;
use git_server::path::{join_path, normalize, resolve_repo_path, strip_prefix, file_name_of, paths_equal};

const ROOT: &[u8] = b"/srv/git";

#[test]
fn resolve_simple_path() {
    let resolved = resolve_repo_path(
        ROOT,
        "myrepo.git",
        Some(ROOT.to_vec()),
        Some(b"/srv/git/myrepo.git".to_vec()),
    )
    .unwrap();
    assert_eq!(resolved, b"/srv/git/myrepo.git".to_vec());
}

#[test]
fn resolve_nested_path() {
    let resolved = resolve_repo_path(
        ROOT,
        "org/project.git",
        Some(ROOT.to_vec()),
        Some(b"/srv/git/org/project.git".to_vec()),
    )
    .unwrap();
    assert_eq!(resolved, b"/srv/git/org/project.git".to_vec());
}

#[test]
fn reject_traversal() {
    let err = resolve_repo_path(ROOT, "../etc/passwd", Some(ROOT.to_vec()), None).unwrap_err();
    assert!(matches!(err, Error::PathTraversal(_)));
}

#[test]
fn reject_traversal_in_middle() {
    let err = resolve_repo_path(
        ROOT,
        "legit/../../etc/passwd",
        Some(ROOT.to_vec()),
        Some(b"/etc/passwd".to_vec()),
    )
    .unwrap_err();
    match err {
        Error::PathTraversal(p) => assert_eq!(p, "/srv/git/legit/../../etc/passwd"),
        _ => panic!("expected a traversal error"),
    }
}

#[test]
fn reject_nonexistent_path() {
    let err = resolve_repo_path(ROOT, "nonexistent.git", Some(ROOT.to_vec()), None).unwrap_err();
    assert!(matches!(err, Error::RepoNotFound(_)));
}

#[test]
fn reject_missing_root() {
    let err = resolve_repo_path(ROOT, "a.git", None, None).unwrap_err();
    match err {
        Error::RepoNotFound(r) => assert_eq!(r, "a.git"),
        _ => panic!("expected not found"),
    }
}

#[test]
fn reject_symlink_out_of_root() {
    // lexically fine, but the canonical path (a symbolic link) leaves the root
    let err = resolve_repo_path(
        ROOT,
        "link.git",
        Some(ROOT.to_vec()),
        Some(b"/elsewhere/repo.git".to_vec()),
    )
    .unwrap_err();
    assert!(matches!(err, Error::PathTraversal(_)));
}

#[test]
fn reject_absolute_relative_path() {
    let err = resolve_repo_path(ROOT, "/etc/passwd", Some(ROOT.to_vec()), None).unwrap_err();
    match err {
        Error::PathTraversal(p) => assert_eq!(p, "/etc/passwd"),
        _ => panic!("expected a traversal error"),
    }
}

#[test]
fn dot_dot_inside_root_is_accepted() {
    let resolved = resolve_repo_path(
        ROOT,
        "org/../a.git",
        Some(ROOT.to_vec()),
        Some(b"/srv/git/a.git".to_vec()),
    )
    .unwrap();
    assert_eq!(resolved, b"/srv/git/a.git".to_vec());
}

#[test]
fn join_adds_one_separator() {
    assert_eq!(join_path(b"/srv/git", b"a.git"), b"/srv/git/a.git".to_vec());
    assert_eq!(join_path(b"/srv/git/", b"a.git"), b"/srv/git/a.git".to_vec());
    assert_eq!(join_path(b"/srv/git", b"/abs"), b"/abs".to_vec());
    assert_eq!(join_path(b"", b"a"), b"a".to_vec());
}

#[test]
fn normalize_resolves_dots() {
    let parts = normalize(b"/a/./b/../c//d/");
    assert_eq!(parts, vec![b"a".to_vec(), b"c".to_vec(), b"d".to_vec()]);
    let parts = normalize(b"../../x");
    assert_eq!(parts, vec![b"x".to_vec()]);
}

#[test]
fn strip_prefix_and_file_name() {
    assert_eq!(strip_prefix(b"/srv/git/org/p.git", b"/srv/git"), "org/p.git");
    assert_eq!(strip_prefix(b"/srv/git", b"/srv/git"), "");
    assert_eq!(file_name_of(b"/srv/git/org/p.git"), Some("p.git".to_string()));
    assert_eq!(file_name_of(b"/"), None);
    assert_eq!(file_name_of(b"/a/.."), None);
    // names that are not UTF-8 are shown as `to_string_lossy` shows them
    assert_eq!(file_name_of(b"/srv/git/r\xffo.git"), Some("r\u{fffd}o.git".to_string()));
}

#[test]
fn path_equality_is_by_components() {
    assert!(paths_equal(b"/a//b/", b"/a/b"));
    assert!(!paths_equal(b"/a/b", b"a/b"));
    assert!(!paths_equal(b"/a/b", b"/a/c"));
    // bytes that are not UTF-8 are compared as they are
    assert!(!paths_equal(b"/a/\xff", b"/a/\xfe"));
}

#[test]
fn normalize_twice_changes_nothing() {
    let parts = normalize(b"/srv/./git/../repos/a.git/.");
    for part in &parts {
        assert!(!part.is_empty() && part != b"." && part != b"..");
    }
    let text: Vec<String> = parts.iter().map(|p| String::from_utf8(p.clone()).unwrap()).collect();
    let again = normalize(format!("/{}", text.join("/")).as_bytes());
    assert_eq!(again, parts);
    assert_eq!(parts, vec![b"srv".to_vec(), b"repos".to_vec(), b"a.git".to_vec()]);
}
