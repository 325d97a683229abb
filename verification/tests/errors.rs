use git_server::error::Error;

#[test]
fn error_display_repo_not_found() {
    let err = Error::RepoNotFound("foo/bar.git".into());
    assert_eq!(err.to_string(), "repository not found: foo/bar.git");
}

#[test]
fn error_display_path_traversal() {
    let err = Error::PathTraversal("../etc/passwd".into());
    assert_eq!(err.to_string(), "path traversal rejected: ../etc/passwd");
}

#[test]
fn error_display_other_variants() {
    assert_eq!(
        Error::InvalidRepo("/srv/x.git".into(), "not bare".into()).to_string(),
        "invalid repository at /srv/x.git: not bare"
    );
    assert_eq!(Error::Protocol("bad".into()).to_string(), "protocol error: bad");
    assert_eq!(Error::Git("boom".into()).to_string(), "git operation failed: boom");
    assert_eq!(Error::Io("denied".into()).to_string(), "io error: denied");
}
