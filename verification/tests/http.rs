use git_server::discovery::{repo_info_for, RepoStore};
use git_server::error::Error;
use git_server::http::{check_content_type, check_service, not_found_path, strip_path_suffix, AppError};

#[test]
fn not_found_returns_404_json() {
    let err = AppError::NotFound("repo not found".to_string());
    let (status, code, message) = err.response_parts();
    assert_eq!(status, 404);
    assert_eq!(code, "not_found");
    assert_eq!(message, "repo not found");
}

#[test]
fn bad_request_returns_400_json() {
    let err = AppError::BadRequest("invalid service".to_string());
    let (status, code, message) = err.response_parts();
    assert_eq!(status, 400);
    assert_eq!(code, "bad_request");
    assert_eq!(message, "invalid service");
}

#[test]
fn internal_error_returns_500_json() {
    let err = AppError::Internal("something went wrong".to_string());
    let (status, code, message) = err.response_parts();
    assert_eq!(status, 500);
    assert_eq!(code, "internal_error");
    assert_eq!(message, "something went wrong");
}

#[test]
fn core_errors_map_to_status() {
    let (s, _, m) = AppError::from(Error::RepoNotFound("x.git".into())).response_parts();
    assert_eq!((s, m.as_str()), (404, "repository not found: x.git"));
    let (s, _, _) = AppError::from(Error::PathTraversal("../x".into())).response_parts();
    assert_eq!(s, 400);
    let (s, _, m) = AppError::from(Error::Protocol("bad".into())).response_parts();
    assert_eq!((s, m.as_str()), (400, "protocol error: bad"));
    let (s, _, _) = AppError::from(Error::Io("disk".into())).response_parts();
    assert_eq!(s, 500);
}

#[test]
fn info_refs_rejects_receive_pack() {
    let err = check_service("git-receive-pack").unwrap_err();
    let (status, code, message) = err.response_parts();
    assert_eq!(status, 400);
    assert_eq!(code, "bad_request");
    assert_eq!(message, "unsupported service: git-receive-pack");
    assert!(check_service("git-upload-pack").is_ok());
}

#[test]
fn upload_pack_rejects_wrong_content_type() {
    let err = check_content_type("application/octet-stream").unwrap_err();
    let (status, code, message) = err.response_parts();
    assert_eq!(status, 400);
    assert_eq!(code, "bad_request");
    assert_eq!(
        message,
        "invalid content type: expected application/x-git-upload-pack-request, got application/octet-stream"
    );
    assert!(check_content_type("application/x-git-upload-pack-request").is_ok());
}

#[test]
fn strip_suffix_of_paths() {
    assert_eq!(strip_path_suffix("test.git/info/refs", "/info/refs"), Some("test.git"));
    assert_eq!(strip_path_suffix("org/p.git//info/refs", "/info/refs"), Some("org/p.git"));
    assert_eq!(strip_path_suffix("test.git/git-upload-pack", "/info/refs"), None);
    assert_eq!(strip_path_suffix("/info/refs", "/info/refs"), Some(""));
}

#[test]
fn unknown_path_is_not_found() {
    let (status, _, message) = not_found_path("x/y").response_parts();
    assert_eq!(status, 404);
    assert_eq!(message, "not found: /x/y");
}

#[test]
fn handlers_nonexistent_repo_returns_404() {
    let store = RepoStore::discover(
        b"/srv/git".to_vec(),
        vec![repo_info_for(b"/srv/git", b"/srv/git/test.git".to_vec(), None)],
    );
    let err = store.resolve("nope.git", Some(b"/srv/git".to_vec()), None).unwrap_err();
    let (status, code, _) = AppError::from(err).response_parts();
    assert_eq!(status, 404);
    assert_eq!(code, "not_found");
}

#[test]
fn list_repos_returns_json() {
    let store = RepoStore::discover(
        b"/srv/git".to_vec(),
        vec![repo_info_for(b"/srv/git", b"/srv/git/test.git".to_vec(), None)],
    );
    let list = store.list();
    assert_eq!(list.len(), 1);
    assert_eq!(list[0].name, "test.git");
}

#[test]
fn list_repos_endpoint() {
    let store = RepoStore::discover(
        b"/srv/git".to_vec(),
        vec![
            repo_info_for(b"/srv/git", b"/srv/git/beta.git".to_vec(), None),
            repo_info_for(b"/srv/git", b"/srv/git/alpha.git".to_vec(), None),
        ],
    );
    let list = store.list();
    assert_eq!(list.len(), 2);
    assert_eq!(list[0].name, "alpha.git");
    assert_eq!(list[1].name, "beta.git");
}

#[test]
fn integration_nonexistent_repo_returns_404() {
    let store = RepoStore::discover(
        b"/srv/git".to_vec(),
        vec![repo_info_for(b"/srv/git", b"/srv/git/real.git".to_vec(), None)],
    );
    let err = store.resolve("nope.git", Some(b"/srv/git".to_vec()), None).unwrap_err();
    let (status, code, _) = AppError::from(err).response_parts();
    assert_eq!(status, 404);
    assert_eq!(code, "not_found");
}

#[test]
fn path_traversal_returns_400() {
    let store = RepoStore::discover(
        b"/srv/git".to_vec(),
        vec![repo_info_for(b"/srv/git", b"/srv/git/test.git".to_vec(), None)],
    );
    let path = "../../etc/passwd/info/refs";
    let repo_path = strip_path_suffix(path, "/info/refs").unwrap();
    let err = store.resolve(repo_path, Some(b"/srv/git".to_vec()), None).unwrap_err();
    let (status, code, message) = AppError::from(err).response_parts();
    assert!(status == 400 || status == 404, "expected 400 or 404, got {status}");
    assert_eq!(status, 400);
    assert_eq!(code, "bad_request");
    assert_eq!(message, "path traversal rejected: /srv/git/../../etc/passwd");
}
