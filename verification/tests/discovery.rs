use git_server::discovery::{
    read_description, repo_info_for, walk_action, EntryProbe, RepoInfo, RepoStore, WalkAction,
};
use git_server::error::Error;

const ROOT: &str = "/srv/git";
const ROOT_BYTES: &[u8] = b"/srv/git";

fn info(abs: &str) -> RepoInfo {
    repo_info_for(ROOT_BYTES, abs.as_bytes().to_vec(), None)
}

/// A directory tree held in memory: what the walk would find on disk.
enum Node {
    Dir(Vec<(&'static str, Node)>),
    Bare,
    File,
}

/// Walks `children` (the entries of the directory `dir`, read at `depth`)
/// as the server's discovery does, using the library's decisions.
fn walk(dir: &str, children: &[(&'static str, Node)], depth: u32, max_depth: u32, repos: &mut Vec<RepoInfo>) {
    for (name, node) in children {
        let path = format!("{dir}/{name}");
        let probe = match node {
            Node::File => EntryProbe::NotDir,
            Node::Bare => EntryProbe::BareRepo,
            Node::Dir(_) => EntryProbe::OtherDir,
        };
        match walk_action(probe, depth, max_depth) {
            WalkAction::Record => repos.push(repo_info_for(ROOT_BYTES, path.into_bytes(), None)),
            WalkAction::Descend => {
                if let Node::Dir(inner) = node {
                    walk(&path, inner, depth + 1, max_depth, repos);
                }
            }
            WalkAction::Skip => {}
        }
    }
}

fn discover_in(tree: Vec<(&'static str, Node)>, max_depth: u32) -> RepoStore {
    let mut repos = Vec::new();
    walk(ROOT, &tree, 0, max_depth, &mut repos);
    RepoStore::discover(ROOT_BYTES.to_vec(), repos)
}

fn nest(path: &[&'static str], leaf: Node) -> Vec<(&'static str, Node)> {
    if path.len() == 1 {
        vec![(path[0], leaf)]
    } else {
        vec![(path[0], Node::Dir(nest(&path[1..], leaf)))]
    }
}

#[test]
fn discover_finds_bare_repos() {
    let store = discover_in(vec![("alpha.git", Node::Bare), ("beta.git", Node::Bare)], 0);
    assert_eq!(store.list().len(), 2);
}

#[test]
fn discover_respects_max_depth() {
    // max_depth 2 should not find it (it is 3 levels below root)
    let store_shallow = discover_in(nest(&["a", "b", "c", "deep.git"], Node::Bare), 2);
    assert_eq!(store_shallow.list().len(), 0);

    // max_depth 3 should find it
    let store_deep = discover_in(nest(&["a", "b", "c", "deep.git"], Node::Bare), 3);
    assert_eq!(store_deep.list().len(), 1);
}

#[test]
fn discover_max_depth_zero_only_root_level() {
    let mut tree = vec![("root-level.git", Node::Bare)];
    tree.extend(nest(&["nested", "deep.git"], Node::Bare));
    let store = discover_in(tree, 0);
    assert_eq!(store.list().len(), 1);
    assert_eq!(store.list()[0].relative_path, "root-level.git");
}

#[test]
fn discover_ignores_non_bare_dirs() {
    let store = discover_in(vec![("just-a-dir", Node::Dir(vec![])), ("notes.txt", Node::File)], 0);
    assert_eq!(store.list().len(), 0);
}

#[test]
fn discover_does_not_enter_repositories() {
    // a repository is recorded, and what lies below it is not looked at
    let store = discover_in(vec![("outer.git", Node::Bare)], 5);
    assert_eq!(store.list().len(), 1);
}

#[test]
fn discover_lists_in_path_order() {
    let store = RepoStore::discover(
        ROOT_BYTES.to_vec(),
        vec![info("/srv/git/zeta.git"), info("/srv/git/org/b.git"), info("/srv/git/alpha.git"), info("/srv/git/org/a.git")],
    );
    let paths: Vec<&str> = store.list().iter().map(|r| r.relative_path.as_str()).collect();
    assert_eq!(paths, vec!["alpha.git", "org/a.git", "org/b.git", "zeta.git"]);
    assert_eq!(store.root().as_slice(), ROOT_BYTES);
}

#[test]
fn discover_finds_nested_repos() {
    let store = discover_in(nest(&["org", "project.git"], Node::Bare), 1);
    assert_eq!(store.list().len(), 1);
    assert_eq!(store.list()[0].relative_path, "org/project.git");
    assert_eq!(store.list()[0].name, "project.git");
}

#[test]
fn walk_respects_max_depth() {
    // a directory read at depth 2 with max_depth 2 is not entered further
    assert!(matches!(walk_action(EntryProbe::OtherDir, 2, 2), WalkAction::Skip));
    assert!(matches!(walk_action(EntryProbe::OtherDir, 2, 3), WalkAction::Descend));
    assert!(matches!(walk_action(EntryProbe::OtherDir, 0, 0), WalkAction::Skip));
    assert!(matches!(walk_action(EntryProbe::BareRepo, 5, 0), WalkAction::Record));
    assert!(matches!(walk_action(EntryProbe::NotDir, 0, 3), WalkAction::Skip));
}

#[test]
fn resolve_existing_repo() {
    let store = RepoStore::discover(ROOT_BYTES.to_vec(), vec![info("/srv/git/myrepo.git")]);
    let info = store
        .resolve("myrepo.git", Some(ROOT_BYTES.to_vec()), Some(b"/srv/git/myrepo.git".to_vec()))
        .unwrap();
    assert_eq!(info.relative_path, "myrepo.git");
    assert_eq!(info.name, "myrepo.git");
}

#[test]
fn resolve_missing_repo() {
    let store = RepoStore::discover(ROOT_BYTES.to_vec(), vec![info("/srv/git/exists.git")]);
    let err = store.resolve("nope.git", Some(ROOT_BYTES.to_vec()), None).unwrap_err();
    assert!(matches!(err, Error::RepoNotFound(_)));
}

#[test]
fn resolve_directory_that_is_not_a_listed_repo() {
    let store = RepoStore::discover(ROOT_BYTES.to_vec(), vec![info("/srv/git/exists.git")]);
    let err = store
        .resolve("plain-dir", Some(ROOT_BYTES.to_vec()), Some(b"/srv/git/plain-dir".to_vec()))
        .unwrap_err();
    match err {
        Error::RepoNotFound(r) => assert_eq!(r, "plain-dir"),
        _ => panic!("expected not found"),
    }
}

#[test]
fn reads_description_file() {
    assert_eq!(
        read_description(Some("A test repository\n".to_string())).as_deref(),
        Some("A test repository")
    );
}

#[test]
fn description_placeholder_and_blank_are_none() {
    assert_eq!(
        read_description(Some(
            "Unnamed repository; edit this file 'description' to name the repository.\n".to_string()
        )),
        None
    );
    assert_eq!(read_description(Some(" \t\n\u{3000}".to_string())), None);
    assert_eq!(read_description(None), None);
    assert_eq!(
        read_description(Some("\u{a0} spaced out \u{2003}".to_string())).as_deref(),
        Some("spaced out")
    );
}

#[test]
fn repo_info_keeps_paths_and_description() {
    let r = repo_info_for(ROOT_BYTES, b"/srv/git/a/b.git".to_vec(), Some("d".to_string()));
    assert_eq!(r.relative_path, "a/b.git");
    assert_eq!(r.absolute_path, b"/srv/git/a/b.git".to_vec());
    assert_eq!(r.name, "b.git");
    assert_eq!(r.description.as_deref(), Some("d"));
}

#[test]
fn non_utf8_paths_are_kept() {
    let abs = b"/srv/git/r\xffo.git".to_vec();
    let store = RepoStore::discover(ROOT_BYTES.to_vec(), vec![repo_info_for(ROOT_BYTES, abs.clone(), None)]);
    assert_eq!(store.list()[0].relative_path, "r\u{fffd}o.git");
    assert_eq!(store.list()[0].name, "r\u{fffd}o.git");
    let r = store
        .resolve("r\u{fffd}o.git", Some(ROOT_BYTES.to_vec()), Some(abs.clone()))
        .unwrap();
    assert_eq!(r.absolute_path, abs);
    // a different directory whose name shows the same is not taken for it
    let other = store.resolve("x", Some(ROOT_BYTES.to_vec()), Some(b"/srv/git/r\xfeo.git".to_vec()));
    assert!(matches!(other, Err(Error::RepoNotFound(_))));
}
