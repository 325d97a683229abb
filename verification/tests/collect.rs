use git_server::collect::{commit_tree, parse_tree, EntryKind, OidCollector, Step, TreeEntry};
use git_server::oid::ObjectId;
use std::collections::HashMap;

fn id(n: u8) -> ObjectId {
    ObjectId { bytes: [n; 20] }
}

fn entry(kind: EntryKind, n: u8) -> TreeEntry {
    TreeEntry { kind, oid: id(n) }
}

/// Drives the walk over commits whose trees are given in `trees`.
fn run(commits: &[(u8, u8)], haves: &[u8], trees: &HashMap<u8, Vec<TreeEntry>>) -> Vec<u8> {
    let have_ids: Vec<ObjectId> = haves.iter().map(|h| id(*h)).collect();
    let mut c = OidCollector::new(&have_ids);
    for (commit, tree) in commits {
        if !c.visit_commit(&id(*commit)) {
            continue;
        }
        let mut step = c.commit_read(&id(*commit), &id(*tree));
        while let Step::ReadTree(t) = step {
            let entries = trees[&t.bytes[0]].clone();
            step = c.tree_read(&t, entries, None);
        }
    }
    c.collected().iter().map(|o| o.bytes[0]).collect()
}

#[test]
fn walk_collects_depth_first_once() {
    let mut trees = HashMap::new();
    // root tree 10: blob 20, subtree 11, blob 21, submodule 30
    trees.insert(10, vec![
        entry(EntryKind::Blob, 20),
        entry(EntryKind::Tree, 11),
        entry(EntryKind::Blob, 21),
        entry(EntryKind::Submodule, 30),
    ]);
    // subtree 11: blob 22, blob 20 again
    trees.insert(11, vec![entry(EntryKind::Blob, 22), entry(EntryKind::Blob, 20)]);
    // second commit 2 shares root tree 10
    let got = run(&[(1, 10), (2, 10), (1, 10)], &[], &trees);
    assert_eq!(got, vec![1, 10, 20, 11, 22, 21, 2]);
}

#[test]
fn walk_skips_haves() {
    let mut trees = HashMap::new();
    trees.insert(10, vec![entry(EntryKind::Blob, 20), entry(EntryKind::Blob, 21)]);
    let got = run(&[(1, 10), (5, 10)], &[5, 21], &trees);
    assert_eq!(got, vec![1, 10, 20]);
}

#[test]
fn parse_tree_reads_entries() {
    let mut data = Vec::new();
    data.extend_from_slice(b"100644 a.txt\0");
    data.extend_from_slice(&[1u8; 20]);
    data.extend_from_slice(b"40000 dir\0");
    data.extend_from_slice(&[2u8; 20]);
    data.extend_from_slice(b"160000 sub\0");
    data.extend_from_slice(&[3u8; 20]);
    let (entries, error) = parse_tree(&data);
    assert!(error.is_none());
    assert_eq!(entries.len(), 3);
    assert!(matches!(entries[0].kind, EntryKind::Blob));
    assert_eq!(entries[0].oid.bytes, [1u8; 20]);
    assert!(matches!(entries[1].kind, EntryKind::Tree));
    assert!(matches!(entries[2].kind, EntryKind::Submodule));
    assert_eq!(entries[2].oid.bytes, [3u8; 20]);
    let (none, broken) = parse_tree(b"100644 broken");
    assert!(none.is_empty());
    assert!(broken.is_some());
    // entries before a decoding error are still read
    let mut partial = Vec::new();
    partial.extend_from_slice(b"100644 a.txt\0");
    partial.extend_from_slice(&[1u8; 20]);
    partial.extend_from_slice(b"100644 cut");
    let (first, error) = parse_tree(&partial);
    assert_eq!(first.len(), 1);
    assert_eq!(first[0].oid.bytes, [1u8; 20]);
    assert!(error.is_some());
}

#[test]
fn commit_tree_reads_tree_line() {
    let data = b"tree 4b825dc642cb6eb9a060e54bf8d69288fbee4904\nauthor A <a@b> 0 +0000\ncommitter A <a@b> 0 +0000\n\nmsg\n";
    let t = commit_tree(data).unwrap();
    assert_eq!(t.to_hex(), b"4b825dc642cb6eb9a060e54bf8d69288fbee4904".to_vec());
    assert!(commit_tree(b"not a commit").is_err());
}

#[test]
fn object_id_from_hex() {
    let o = ObjectId::from_hex(b"0000000000000000000000000000000000000001").unwrap();
    assert_eq!(o.bytes[19], 1);
    assert!(ObjectId::from_hex(b"000000000000000000000000000000000000001").is_none());
    assert!(ObjectId::from_hex(b"g000000000000000000000000000000000000001").is_none());
    assert!(o.same(&id(0)) == false);
}

#[test]
fn walk_fails_where_a_tree_stops_reading() {
    // root tree 10: subtree 11, blob 20, then a decoding error
    let mut c = OidCollector::new(&vec![]);
    assert!(c.visit_commit(&id(1)));
    let step = c.commit_read(&id(1), &id(10));
    assert!(matches!(step, Step::ReadTree(t) if t.bytes == [10; 20]));
    let step = c.tree_read(&id(10), vec![entry(EntryKind::Tree, 11), entry(EntryKind::Blob, 20)], Some("bad tree".to_string()));
    assert!(matches!(step, Step::ReadTree(t) if t.bytes == [11; 20]));
    // the subtree is walked first, then the earlier entries, then the error
    let step = c.tree_read(&id(11), vec![entry(EntryKind::Blob, 21)], None);
    match step {
        Step::Failed(m) => assert_eq!(m, "bad tree"),
        _ => panic!("expected the walk to fail"),
    }
    let got: Vec<u8> = c.collected().iter().map(|o| o.bytes[0]).collect();
    assert_eq!(got, vec![1, 10, 11, 21, 20]);
}
