use git_server::backend::GitBackend;
use git_server::oid::ObjectId;
use git_server::refs::{advertise_refs, RefLine};

fn oid(last: u8) -> ObjectId {
    let mut bytes = [0u8; 20];
    bytes[0] = 0xab;
    bytes[19] = last;
    ObjectId { bytes }
}

fn sample_refs() -> Vec<RefLine> {
    vec![
        RefLine { oid: oid(1), name: "HEAD".to_string() },
        RefLine { oid: oid(1), name: "refs/heads/main".to_string() },
    ]
}

#[test]
fn backend_advertise_refs() {
    let backend = GitBackend::new(b"/srv/git/test.git".to_vec());
    let output = backend.advertise_refs(&sample_refs());
    let output_str = String::from_utf8_lossy(&output);
    assert!(output_str.contains("refs/heads/main"));
    assert_eq!(backend.repo_path().as_slice(), b"/srv/git/test.git");
}

#[test]
fn advertise_refs_starts_with_service_header() {
    let output = advertise_refs(&sample_refs());
    let output_str = String::from_utf8_lossy(&output);
    assert!(
        output_str.starts_with("001e# service=git-upload-pack\n0000"),
        "output does not start with service header: {output_str:?}"
    );
}

#[test]
fn advertise_refs_contains_capabilities() {
    let output = advertise_refs(&sample_refs());
    let output_str = String::from_utf8_lossy(&output);
    assert!(
        output_str.contains("side-band-64k"),
        "output missing side-band-64k: {output_str:?}"
    );
    assert!(
        output_str.contains("ofs-delta"),
        "output missing ofs-delta: {output_str:?}"
    );
}

#[test]
fn advertise_refs_contains_main_branch() {
    let output = advertise_refs(&sample_refs());
    let output_str = String::from_utf8_lossy(&output);
    assert!(
        output_str.contains("refs/heads/main"),
        "output missing refs/heads/main: {output_str:?}"
    );
}

#[test]
fn advertise_refs_ends_with_flush() {
    let output = advertise_refs(&sample_refs());
    assert!(
        output.ends_with(b"0000"),
        "output does not end with flush packet: {:?}",
        String::from_utf8_lossy(&output)
    );
}

#[test]
fn advertise_refs_exact_bytes() {
    let output = advertise_refs(&sample_refs());
    let hex = "ab00000000000000000000000000000000000001";
    let mut expected = Vec::new();
    expected.extend_from_slice(b"001e# service=git-upload-pack\n0000");
    let first = format!("{hex} HEAD\0thin-pack side-band-64k ofs-delta shallow\n");
    expected.extend_from_slice(format!("{:04x}", first.len() + 4).as_bytes());
    expected.extend_from_slice(first.as_bytes());
    let second = format!("{hex} refs/heads/main\n");
    expected.extend_from_slice(format!("{:04x}", second.len() + 4).as_bytes());
    expected.extend_from_slice(second.as_bytes());
    expected.extend_from_slice(b"0000");
    assert_eq!(output, expected);
}

#[test]
fn advertise_no_refs_sends_capabilities() {
    let output = advertise_refs(&Vec::new());
    let line = "0000000000000000000000000000000000000000 capabilities^{}\0thin-pack side-band-64k ofs-delta shallow\n";
    let mut expected = Vec::new();
    expected.extend_from_slice(b"001e# service=git-upload-pack\n0000");
    expected.extend_from_slice(format!("{:04x}", line.len() + 4).as_bytes());
    expected.extend_from_slice(line.as_bytes());
    expected.extend_from_slice(b"0000");
    assert_eq!(output, expected);
}
