use git_server::pktline::{encode, encode_comment, flush};

#[test]
fn encode_simple_line() {
    let encoded = encode(b"hello\n");
    assert_eq!(&encoded, b"000ahello\n");
}

#[test]
fn encode_empty_content() {
    let encoded = encode(b"");
    assert_eq!(&encoded, b"0004");
}

#[test]
fn encode_comment_line() {
    let encoded = encode_comment("service=git-upload-pack");
    assert_eq!(&encoded, b"001e# service=git-upload-pack\n");
}

#[test]
fn flush_packet() {
    assert_eq!(flush(), b"0000");
}

#[test]
fn encode_ref_line() {
    let hash = "0000000000000000000000000000000000000000";
    let line = format!("{hash} refs/heads/main\n");
    let encoded = encode(line.as_bytes());
    // 4 (prefix) + 40 (hash) + 1 (space) + 15 (refs/heads/main) + 1 (\n) = 61 = 0x3d
    assert_eq!(&encoded[..4], b"003d");
}

#[test]
fn encode_long_line_uses_five_digits() {
    let data = vec![b'x'; 70000];
    let encoded = encode(&data);
    // 70004 = 0x11174: the prefix grows past four digits
    assert_eq!(&encoded[..5], b"11174");
    assert_eq!(encoded.len(), 70005);
}

#[test]
fn encode_uses_lowercase_hex() {
    let data = vec![b'y'; 250];
    let encoded = encode(&data);
    // 254 = 0xfe
    assert_eq!(&encoded[..4], b"00fe");
}
