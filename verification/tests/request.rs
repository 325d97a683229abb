use git_server::error::Error;
use git_server::request::{ParseOutcome, UploadPackRequest};

fn make_pktline(data: &str) -> Vec<u8> {
    let len = data.len() + 4;
    format!("{len:04x}{data}").into_bytes()
}

fn protocol_message(r: Result<UploadPackRequest, Error>) -> String {
    match r {
        Err(Error::Protocol(m)) => m,
        _ => panic!("expected a protocol error"),
    }
}

#[test]
fn parse_simple_want() {
    let hash = "0000000000000000000000000000000000000001";
    let mut body = make_pktline(&format!("want {hash}\n"));
    body.extend_from_slice(b"00000009done\n");
    let req = UploadPackRequest::parse(&body).unwrap();
    assert_eq!(req.wants.len(), 1);
    assert!(req.haves.is_empty());
    assert!(req.done);
}

#[test]
fn parse_wants_and_haves() {
    let want = "0000000000000000000000000000000000000001";
    let have = "0000000000000000000000000000000000000002";
    let mut body = make_pktline(&format!("want {want}\n"));
    body.extend_from_slice(b"0000");
    body.extend_from_slice(&make_pktline(&format!("have {have}\n")));
    body.extend_from_slice(b"0009done\n");
    let req = UploadPackRequest::parse(&body).unwrap();
    assert_eq!(req.wants.len(), 1);
    assert_eq!(req.haves.len(), 1);
    assert!(req.done);
}

#[test]
fn parse_keeps_ids_and_ignores_capabilities() {
    let want = "ABCDEF0123456789abcdef0123456789ABCDEF01";
    let body = make_pktline(&format!("want {want} side-band-64k ofs-delta\n"));
    let req = UploadPackRequest::parse(&body).unwrap();
    assert_eq!(req.wants.len(), 1);
    assert_eq!(req.wants[0].bytes[0], 0xab);
    assert_eq!(req.wants[0].bytes[19], 0x01);
    assert_eq!(req.wants[0].to_hex(), want.to_lowercase().into_bytes());
    assert!(!req.done);
}

#[test]
fn parse_stops_at_truncated_line() {
    let hash = "0000000000000000000000000000000000000001";
    let mut body = make_pktline(&format!("want {hash}\n"));
    body.extend_from_slice(b"0032want ");
    let req = UploadPackRequest::parse(&body).unwrap();
    assert_eq!(req.wants.len(), 1);
}

#[test]
fn parse_rejects_non_hex_length() {
    let r = UploadPackRequest::parse(b"zzzzwant");
    assert_eq!(protocol_message(r), "invalid pkt-line length");
}

#[test]
fn parse_rejects_non_utf8_length() {
    let r = UploadPackRequest::parse(&[0xff, 0x30, 0x30, 0x30, 0x31]);
    assert_eq!(protocol_message(r), "invalid pkt-line length prefix");
}

#[test]
fn parse_rejects_non_utf8_payload() {
    let r = UploadPackRequest::parse(&[b'0', b'0', b'0', b'6', 0xc3, 0x28]);
    assert_eq!(protocol_message(r), "invalid UTF-8 in pkt-line");
}

#[test]
fn parse_rejects_short_oid() {
    let body = make_pktline("want 1234\n");
    let r = UploadPackRequest::parse(&body);
    assert_eq!(protocol_message(r), "invalid OID in want: 1234");
}

#[test]
fn parse_rejects_bad_have_oid() {
    let body = make_pktline("have zz00000000000000000000000000000000000000\n");
    let r = UploadPackRequest::parse(&body);
    assert_eq!(protocol_message(r), "invalid OID in have: zz00000000000000000000000000000000000000");
}

#[test]
fn parse_accepts_plus_sign_in_length() {
    // `usize::from_str_radix` accepts a leading `+`
    let mut body = b"+009".to_vec();
    body.extend_from_slice(b"done\n");
    let req = UploadPackRequest::parse(&body).unwrap();
    assert!(req.done);
}

#[test]
fn inspect_reports_cut_inside_character() {
    // the 41st byte after "want " starts inside a two-byte character
    let mut line = String::from("want ");
    line.push_str(&"a".repeat(39));
    line.push('é');
    line.push('\n');
    let body = make_pktline(&line);
    assert!(matches!(UploadPackRequest::inspect(&body), ParseOutcome::WouldPanic));
}

#[test]
fn parse_ignores_unknown_lines() {
    let mut body = make_pktline("deepen 1\n");
    body.extend_from_slice(b"0009done\n");
    let req = UploadPackRequest::parse(&body).unwrap();
    assert!(req.wants.is_empty());
    assert!(req.done);
}

#[test]
fn parse_without_done_keeps_done_unset() {
    let want = "0000000000000000000000000000000000000001";
    let have = "0000000000000000000000000000000000000002";
    let mut body = make_pktline(&format!("want {want}\n"));
    body.extend_from_slice(b"0000");
    body.extend_from_slice(&make_pktline(&format!("have {have}\n")));
    let req = UploadPackRequest::parse(&body).unwrap();
    assert_eq!(req.wants.len(), 1);
    assert_eq!(req.haves.len(), 1);
    assert!(!req.done);
}

#[test]
fn other_lines_are_passed_over() {
    let want = "0000000000000000000000000000000000000001";
    let mut with_line = make_pktline(&format!("want {want}\n"));
    with_line.extend_from_slice(&make_pktline("deepen 1\n"));
    with_line.extend_from_slice(b"00000009done\n");
    let mut without = make_pktline(&format!("want {want}\n"));
    without.extend_from_slice(b"00000009done\n");
    let a = UploadPackRequest::parse(&with_line).unwrap();
    let b = UploadPackRequest::parse(&without).unwrap();
    assert_eq!(a.wants.len(), b.wants.len());
    assert_eq!(a.wants[0].to_hex(), b.wants[0].to_hex());
    assert_eq!(a.done, b.done);
}
