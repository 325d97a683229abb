use git_server::packfile::{
    encode_pack_object_header, nak_line, object_type_number, sideband_frames, ObjectKind, PackWriter,
};
use sha1::{Digest, Sha1};

/// Reads side-band frames back into the data they carry; stops at a flush.
fn deframe(mut s: &[u8]) -> Vec<u8> {
    let mut out = Vec::new();
    while s.len() >= 5 {
        let n = usize::from_str_radix(std::str::from_utf8(&s[..4]).unwrap(), 16).unwrap();
        if n < 5 {
            break;
        }
        assert_eq!(s[4], 1);
        out.extend_from_slice(&s[5..n]);
        s = &s[n..];
    }
    out
}

#[test]
fn object_header_small_and_large() {
    assert_eq!(encode_pack_object_header(3, 10), vec![0x3a]);
    assert_eq!(encode_pack_object_header(3, 100), vec![0xb4, 0x06]);
    assert_eq!(encode_pack_object_header(1, 0), vec![0x10]);
    // 1000 = 0b1111101000: low 4 bits 8, then 62
    assert_eq!(encode_pack_object_header(2, 1000), vec![0xa8, 0x3e]);
    // 100000: low 4 bits 0, 6250 = 0b1100001101010 -> 0x6a|0x80, 0x30
    assert_eq!(encode_pack_object_header(4, 100000), vec![0xc0, 0xea, 0x30]);
}

#[test]
fn object_type_numbers() {
    assert_eq!(object_type_number(ObjectKind::Commit), 1);
    assert_eq!(object_type_number(ObjectKind::Tree), 2);
    assert_eq!(object_type_number(ObjectKind::Blob), 3);
    assert_eq!(object_type_number(ObjectKind::Tag), 4);
}

#[test]
fn sideband_chunks_large_data() {
    let data: Vec<u8> = (0..150_000u32).map(|i| (i % 251) as u8).collect();
    let frames = sideband_frames(&data);
    assert_eq!(&frames[..5], b"fff0\x01");
    // 150000 = 65515 + 65515 + 18970 -> three frames
    assert_eq!(frames.len(), data.len() + 3 * 5);
    assert_eq!(deframe(&frames), data);
    assert!(sideband_frames(&[]).is_empty());
}

#[test]
fn nak_line_bytes() {
    assert_eq!(nak_line(), b"0008NAK\n".to_vec());
}

#[test]
fn pack_stream_carries_pack_and_checksum() {
    let (mut writer, mut out) = PackWriter::begin(2);
    let blob = b"hello world\n".to_vec();
    let tree = vec![0u8; 300];
    out.extend(writer.add_object(ObjectKind::Blob, &blob));
    out.extend(writer.add_object(ObjectKind::Tree, &tree));
    out.extend(writer.finish());
    assert!(out.ends_with(b"0000"));
    let pack = deframe(&out);
    assert_eq!(&pack[..4], b"PACK");
    assert_eq!(&pack[4..8], &[0, 0, 0, 2]);
    assert_eq!(&pack[8..12], &[0, 0, 0, 2]);
    // first entry: blob of 12 bytes, then its zlib stream
    assert_eq!(pack[12], 0x3c);
    assert_eq!(pack[13], 0x78);
    let body = &pack[..pack.len() - 20];
    let digest = Sha1::digest(body);
    assert_eq!(&pack[pack.len() - 20..], digest.as_slice());
    // the entry holds the zlib stream of the blob, which inflates back
    let z = miniz_oxide::deflate::compress_to_vec_zlib(&blob, 6);
    assert_eq!(&pack[13..13 + z.len()], z.as_slice());
    assert_eq!(miniz_oxide::inflate::decompress_to_vec_zlib(&z).unwrap(), blob);
}

#[test]
fn object_header_lengths() {
    assert_eq!(encode_pack_object_header(3, 15).len(), 1);
    assert_eq!(encode_pack_object_header(3, 16).len(), 2);
    assert_eq!(encode_pack_object_header(3, 2047).len(), 2);
    assert_eq!(encode_pack_object_header(3, 2048).len(), 3);
    let longest = encode_pack_object_header(3, usize::MAX);
    assert_eq!(longest.len(), 10);
    assert_ne!(*longest.last().unwrap(), 0);
    let h = encode_pack_object_header(1, 16);
    assert_eq!(h, vec![0x90, 0x01]);
}
