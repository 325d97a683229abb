//! The ref advertisement of the smart HTTP protocol (`git-upload-pack`).
use vstd::prelude::*;
use vstd::utf8::encode_utf8;
use vstd::string::StringSliceAdditionalSpecFns;
use crate::bytes_util::append_bytes;
use crate::oid::{ObjectId, hex_encode};
use crate::text::lemma_encode_len;
use crate::pktline::{pow16, hex_digits, lemma_hex_digits_shape, pkt_line, comment_content, flush_packet, encode, encode_comment, flush};
use crate::request::{all_hex, hex_number, lemma_hex_digits_value};

verus! {

/// The capabilities announced on the first ref line.
pub const CAPABILITIES: &'static str = "thin-pack side-band-64k ofs-delta shallow";

/// The id written when there is no ref at all.
pub const ZERO_OID: &'static str = "0000000000000000000000000000000000000000";

/// A ref to advertise: the id it points at (peeled) and its full name.
pub struct RefLine {
    pub oid: ObjectId,
    pub name: String,
}

/// The advertised refs as (id bytes, name bytes).
pub open spec fn refs_view(refs: Seq<RefLine>) -> Seq<(Seq<u8>, Seq<u8>)> {
    refs.map_values(|r: RefLine| (r.oid@, encode_utf8(r.name@)))
}

/// `thin-pack side-band-64k ofs-delta shallow`
pub open spec fn caps() -> Seq<u8> {
    encode_utf8(CAPABILITIES@)
}

/// `service=git-upload-pack`
pub open spec fn service_comment() -> Seq<u8> {
    encode_utf8("service=git-upload-pack"@)
}

/// `<oid> <name>\0<capabilities>\n`
pub open spec fn first_ref_line(oid: Seq<u8>, name: Seq<u8>) -> Seq<u8> {
    hex_encode(oid) + seq![32u8] + name + seq![0u8] + caps() + seq![10u8]
}

/// `<oid> <name>\n`
pub open spec fn ref_line(oid: Seq<u8>, name: Seq<u8>) -> Seq<u8> {
    hex_encode(oid) + seq![32u8] + name + seq![10u8]
}

/// `<zero-oid> capabilities^{}\0<capabilities>\n`, sent when there are no refs.
pub open spec fn no_refs_line() -> Seq<u8> {
    encode_utf8(ZERO_OID@) + encode_utf8(" capabilities^{}"@) + seq![0u8] + caps() + seq![10u8]
}

/// The pkt-lines of refs after the first.
pub open spec fn other_ref_lines(refs: Seq<(Seq<u8>, Seq<u8>)>) -> Seq<u8>
    decreases refs.len(),
{
    if refs.len() == 0 {
        seq![]
    } else {
        other_ref_lines(refs.drop_last()) + pkt_line(ref_line(refs.last().0, refs.last().1))
    }
}

/// The complete ref advertisement for these refs (in order).
pub open spec fn advertisement(refs: Seq<(Seq<u8>, Seq<u8>)>) -> Seq<u8> {
    pkt_line(comment_content(service_comment())) + flush_packet() + (if refs.len() == 0 {
        pkt_line(no_refs_line())
    } else {
        pkt_line(first_ref_line(refs[0].0, refs[0].1)) + other_ref_lines(refs.subrange(1, refs.len() as int))
    }) + flush_packet()
}

/// Every ref name is short enough for its line's length to be counted.
pub open spec fn names_fit(refs: Seq<RefLine>) -> bool {
    forall|i: int| 0 <= i < refs.len() ==> encode_utf8((#[trigger] refs[i]).name@).len() + 300 <= usize::MAX
}

fn line_for(r: &RefLine, first: bool) -> (out: Vec<u8>)
    requires
        encode_utf8(r.name@).len() + 300 <= usize::MAX,
    ensures
        out@ == pkt_line(
            if first {
                first_ref_line(r.oid@, encode_utf8(r.name@))
            } else {
                ref_line(r.oid@, encode_utf8(r.name@))
            },
        ),
{
    let mut line = r.oid.to_hex();
    line.push(32u8);
    append_bytes(&mut line, r.name.as_str().as_bytes());
    if first {
        line.push(0u8);
        append_bytes(&mut line, CAPABILITIES.as_bytes());
    }
    line.push(10u8);
    proof {
        assert(CAPABILITIES.spec_bytes() == caps());
        assert(caps().len() < 200) by {
            reveal_strlit("thin-pack side-band-64k ofs-delta shallow");
            lemma_encode_len(CAPABILITIES@);
        }
        if first {
            assert(line@ =~= first_ref_line(r.oid@, encode_utf8(r.name@)));
        } else {
            assert(line@ =~= ref_line(r.oid@, encode_utf8(r.name@)));
        }
    }
    encode(line.as_slice())
}

/// Generate the complete pkt-line encoded ref advertisement response for the
/// Git smart HTTP protocol (`git-upload-pack`): the service header and a
/// flush, the first ref with the capabilities after a NUL byte (or, with no
/// refs, the zero id and `capabilities^{}`), the other refs, and a flush.
pub fn advertise_refs(refs: &Vec<RefLine>) -> (out: Vec<u8>)
    requires
        names_fit(refs@),
    ensures
        out@ == advertisement(refs_view(refs@)),
{
    let mut output: Vec<u8> = Vec::new();
    proof {
        reveal_strlit("service=git-upload-pack");
        lemma_encode_len("service=git-upload-pack"@);
    }
    let header = encode_comment("service=git-upload-pack");
    append_bytes(&mut output, header.as_slice());
    append_bytes(&mut output, flush());
    let ghost start = output@;
    let ghost rv = refs_view(refs@);
    if refs.len() == 0 {
        let mut line: Vec<u8> = Vec::new();
        append_bytes(&mut line, ZERO_OID.as_bytes());
        append_bytes(&mut line, " capabilities^{}".as_bytes());
        line.push(0u8);
        append_bytes(&mut line, CAPABILITIES.as_bytes());
        line.push(10u8);
        proof {
            assert(line@ =~= no_refs_line());
            reveal_strlit("thin-pack side-band-64k ofs-delta shallow");
            lemma_encode_len(CAPABILITIES@);
            reveal_strlit("0000000000000000000000000000000000000000");
            lemma_encode_len(ZERO_OID@);
            reveal_strlit(" capabilities^{}");
            lemma_encode_len(" capabilities^{}"@);
        }
        let l = encode(line.as_slice());
        append_bytes(&mut output, l.as_slice());
    } else {
        let first = line_for(&refs[0], true);
        append_bytes(&mut output, first.as_slice());
        let mut i: usize = 1;
        assert(rv.subrange(1, 1) =~= Seq::<(Seq<u8>, Seq<u8>)>::empty());
        while i < refs.len()
            invariant
                1 <= i <= refs.len(),
                rv == refs_view(refs@),
                names_fit(refs@),
                output@ == start + pkt_line(first_ref_line(rv[0].0, rv[0].1)) + other_ref_lines(rv.subrange(1, i as int)),
            decreases refs.len() - i,
        {
            let l = line_for(&refs[i], false);
            append_bytes(&mut output, l.as_slice());
            proof {
                assert(rv.subrange(1, i + 1).drop_last() =~= rv.subrange(1, i as int));
            }
            i = i + 1;
        }
    }
    append_bytes(&mut output, flush());
    proof {
        assert(output@ =~= advertisement(rv));
    }
    output
}


/// Every advertisement opens with the service header `001e# service=git-upload-pack\n`
/// and a flush packet, and ends with a flush packet.
pub proof fn lemma_advertisement_frame(refs: Seq<(Seq<u8>, Seq<u8>)>)
    ensures
        advertisement(refs).len() >= 38,
        advertisement(refs).subrange(0, 34) == encode_utf8("001e# service=git-upload-pack\n0000"@),
        advertisement(refs).subrange(advertisement(refs).len() - 4, advertisement(refs).len() as int)
            == flush_packet(),
{
    reveal_strlit("service=git-upload-pack");
    reveal_strlit("001e# service=git-upload-pack\n0000");
    vstd::utf8::is_ascii_chars_encode_utf8("service=git-upload-pack"@);
    vstd::utf8::is_ascii_chars_encode_utf8("001e# service=git-upload-pack\n0000"@);
    let svc = service_comment();
    assert(svc.len() == 23);
    let content = comment_content(svc);
    assert(content.len() == 26);
    reveal_with_fuel(pow16, 5);
    lemma_hex_digits_shape(30, 4);
    reveal_with_fuel(hex_digits, 5);
    assert(hex_digits(30, 4) =~= seq![48u8, 48u8, 49u8, 101u8]);
    let header = pkt_line(content) + flush_packet();
    let expected = encode_utf8("001e# service=git-upload-pack\n0000"@);
    assert(expected.len() == 34);
    assert forall|i: int| 0 <= i < 34 implies #[trigger] header[i] == expected[i] by {
        if 6 <= i < 29 {
            assert(header[i] == svc[i - 6]);
        }
    }
    let a = advertisement(refs);
    assert(a.subrange(0, 34) =~= header);
    assert(a.subrange(a.len() - 4, a.len() as int) =~= flush_packet());
}


/// The packets that a pkt-line reader finds in `s`, in order: `None` for a
/// flush packet, `Some(payload)` for a line whose four hexadecimal digits
/// give its whole length; reading stops at anything that is not a whole
/// packet.
pub open spec fn read_packets(s: Seq<u8>) -> Seq<Option<Seq<u8>>>
    decreases s.len(),
{
    if s.len() < 4 || !all_hex(s.subrange(0, 4)) {
        seq![]
    } else {
        let n = hex_number(s.subrange(0, 4));
        if n == 0 {
            seq![None] + read_packets(s.subrange(4, s.len() as int))
        } else if n < 4 || n > s.len() {
            seq![]
        } else {
            seq![Some(s.subrange(4, n as int))] + read_packets(s.subrange(n as int, s.len() as int))
        }
    }
}

proof fn lemma_read_empty()
    ensures
        read_packets(seq![]) == Seq::<Option<Seq<u8>>>::empty(),
{
}

proof fn lemma_read_pkt_line(d: Seq<u8>, t: Seq<u8>)
    requires
        d.len() + 4 < 65536,
    ensures
        read_packets(pkt_line(d) + t) == seq![Some(d)] + read_packets(t),
{
    let n = (d.len() + 4) as nat;
    reveal_with_fuel(pow16, 5);
    lemma_hex_digits_shape(n, 4);
    lemma_hex_digits_value(n, 4);
    let s = pkt_line(d) + t;
    assert(s.subrange(0, 4) =~= hex_digits(n, 4));
    assert(s.subrange(4, n as int) =~= d);
    assert(s.subrange(n as int, s.len() as int) =~= t);
}

proof fn lemma_read_flush(t: Seq<u8>)
    ensures
        read_packets(flush_packet() + t) == seq![None::<Seq<u8>>] + read_packets(t),
{
    let s = flush_packet() + t;
    let z = s.subrange(0, 4);
    assert(z =~= seq![48u8, 48u8, 48u8, 48u8]);
    reveal_with_fuel(hex_number, 5);
    assert(z.drop_last() =~= seq![48u8, 48u8, 48u8]);
    assert(z.drop_last().drop_last() =~= seq![48u8, 48u8]);
    assert(z.drop_last().drop_last().drop_last() =~= seq![48u8]);
    assert(seq![48u8].drop_last() =~= Seq::<u8>::empty());
    assert(all_hex(z));
    assert(s.subrange(4, s.len() as int) =~= t);
}

proof fn lemma_read_other_lines(rs: Seq<(Seq<u8>, Seq<u8>)>, t: Seq<u8>)
    requires
        forall|i: int| 0 <= i < rs.len() ==> (#[trigger] rs[i]).0.len() == 20 && rs[i].1.len() <= 65000,
    ensures
        read_packets(other_ref_lines(rs) + t) == Seq::new(rs.len(), |i: int|
            Some(hex_encode(rs[i].0) + seq![32u8] + rs[i].1 + seq![10u8])) + read_packets(t),
    decreases rs.len(),
{
    let f = |r: Seq<(Seq<u8>, Seq<u8>)>| Seq::new(r.len(), |i: int|
        Some(hex_encode(r[i].0) + seq![32u8] + r[i].1 + seq![10u8]));
    if rs.len() == 0 {
        assert(other_ref_lines(rs) + t =~= t);
        assert(f(rs) + read_packets(t) =~= read_packets(t));
    } else {
        let init = rs.drop_last();
        let last = rs.last();
        assert forall|i: int| 0 <= i < init.len() implies (#[trigger] init[i]).0.len() == 20 && init[i].1.len() <= 65000 by {
            assert(init[i] == rs[i]);
        }
        let line = ref_line(last.0, last.1);
        assert(line =~= hex_encode(last.0) + seq![32u8] + last.1 + seq![10u8]);
        lemma_read_pkt_line(line, t);
        lemma_read_other_lines(init, pkt_line(line) + t);
        assert(other_ref_lines(rs) + t =~= other_ref_lines(init) + (pkt_line(line) + t));
        assert(f(init) + (seq![Some(line)] + read_packets(t)) =~= f(rs) + read_packets(t));
    }
}

/// The texts of the advertisement's fixed lines.
proof fn lemma_advertisement_texts()
    ensures
        comment_content(service_comment()) == encode_utf8("# service=git-upload-pack\n"@),
        comment_content(service_comment()).len() < 100,
        caps() == encode_utf8(CAPABILITIES@),
        caps().len() == 41,
        no_refs_line() == encode_utf8("0000000000000000000000000000000000000000 capabilities^{}"@)
            + seq![0u8] + encode_utf8(CAPABILITIES@) + seq![10u8],
        no_refs_line().len() < 200,
{
    reveal_strlit("service=git-upload-pack");
    reveal_strlit("# service=git-upload-pack\n");
    reveal_strlit("thin-pack side-band-64k ofs-delta shallow");
    reveal_strlit("0000000000000000000000000000000000000000");
    reveal_strlit(" capabilities^{}");
    reveal_strlit("0000000000000000000000000000000000000000 capabilities^{}");
    vstd::utf8::is_ascii_chars_encode_utf8("service=git-upload-pack"@);
    vstd::utf8::is_ascii_chars_encode_utf8("# service=git-upload-pack\n"@);
    vstd::utf8::is_ascii_chars_encode_utf8(CAPABILITIES@);
    vstd::utf8::is_ascii_chars_encode_utf8(ZERO_OID@);
    vstd::utf8::is_ascii_chars_encode_utf8(" capabilities^{}"@);
    vstd::utf8::is_ascii_chars_encode_utf8("0000000000000000000000000000000000000000 capabilities^{}"@);
    assert(comment_content(service_comment()) =~= encode_utf8("# service=git-upload-pack\n"@));
    assert(no_refs_line() =~= encode_utf8("0000000000000000000000000000000000000000 capabilities^{}"@)
        + seq![0u8] + encode_utf8(CAPABILITIES@) + seq![10u8]);
}

/// The ref lines read back, one per ref in order.
#[verifier::spinoff_prover]
proof fn lemma_advertised_ref_lines(refs: Seq<(Seq<u8>, Seq<u8>)>)
    requires
        refs.len() > 0,
        forall|i: int| 0 <= i < refs.len() ==> (#[trigger] refs[i]).0.len() == 20 && refs[i].1.len() <= 65000,
    ensures
        ({
            let ls = read_packets(advertisement(refs));
            &&& ls.len() == refs.len() + 3
            &&& ls[0] == Some(comment_content(service_comment()))
            &&& ls[1] is None
            &&& ls[2] == Some(hex_encode(refs[0].0) + seq![32u8] + refs[0].1 + seq![0u8] + caps() + seq![10u8])
            &&& forall|i: int| 1 <= i < refs.len() ==> #[trigger] ls[i + 2]
                == Some(hex_encode(refs[i].0) + seq![32u8] + refs[i].1 + seq![10u8])
            &&& ls[refs.len() + 2int] is None
        }),
{
    lemma_advertisement_texts();
    lemma_read_empty();
    let header = comment_content(service_comment());
    let tail = flush_packet();
    lemma_read_flush(seq![]);
    assert(flush_packet() + seq![] =~= flush_packet());
    let a = advertisement(refs);
    let rest = refs.subrange(1, refs.len() as int);
    assert forall|i: int| 0 <= i < rest.len() implies (#[trigger] rest[i]).0.len() == 20 && rest[i].1.len() <= 65000 by {
        assert(rest[i] == refs[i + 1]);
    }
    let first = first_ref_line(refs[0].0, refs[0].1);
    assert(refs[0].0.len() == 20);
    lemma_read_other_lines(rest, tail);
    lemma_read_pkt_line(first, other_ref_lines(rest) + tail);
    lemma_read_flush(pkt_line(first) + (other_ref_lines(rest) + tail));
    lemma_read_pkt_line(header, flush_packet() + (pkt_line(first) + (other_ref_lines(rest) + tail)));
    assert(a =~= pkt_line(header) + (flush_packet() + (pkt_line(first) + (other_ref_lines(rest) + tail))));
    let ls = read_packets(a);
    let lines = Seq::new(rest.len(), |i: int|
        Some(hex_encode(rest[i].0) + seq![32u8] + rest[i].1 + seq![10u8]));
    assert(ls == seq![Some(header)] + (seq![None] + (seq![Some(first)] + (lines + seq![None]))));
    assert forall|i: int| 1 <= i < refs.len() implies #[trigger] ls[i + 2]
        == Some(hex_encode(refs[i].0) + seq![32u8] + refs[i].1 + seq![10u8]) by {
        assert(ls[i + 2] == lines[i - 1]);
        assert(rest[i - 1] == refs[i]);
    }
    assert(first =~= hex_encode(refs[0].0) + seq![32u8] + refs[0].1 + seq![0u8] + caps() + seq![10u8]);
}

/// Read back as pkt-lines, the advertisement is: the service line, a flush,
/// then one line per ref in order, each carrying that same ref's id in hex
/// and its name (the first also the capabilities after a NUL byte; with no
/// refs, the zero id and `capabilities^{}`), and a final flush.
pub proof fn lemma_advertised_lines(refs: Seq<(Seq<u8>, Seq<u8>)>)
    requires
        forall|i: int| 0 <= i < refs.len() ==> (#[trigger] refs[i]).0.len() == 20 && refs[i].1.len() <= 65000,
    ensures
        ({
            let ls = read_packets(advertisement(refs));
            &&& ls[0] == Some(encode_utf8("# service=git-upload-pack\n"@))
            &&& ls[1] is None
            &&& refs.len() == 0 ==> ls.len() == 4
                && ls[2] == Some(encode_utf8("0000000000000000000000000000000000000000 capabilities^{}"@)
                    + seq![0u8] + encode_utf8(CAPABILITIES@) + seq![10u8])
                && ls[3] is None
            &&& refs.len() > 0 ==> ls.len() == refs.len() + 3
                && ls[2] == Some(hex_encode(refs[0].0) + seq![32u8] + refs[0].1 + seq![0u8]
                    + encode_utf8(CAPABILITIES@) + seq![10u8])
                && (forall|i: int| 1 <= i < refs.len() ==> #[trigger] ls[i + 2]
                    == Some(hex_encode(refs[i].0) + seq![32u8] + refs[i].1 + seq![10u8]))
                && ls[refs.len() + 2int] is None
        }),
{
    lemma_advertisement_texts();
    if refs.len() == 0 {
        lemma_read_empty();
        let header = comment_content(service_comment());
        let tail = flush_packet();
        lemma_read_flush(seq![]);
        assert(flush_packet() + seq![] =~= flush_packet());
        let l = no_refs_line();
        lemma_read_pkt_line(l, tail);
        lemma_read_flush(pkt_line(l) + tail);
        lemma_read_pkt_line(header, flush_packet() + (pkt_line(l) + tail));
        assert(advertisement(refs) =~= pkt_line(header) + (flush_packet() + (pkt_line(l) + tail)));
    } else {
        lemma_advertised_ref_lines(refs);
    }
}

} // verus!
