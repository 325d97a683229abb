//! The pack stream of an upload-pack response: object entry headers, the
//! side-band-64k framing of pack data, and the streaming pack writer.
use vstd::prelude::*;
use sha1::Digest;
use crate::bytes_util::append_bytes;
use crate::pktline::{hex_digits, push_hex_digits, flush_packet, pkt_line, pow16, lemma_hex_digits_shape};
use crate::request::{hex_number, lemma_hex_digits_value};

verus! {

/// The largest payload of one side-band-64k frame: 65520 - 4 (prefix) - 1 (band).
pub const MAX_DATA_PER_FRAME: usize = 65515;

/// The kinds of Git objects that a pack carries.
#[derive(Clone, Copy, Debug)]
pub enum ObjectKind {
    Commit,
    Tree,
    Blob,
    Tag,
}

/// The pack type number of an object kind.
pub open spec fn type_number(kind: ObjectKind) -> u8 {
    match kind {
        ObjectKind::Commit => 1,
        ObjectKind::Tree => 2,
        ObjectKind::Blob => 3,
        ObjectKind::Tag => 4,
    }
}

/// Map an object kind to its pack type number.
pub fn object_type_number(kind: ObjectKind) -> (r: u8)
    ensures
        r == type_number(kind),
{
    match kind {
        ObjectKind::Commit => 1,
        ObjectKind::Tree => 2,
        ObjectKind::Blob => 3,
        ObjectKind::Tag => 4,
    }
}

/// The continuation bytes that carry `n` in 7-bit groups, low group first;
/// each byte but the last has its top bit set.
pub open spec fn size_tail(n: nat) -> Seq<u8>
    decreases n,
{
    if n == 0 {
        seq![]
    } else {
        let rest = n / 128;
        seq![(if rest > 0 { n % 128 + 128 } else { n % 128 }) as u8] + size_tail(rest)
    }
}

/// The first byte of an entry header: the type in bits 4-6 (as `t << 4`
/// truncated to a byte), the low four size bits, and the continuation bit
/// when more size bits follow.
pub open spec fn header_first_byte(t: u8, size: nat) -> u8 {
    let base = ((t << 4u8) | ((size % 16) as u8)) as u8;
    if size / 16 > 0 {
        (base | 0x80u8) as u8
    } else {
        base
    }
}

/// The variable-length header of a pack entry of type `t` and `size` bytes.
pub open spec fn pack_object_header(t: u8, size: nat) -> Seq<u8> {
    seq![header_first_byte(t, size)] + size_tail(size / 16)
}

/// Encode the variable-length pack object header.
///
/// Format: first byte = MSB continuation + 3-bit type + 4-bit size
/// Subsequent bytes: 7-bit size chunks with MSB continuation
pub fn encode_pack_object_header(obj_type: u8, size: usize) -> (r: Vec<u8>)
    ensures
        r@ == pack_object_header(obj_type, size as nat),
{
    let mut header: Vec<u8> = Vec::new();
    let low: u8 = (size % 16) as u8;
    let mut byte: u8 = (obj_type << 4u8) | low;
    let mut remaining: usize = size / 16;
    if remaining > 0 {
        byte = byte | 0x80u8;
        header.push(byte);
        assert(header@ == seq![header_first_byte(obj_type, size as nat)]);
        while remaining > 0
            invariant
                header@ + size_tail(remaining as nat) == pack_object_header(obj_type, size as nat),
            decreases remaining,
        {
            let rest: usize = remaining / 128;
            let mut b: u8 = (remaining % 128) as u8;
            if rest > 0 {
                b = b + 128;
            }
            let ghost before = header@;
            header.push(b);
            proof {
                assert(size_tail(remaining as nat) == seq![b] + size_tail(rest as nat));
                assert(before + size_tail(remaining as nat) =~= header@ + size_tail(rest as nat));
            }
            remaining = rest;
        }
        assert(size_tail(0) =~= Seq::<u8>::empty());
        assert(header@ =~= header@ + size_tail(0));
    } else {
        header.push(byte);
        assert(size_tail(0) =~= Seq::<u8>::empty());
        assert(header@ =~= pack_object_header(obj_type, size as nat));
    }
    header
}

/// One side-band-64k frame on band 1 carrying `chunk`.
pub open spec fn sideband_frame(chunk: Seq<u8>) -> Seq<u8> {
    hex_digits((chunk.len() + 5) as nat, 4) + seq![1u8] + chunk
}

/// Pack data split into side-band-64k frames on band 1, each carrying at
/// most 65515 bytes (the last frame may carry fewer).
pub open spec fn sideband(data: Seq<u8>) -> Seq<u8>
    decreases data.len(),
{
    if data.len() == 0 {
        seq![]
    } else {
        let n = if data.len() < 65515 { data.len() as int } else { 65515 };
        sideband_frame(data.subrange(0, n)) + sideband(data.subrange(n, data.len() as int))
    }
}

/// Frame pack data in side-band-64k (band 1 = pack data).
pub fn sideband_frames(data: &[u8]) -> (r: Vec<u8>)
    ensures
        r@ == sideband(data@),
{
    let mut out: Vec<u8> = Vec::new();
    let mut pos: usize = 0;
    assert(data@.subrange(0, data@.len() as int) =~= data@);
    while pos < data.len()
        invariant
            pos <= data.len(),
            out@ + sideband(data@.subrange(pos as int, data@.len() as int)) == sideband(data@),
        decreases data.len() - pos,
    {
        let left = data.len() - pos;
        let n: usize = if left < MAX_DATA_PER_FRAME { left } else { MAX_DATA_PER_FRAME };
        let chunk = &data[pos..pos + n];
        let ghost before = out@;
        let ghost tail = data@.subrange(pos as int, data@.len() as int);
        push_hex_digits(&mut out, n + 5, 4);
        out.push(1u8);
        append_bytes(&mut out, chunk);
        proof {
            assert(tail.subrange(0, n as int) =~= chunk@);
            assert(tail.subrange(n as int, tail.len() as int) =~= data@.subrange(pos + n, data@.len() as int));
            assert(out@ =~= before + sideband_frame(chunk@));
            assert(sideband(tail) == sideband_frame(chunk@) + sideband(tail.subrange(n as int, tail.len() as int)));
            assert(before + sideband(tail) =~= out@ + sideband(data@.subrange(pos + n, data@.len() as int)));
        }
        pos = pos + n;
    }
    proof {
        assert(data@.subrange(pos as int, data@.len() as int) =~= Seq::<u8>::empty());
        assert(out@ + Seq::<u8>::empty() =~= out@);
    }
    out
}


#[verifier::external_type_specification]
#[verifier::external_body]
pub struct ExSha1(sha1::Sha1);

/// The bytes that a `sha1::Sha1` hasher has absorbed since it was created.
pub uninterp spec fn sha1_absorbed(h: sha1::Sha1) -> Seq<u8>;

/// The SHA-1 digest of a byte sequence.
pub uninterp spec fn sha1_digest(data: Seq<u8>) -> Seq<u8>;

/// The zlib stream that `miniz_oxide` produces for `data` at compression `level`.
pub uninterp spec fn zlib_compress(data: Seq<u8>, level: u8) -> Seq<u8>;

/// `<sha1::Sha1 as Digest>::new`: a hasher that has absorbed nothing.
#[verifier::external_body]
fn sha1_new() -> (h: sha1::Sha1)
    ensures
        sha1_absorbed(h) == Seq::<u8>::empty(),
{
    <sha1::Sha1 as Digest>::new()
}

/// `Digest::update`: the hasher absorbs `data` after what it held.
#[verifier::external_body]
fn sha1_update(h: &mut sha1::Sha1, data: &[u8])
    ensures
        sha1_absorbed(*final(h)) == sha1_absorbed(*old(h)) + data@,
{
    h.update(data);
}

/// `Digest::finalize`: the 20-byte SHA-1 digest of everything absorbed.
#[verifier::external_body]
fn sha1_finalize(h: sha1::Sha1) -> (r: Vec<u8>)
    ensures
        r@ == sha1_digest(sha1_absorbed(h)),
        r@.len() == 20,
{
    h.finalize().to_vec()
}

/// `miniz_oxide::deflate::compress_to_vec_zlib`: the zlib-wrapped deflate
/// stream of `data` at `level` (0-10).
#[verifier::external_body]
fn zlib_deflate(data: &[u8], level: u8) -> (r: Vec<u8>)
    requires
        level <= 10,
    ensures
        r@ == zlib_compress(data@, level),
{
    miniz_oxide::deflate::compress_to_vec_zlib(data, level)
}

/// A big-endian 32-bit number.
pub open spec fn be32(v: u32) -> Seq<u8> {
    seq![
        (v / 16777216) as u8,
        ((v / 65536) % 256) as u8,
        ((v / 256) % 256) as u8,
        (v % 256) as u8,
    ]
}

/// The pack header: `PACK`, version 2, and the object count.
pub open spec fn pack_header(count: u32) -> Seq<u8> {
    seq![80u8, 65u8, 67u8, 75u8] + be32(2) + be32(count)
}

/// One pack entry: its header and the zlib stream (level 6) of the object.
pub open spec fn pack_entry(t: u8, data: Seq<u8>) -> Seq<u8> {
    pack_object_header(t, data.len()) + zlib_compress(data, 6)
}

/// The concatenation of byte sequences.
pub open spec fn concat(parts: Seq<Seq<u8>>) -> Seq<u8>
    decreases parts.len(),
{
    if parts.len() == 0 {
        seq![]
    } else {
        concat(parts.drop_last()) + parts.last()
    }
}

/// The NAK pkt-line content.
pub open spec fn nak_content() -> Seq<u8> {
    seq![78u8, 65u8, 75u8, 10u8]
}

fn be32_bytes(out: &mut Vec<u8>, v: u32)
    ensures
        final(out)@ == old(out)@ + be32(v),
{
    out.push((v / 16777216) as u8);
    out.push(((v / 65536) % 256) as u8);
    out.push(((v / 256) % 256) as u8);
    out.push((v % 256) as u8);
}

const NAK: [u8; 4] = [78u8, 65u8, 75u8, 10u8];

/// The `NAK` pkt-line that opens the response when no common commit is
/// acknowledged.
pub fn nak_line() -> (r: Vec<u8>)
    ensures
        r@ == pkt_line(nak_content()),
{
    assert(NAK@ == nak_content());
    crate::pktline::encode(NAK.as_slice())
}

/// Writes a pack as a stream of side-band-64k frames while hashing the raw
/// pack bytes, one object at a time.
pub struct PackWriter {
    hasher: sha1::Sha1,
    count: Ghost<u32>,
    entries: Ghost<Seq<Seq<u8>>>,
}

impl PackWriter {
    /// The object count that the header announced.
    pub closed spec fn announced(&self) -> u32 {
        self.count@
    }

    /// The entries written so far.
    pub closed spec fn written(&self) -> Seq<Seq<u8>> {
        self.entries@
    }

    /// The raw pack bytes so far (the hasher holds exactly these).
    pub closed spec fn wf(&self) -> bool {
        sha1_absorbed(self.hasher) == pack_header(self.count@) + concat(self.entries@)
    }

    /// Starts a pack of `object_count` objects: the writer, and the framed
    /// pack header to send (the count is written modulo 2^32).
    pub fn begin(object_count: usize) -> (r: (PackWriter, Vec<u8>))
        ensures
            r.0.wf(),
            r.0.announced() == object_count as u32,
            r.0.written() == Seq::<Seq<u8>>::empty(),
            r.1@ == sideband(pack_header(object_count as u32)),
    {
        let count: u32 = object_count as u32;
        let mut header: Vec<u8> = Vec::new();
        header.push(80u8);
        header.push(65u8);
        header.push(67u8);
        header.push(75u8);
        be32_bytes(&mut header, 2);
        be32_bytes(&mut header, count);
        let mut hasher = sha1_new();
        sha1_update(&mut hasher, header.as_slice());
        let frames = sideband_frames(header.as_slice());
        let w = PackWriter { hasher, count: Ghost(count), entries: Ghost(Seq::empty()) };
        proof {
            assert(header@ =~= pack_header(count));
            assert(concat(Seq::<Seq<u8>>::empty()) =~= Seq::<u8>::empty());
            assert(pack_header(count) + Seq::<u8>::empty() =~= pack_header(count));
        }
        (w, frames)
    }

    /// Adds one object: its entry is hashed and returned framed.
    pub fn add_object(&mut self, kind: ObjectKind, data: &[u8]) -> (r: Vec<u8>)
        requires
            old(self).wf(),
        ensures
            final(self).wf(),
            final(self).announced() == old(self).announced(),
            final(self).written() == old(self).written().push(pack_entry(type_number(kind), data@)),
            r@ == sideband(pack_entry(type_number(kind), data@)),
    {
        let t = object_type_number(kind);
        let obj_header = encode_pack_object_header(t, data.len());
        let compressed = zlib_deflate(data, 6);
        sha1_update(&mut self.hasher, obj_header.as_slice());
        sha1_update(&mut self.hasher, compressed.as_slice());
        let mut obj_bytes: Vec<u8> = Vec::new();
        append_bytes(&mut obj_bytes, obj_header.as_slice());
        append_bytes(&mut obj_bytes, compressed.as_slice());
        let ghost entry = pack_entry(t, data@);
        proof {
            assert(obj_bytes@ =~= entry);
            let old_entries = self.entries@;
            let new_entries = old_entries.push(entry);
            assert(new_entries.drop_last() =~= old_entries);
            assert(concat(new_entries) == concat(old_entries) + entry);
        }
        self.entries = Ghost(self.entries@.push(entry));
        proof {
            assert(sha1_absorbed(self.hasher) =~= pack_header(self.count@) + concat(self.entries@));
        }
        sideband_frames(obj_bytes.as_slice())
    }

    /// Ends the pack: the framed SHA-1 checksum of the raw pack bytes,
    /// followed by a flush packet.
    pub fn finish(self) -> (r: Vec<u8>)
        requires
            self.wf(),
        ensures
            r@ == sideband(sha1_digest(pack_header(self.announced()) + concat(self.written())))
                + flush_packet(),
    {
        let checksum = sha1_finalize(self.hasher);
        let mut out = sideband_frames(checksum.as_slice());
        append_bytes(&mut out, crate::pktline::flush());
        out
    }
}


/// The pack data carried by a run of side-band frames: each frame's four
/// hexadecimal length digits give its size, its fifth byte is the band, the
/// rest is data; reading stops at a flush packet or at anything that is not
/// a whole frame.
pub open spec fn deframe(s: Seq<u8>) -> Seq<u8>
    decreases s.len(),
{
    if s.len() < 5 {
        seq![]
    } else {
        let n = hex_number(s.subrange(0, 4));
        if n < 5 || n > s.len() {
            seq![]
        } else {
            s.subrange(5, n as int) + deframe(s.subrange(n as int, s.len() as int))
        }
    }
}

/// Reading side-band frames back gives the framed data, then whatever the
/// frames that follow carry.
pub proof fn lemma_deframe_sideband(a: Seq<u8>, t: Seq<u8>)
    ensures
        deframe(sideband(a) + t) == a + deframe(t),
    decreases a.len(),
{
    if a.len() == 0 {
        assert(sideband(a) + t =~= t);
        assert(a + deframe(t) =~= deframe(t));
    } else {
        let n = if a.len() < 65515 { a.len() as int } else { 65515 };
        let chunk = a.subrange(0, n);
        let rest = a.subrange(n, a.len() as int);
        lemma_deframe_sideband(rest, t);
        let len = (n + 5) as nat;
        reveal_with_fuel(pow16, 5);
        lemma_hex_digits_shape(len, 4);
        lemma_hex_digits_value(len, 4);
        let frame = sideband_frame(chunk);
        assert(frame.len() == n + 5);
        let s = sideband(a) + t;
        assert(sideband(a) == frame + sideband(rest));
        assert(s =~= frame + (sideband(rest) + t));
        assert(s.subrange(0, 4) =~= hex_digits(len, 4));
        assert(s.subrange(5, n + 5) =~= chunk);
        assert(s.subrange(n + 5, s.len() as int) =~= sideband(rest) + t);
        assert(chunk + rest =~= a);
        assert(chunk + (rest + deframe(t)) =~= a + deframe(t));
    }
}

/// Each entry framed by itself, in order.
pub open spec fn framed(entries: Seq<Seq<u8>>) -> Seq<u8>
    decreases entries.len(),
{
    if entries.len() == 0 {
        seq![]
    } else {
        framed(entries.drop_last()) + sideband(entries.last())
    }
}

proof fn lemma_deframe_framed(es: Seq<Seq<u8>>, t: Seq<u8>)
    ensures
        deframe(framed(es) + t) == concat(es) + deframe(t),
    decreases es.len(),
{
    if es.len() == 0 {
        assert(framed(es) + t =~= t);
        assert(concat(es) + deframe(t) =~= deframe(t));
    } else {
        let init = es.drop_last();
        lemma_deframe_sideband(es.last(), t);
        lemma_deframe_framed(init, sideband(es.last()) + t);
        assert(framed(es) + t =~= framed(init) + (sideband(es.last()) + t));
        assert(concat(es) + deframe(t) =~= concat(init) + (es.last() + deframe(t)));
    }
}

/// The flush packet carries no pack data.
proof fn lemma_deframe_flush()
    ensures
        deframe(flush_packet()) == Seq::<u8>::empty(),
{
    reveal_with_fuel(hex_number, 5);
    let z = flush_packet();
    assert(z.subrange(0, 4) =~= z);
    assert(z.drop_last() =~= seq![48u8, 48u8, 48u8]);
    assert(z.drop_last().drop_last() =~= seq![48u8, 48u8]);
    assert(z.drop_last().drop_last().drop_last() =~= seq![48u8]);
    assert(seq![48u8].drop_last() =~= Seq::<u8>::empty());
}

/// The pack data that the writer's frames carry — the header, every entry,
/// and the checksum, up to the final flush — is the raw pack: the header,
/// the entries in the order they were added, and the SHA-1 of the two.
pub proof fn lemma_pack_stream(count: u32, entries: Seq<Seq<u8>>)
    ensures
        deframe(
            sideband(pack_header(count)) + framed(entries)
                + sideband(sha1_digest(pack_header(count) + concat(entries))) + flush_packet(),
        ) == pack_header(count) + concat(entries) + sha1_digest(pack_header(count) + concat(entries)),
{
    let h = pack_header(count);
    let d = sha1_digest(h + concat(entries));
    lemma_deframe_flush();
    lemma_deframe_sideband(d, flush_packet());
    lemma_deframe_framed(entries, sideband(d) + flush_packet());
    lemma_deframe_sideband(h, framed(entries) + (sideband(d) + flush_packet()));
    assert(sideband(h) + framed(entries) + sideband(d) + flush_packet()
        =~= sideband(h) + (framed(entries) + (sideband(d) + flush_packet())));
    assert(d + Seq::<u8>::empty() =~= d);
    assert(h + (concat(entries) + d) =~= h + concat(entries) + d);
}


/// A complete pack: a header announcing as many objects as there are
/// entries, the entries, and the SHA-1 of everything before it.
pub open spec fn pack_bytes(entries: Seq<Seq<u8>>) -> Seq<u8> {
    let body = pack_header(entries.len() as u32) + concat(entries);
    body + sha1_digest(body)
}

/// When the writer has written as many entries as its header announced,
/// the frames it produced (header, each entry, checksum, flush) carry a
/// complete pack of exactly those entries.
pub proof fn lemma_complete_pack(w: PackWriter)
    requires
        w.wf(),
        w.written().len() == w.announced(),
    ensures
        deframe(
            sideband(pack_header(w.announced())) + framed(w.written())
                + sideband(sha1_digest(pack_header(w.announced()) + concat(w.written())))
                + flush_packet(),
        ) == pack_bytes(w.written()),
{
    lemma_pack_stream(w.announced(), w.written());
    assert(w.written().len() as u32 == w.announced());
}

/// The number that continuation bytes carry, low 7-bit group first.
pub open spec fn size_tail_value(t: Seq<u8>) -> nat
    decreases t.len(),
{
    if t.len() == 0 {
        0
    } else {
        (t[0] % 128) as nat + 128 * size_tail_value(t.drop_first())
    }
}

proof fn lemma_size_tail(n: nat)
    ensures
        size_tail_value(size_tail(n)) == n,
        n > 0 ==> size_tail(n).len() > 0,
        forall|i: int| 0 <= i < size_tail(n).len() ==>
            ((#[trigger] size_tail(n)[i]) >= 128 <==> i < size_tail(n).len() - 1),
    decreases n,
{
    if n > 0 {
        let rest = n / 128;
        lemma_size_tail(rest);
        let b = (if rest > 0 { n % 128 + 128 } else { n % 128 }) as u8;
        let t = size_tail(n);
        assert(t == seq![b] + size_tail(rest));
        assert(t.drop_first() =~= size_tail(rest));
        assert(t[0] == b);
        assert(b % 128 == n % 128);
        assert(n == n % 128 + 128 * rest);
        assert forall|i: int| 0 <= i < t.len() implies ((#[trigger] t[i]) >= 128 <==> i < t.len() - 1) by {
            if i > 0 {
                assert(t[i] == size_tail(rest)[i - 1]);
            } else {
                if rest > 0 {
                    assert(size_tail(rest).len() > 0);
                } else {
                    assert(size_tail(rest) =~= Seq::<u8>::empty());
                }
            }
        }
    }
}

/// The number of binary digits of `n` (0 for 0).
pub open spec fn bit_length(n: nat) -> nat
    decreases n,
{
    if n == 0 {
        0
    } else {
        1 + bit_length(n / 2)
    }
}

/// `2^k`
pub open spec fn two_to(k: nat) -> nat
    decreases k,
{
    if k == 0 {
        1
    } else {
        2 * two_to((k - 1) as nat)
    }
}

proof fn lemma_bit_length_bound(n: nat, k: nat)
    requires
        n < two_to(k),
    ensures
        bit_length(n) <= k,
    decreases k,
{
    if n > 0 {
        assert(k > 0);
        lemma_bit_length_bound(n / 2, (k - 1) as nat);
    }
}

proof fn lemma_bit_length_div16(n: nat)
    requires
        n >= 16,
    ensures
        bit_length(n / 16) + 4 == bit_length(n),
{
    let a = n / 2;
    let b = a / 2;
    let c = b / 2;
    let d = c / 2;
    assert(d == n / 16);
    assert(bit_length(n) == 1 + bit_length(a));
    assert(bit_length(a) == 1 + bit_length(b));
    assert(bit_length(b) == 1 + bit_length(c));
    assert(bit_length(c) == 1 + bit_length(d));
}

proof fn lemma_bit_length_div128(n: nat)
    requires
        n >= 128,
    ensures
        bit_length(n / 128) + 7 == bit_length(n),
{
    let a = n / 2;
    let b = a / 2;
    let c = b / 2;
    let d = c / 2;
    let e = d / 2;
    let f = e / 2;
    let g = f / 2;
    assert(g == n / 128);
    assert(bit_length(n) == 1 + bit_length(a));
    assert(bit_length(a) == 1 + bit_length(b));
    assert(bit_length(b) == 1 + bit_length(c));
    assert(bit_length(c) == 1 + bit_length(d));
    assert(bit_length(d) == 1 + bit_length(e));
    assert(bit_length(e) == 1 + bit_length(f));
    assert(bit_length(f) == 1 + bit_length(g));
}

proof fn lemma_size_tail_len(m: nat)
    ensures
        size_tail(m).len() == (bit_length(m) + 6) / 7,
        m > 0 ==> size_tail(m).last() != 0,
    decreases m,
{
    if m > 0 {
        let rest = m / 128;
        lemma_size_tail_len(rest);
        let b = (if rest > 0 { m % 128 + 128 } else { m % 128 }) as u8;
        let t = size_tail(m);
        assert(t == seq![b] + size_tail(rest));
        if rest > 0 {
            lemma_bit_length_div128(m);
            assert(t.last() == size_tail(rest).last());
        } else {
            reveal_with_fuel(two_to, 8);
            lemma_bit_length_bound(m, 7);
            assert(size_tail(rest) =~= Seq::<u8>::empty());
            assert(t.last() == b);
        }
    }
}

/// The length of an entry header: one byte for a size below 16, else one
/// byte more for every started group of seven size bits beyond the first
/// four; a longer header never ends in a zero byte, and for a 64-bit size
/// it takes at most ten bytes.
pub proof fn lemma_object_header_length(t: u8, size: nat)
    ensures
        pack_object_header(t, size).len() == if size < 16 {
            1
        } else {
            1 + (bit_length(size) - 4 + 6) / 7
        },
        pack_object_header(t, size).len() > 1 ==> pack_object_header(t, size).last() != 0,
        size < 0x1_0000_0000_0000_0000 ==> pack_object_header(t, size).len() <= 10,
{
    let h = pack_object_header(t, size);
    lemma_size_tail_len(size / 16);
    if size < 16 {
        assert(size_tail(size / 16) =~= Seq::<u8>::empty());
    } else {
        lemma_bit_length_div16(size);
        assert(h.last() == size_tail(size / 16).last());
    }
    if size < 0x1_0000_0000_0000_0000 {
        reveal_with_fuel(two_to, 65);
        lemma_bit_length_bound(size, 64);
    }
}

/// An entry header reads back: for a 3-bit type, bits 4-6 of the first byte
/// are the type, its low four bits and the continuation bytes give the size,
/// and exactly the bytes before the last carry the continuation bit.
pub proof fn lemma_object_header_roundtrip(t: u8, size: nat)
    requires
        t < 8,
    ensures
        ({
            let h = pack_object_header(t, size);
            &&& (h[0] / 16) % 8 == t
            &&& size == (h[0] % 16) as nat + 16 * size_tail_value(h.drop_first())
            &&& forall|i: int| 0 <= i < h.len() ==> ((#[trigger] h[i]) >= 128 <==> i < h.len() - 1)
        }),
{
    let h = pack_object_header(t, size);
    let low = (size % 16) as u8;
    let base = ((t << 4u8) | low) as u8;
    assert(base == t * 16 + low) by (bit_vector)
        requires
            t < 8,
            low < 16,
            base == ((t << 4u8) | low) as u8;
    let tail = size_tail(size / 16);
    lemma_size_tail(size / 16);
    assert(h.drop_first() =~= tail);
    assert(h[0] == header_first_byte(t, size));
    if size / 16 > 0 {
        let first = (base | 0x80u8) as u8;
        assert(first == base + 128) by (bit_vector)
            requires
                base < 128,
                first == (base | 0x80u8) as u8;
        assert(h[0] == first);
    } else {
        assert(tail =~= Seq::<u8>::empty());
        assert(h[0] == base);
    }
    assert(size == size % 16 + 16 * (size / 16));
    assert forall|i: int| 0 <= i < h.len() implies ((#[trigger] h[i]) >= 128 <==> i < h.len() - 1) by {
        if i > 0 {
            assert(h[i] == tail[i - 1]);
        }
    }
}

} // verus!
