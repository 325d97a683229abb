//! Parsing of the pkt-line encoded body of an upload-pack request.
use vstd::prelude::*;
use vstd::utf8::*;
use vstd::string::StringSliceAdditionalSpecFns;
use crate::bytes_util::{bytes_at, has_at};
use crate::error::{Error, join_str};
use crate::oid::{ObjectId, ids_view, is_hex_digit, hex_value, is_oid_hex, hex_decode, hex_encode};
use crate::pktline::{pow16, hex_digits, hex_digit, pkt_line, lemma_hex_digits_shape};
use crate::text::{str_from_utf8, lemma_utf8_cut, lemma_ascii_prefix_boundary, lemma_str_decode};

verus! {

/// A parsed upload-pack request from a Git client.
#[derive(Debug)]
pub struct UploadPackRequest {
    pub wants: Vec<ObjectId>,
    pub haves: Vec<ObjectId>,
    pub done: bool,
}

/// What parsing a request body comes to.
pub enum RequestOutcome {
    /// The wanted ids, the ids the client has, and whether it said `done`.
    Parsed { wants: Seq<Seq<u8>>, haves: Seq<Seq<u8>>, done: bool },
    /// A protocol error with this message.
    Failed { message: Seq<char> },
    /// The body holds an id field that a string slice cannot be cut at;
    /// slicing it there would abort.
    Panics,
}

/// `0000`
pub open spec fn zeros() -> Seq<u8> {
    seq![48u8, 48u8, 48u8, 48u8]
}

/// `done`
pub open spec fn done_word() -> Seq<u8> {
    seq![100u8, 111u8, 110u8, 101u8]
}

/// `want `
pub open spec fn want_word() -> Seq<u8> {
    seq![119u8, 97u8, 110u8, 116u8, 32u8]
}

/// `have `
pub open spec fn have_word() -> Seq<u8> {
    seq![104u8, 97u8, 118u8, 101u8, 32u8]
}

/// `s` without its trailing newlines.
pub open spec fn trim_newlines(s: Seq<u8>) -> Seq<u8>
    decreases s.len(),
{
    if s.len() > 0 && s.last() == 10u8 {
        trim_newlines(s.drop_last())
    } else {
        s
    }
}

/// Every byte of `s` is a hexadecimal digit.
pub open spec fn all_hex(s: Seq<u8>) -> bool {
    forall|i: int| 0 <= i < s.len() ==> is_hex_digit(#[trigger] s[i])
}

/// The number that the hexadecimal digits `s` denote.
pub open spec fn hex_number(s: Seq<u8>) -> nat
    decreases s.len(),
{
    if s.len() == 0 {
        0
    } else {
        hex_number(s.drop_last()) * 16 + hex_value(s.last()) as nat
    }
}

/// `usize::from_str_radix(s, 16)` on a short text: an optional `+` sign
/// followed by at least one hexadecimal digit.
pub open spec fn radix16_value(s: Seq<u8>) -> Option<nat> {
    if s.len() > 1 && s[0] == 43u8 {
        if all_hex(s.subrange(1, s.len() as int)) {
            Some(hex_number(s.subrange(1, s.len() as int)))
        } else {
            None
        }
    } else if s.len() > 0 && all_hex(s) {
        Some(hex_number(s))
    } else {
        None
    }
}

/// The length of the id field after `want ` or `have `: at most 40 bytes.
pub open spec fn oid_field_len(rest: Seq<u8>) -> int {
    if rest.len() < 40 {
        rest.len() as int
    } else {
        40
    }
}

/// `"invalid pkt-line length prefix"`
pub open spec fn msg_prefix() -> Seq<char> {
    "invalid pkt-line length prefix"@
}

/// `"invalid pkt-line length"`
pub open spec fn msg_length() -> Seq<char> {
    "invalid pkt-line length"@
}

/// `"invalid UTF-8 in pkt-line"`
pub open spec fn msg_utf8() -> Seq<char> {
    "invalid UTF-8 in pkt-line"@
}

/// `"invalid OID in want: "`
pub open spec fn msg_want() -> Seq<char> {
    "invalid OID in want: "@
}

/// `"invalid OID in have: "`
pub open spec fn msg_have() -> Seq<char> {
    "invalid OID in have: "@
}

/// The outcome of reading the id field `rest` of a `want` (or `have`) line:
/// `None` when it cannot be cut, else the id or the error message.
pub open spec fn oid_field(rest: Seq<u8>, lead: Seq<char>) -> Option<Result<Seq<u8>, Seq<char>>> {
    let k = oid_field_len(rest);
    if k < rest.len() && is_continuation_byte(rest[k]) {
        None
    } else {
        let hex = rest.subrange(0, k);
        if is_oid_hex(hex) {
            Some(Ok(hex_decode(hex)))
        } else {
            Some(Err(lead + decode_utf8(hex)))
        }
    }
}

/// The outcome of parsing `body` from offset `pos` on, having collected the
/// given wants, haves and `done` flag so far.
pub open spec fn parse_from(
    body: Seq<u8>,
    pos: int,
    wants: Seq<Seq<u8>>,
    haves: Seq<Seq<u8>>,
    done: bool,
) -> RequestOutcome
    decreases body.len() - pos,
{
    if pos < 0 || pos >= body.len() {
        RequestOutcome::Parsed { wants, haves, done }
    } else if has_at(body, pos, zeros()) {
        parse_from(body, pos + 4, wants, haves, done)
    } else if pos + 4 > body.len() {
        RequestOutcome::Parsed { wants, haves, done }
    } else {
        let prefix = body.subrange(pos, pos + 4);
        if !valid_utf8(prefix) {
            RequestOutcome::Failed { message: msg_prefix() }
        } else {
            match radix16_value(prefix) {
                None => RequestOutcome::Failed { message: msg_length() },
                Some(len) => {
                    if len == 0 {
                        parse_from(body, pos + 4, wants, haves, done)
                    } else if len < 4 || pos + len > body.len() {
                        RequestOutcome::Parsed { wants, haves, done }
                    } else {
                        let payload = body.subrange(pos + 4, pos + len);
                        if !valid_utf8(payload) {
                            RequestOutcome::Failed { message: msg_utf8() }
                        } else {
                            let line = trim_newlines(payload);
                            if line == done_word() {
                                parse_from(body, pos + len, wants, haves, true)
                            } else if has_at(line, 0, want_word()) {
                                match oid_field(line.subrange(5, line.len() as int), msg_want()) {
                                    None => RequestOutcome::Panics,
                                    Some(Err(m)) => RequestOutcome::Failed { message: m },
                                    Some(Ok(id)) => parse_from(body, pos + len, wants.push(id), haves, done),
                                }
                            } else if has_at(line, 0, have_word()) {
                                match oid_field(line.subrange(5, line.len() as int), msg_have()) {
                                    None => RequestOutcome::Panics,
                                    Some(Err(m)) => RequestOutcome::Failed { message: m },
                                    Some(Ok(id)) => parse_from(body, pos + len, wants, haves.push(id), done),
                                }
                            } else {
                                parse_from(body, pos + len, wants, haves, done)
                            }
                        }
                    }
                },
            }
        }
    }
}

/// The outcome of parsing a whole request body.
pub open spec fn request_outcome(body: Seq<u8>) -> RequestOutcome {
    parse_from(body, 0, seq![], seq![], false)
}

/// What an executable parse gives back.
pub enum ParseOutcome {
    Parsed(UploadPackRequest),
    Failed(Error),
    WouldPanic,
}

/// Whether an executable outcome is the one the specification describes.
pub open spec fn outcome_is(r: ParseOutcome, o: RequestOutcome) -> bool {
    match o {
        RequestOutcome::Parsed { wants, haves, done } => {
            &&& r matches ParseOutcome::Parsed(req)
            &&& ids_view(req.wants@) == wants
            &&& ids_view(req.haves@) == haves
            &&& req.done == done
        },
        RequestOutcome::Failed { message } => {
            &&& r matches ParseOutcome::Failed(Error::Protocol(m))
            &&& m@ == message
        },
        RequestOutcome::Panics => r is WouldPanic,
    }
}

const ZEROS: [u8; 4] = [48u8, 48u8, 48u8, 48u8];
const DONE: [u8; 4] = [100u8, 111u8, 110u8, 101u8];
const WANT: [u8; 5] = [119u8, 97u8, 110u8, 116u8, 32u8];
const HAVE: [u8; 5] = [104u8, 97u8, 118u8, 101u8, 32u8];

fn is_hex_byte(b: u8) -> (r: bool)
    ensures
        r == is_hex_digit(b),
{
    (48 <= b && b <= 57) || (65 <= b && b <= 70) || (97 <= b && b <= 102)
}

fn hex_byte_value(b: u8) -> (r: u8)
    requires
        is_hex_digit(b),
    ensures
        r as int == hex_value(b),
        r < 16,
{
    if b <= 57 {
        b - 48
    } else if b <= 70 {
        b - 55
    } else {
        b - 87
    }
}

/// Reads hexadecimal digits; `None` when some byte is not one.
fn read_hex_digits(s: &[u8]) -> (r: Option<usize>)
    requires
        s.len() <= 4,
    ensures
        r is Some <==> all_hex(s@),
        r matches Some(v) ==> v as nat == hex_number(s@),
{
    let mut v: usize = 0;
    let mut i: usize = 0;
    while i < s.len()
        invariant
            i <= s.len() <= 4,
            all_hex(s@.subrange(0, i as int)),
            v as nat == hex_number(s@.subrange(0, i as int)),
            v < pow16(i as nat),
        decreases s.len() - i,
    {
        if !is_hex_byte(s[i]) {
            assert(!all_hex(s@)) by {
                assert(!is_hex_digit(s@[i as int]));
            }
            return None;
        }
        let d = hex_byte_value(s[i]);
        proof {
            assert(s@.subrange(0, i + 1).drop_last() =~= s@.subrange(0, i as int));
            assert(pow16((i + 1) as nat) == 16 * pow16(i as nat));
            assert(pow16(i as nat) <= 4096) by {
                lemma_pow16_small(i as nat);
            }
        }
        v = v * 16 + d as usize;
        i = i + 1;
        assert(all_hex(s@.subrange(0, i as int)));
    }
    assert(s@.subrange(0, s.len() as int) =~= s@);
    Some(v)
}

proof fn lemma_pow16_small(n: nat)
    requires
        n <= 3,
    ensures
        pow16(n) <= 4096,
{
    reveal_with_fuel(pow16, 4);
}

/// The value of a four-byte pkt-line length prefix, as
/// `usize::from_str_radix(prefix, 16)` reads it.
fn length_prefix_value(p: &[u8]) -> (r: Option<usize>)
    requires
        p.len() == 4,
    ensures
        r is Some <==> radix16_value(p@) is Some,
        r matches Some(v) ==> v as nat == radix16_value(p@)->0,
        r matches Some(v) ==> v <= 0xffff,
{
    if p[0] == 43u8 {
        let r = read_hex_digits(&p[1..4]);
        proof {
            assert(p@.subrange(1, 4) =~= p@.subrange(1, p@.len() as int));
            if r is Some {
                lemma_hex_number_bound(p@.subrange(1, 4));
            }
        }
        r
    } else {
        let r = read_hex_digits(p);
        proof {
            if r is Some {
                lemma_hex_number_bound(p@);
            }
        }
        r
    }
}

proof fn lemma_hex_number_bound(s: Seq<u8>)
    requires
        all_hex(s),
        s.len() <= 4,
    ensures
        hex_number(s) < pow16(s.len()),
        hex_number(s) <= 0xffff,
    decreases s.len(),
{
    if s.len() > 0 {
        let t = s.drop_last();
        assert(all_hex(t)) by {
            assert forall|i: int| 0 <= i < t.len() implies is_hex_digit(#[trigger] t[i]) by {
                assert(t[i] == s[i]);
            }
        }
        lemma_hex_number_bound(t);
        assert(is_hex_digit(s[s.len() - 1]));
        assert(0 <= hex_value(s.last()) < 16);
    }
    lemma_pow16_small_all(s.len());
}

proof fn lemma_pow16_small_all(n: nat)
    requires
        n <= 4,
    ensures
        pow16(n) <= 65536,
{
    reveal_with_fuel(pow16, 5);
}

/// The length of `s` once its trailing newlines are dropped.
fn trimmed_len(s: &[u8]) -> (t: usize)
    ensures
        t <= s.len(),
        trim_newlines(s@) == s@.subrange(0, t as int),
        t < s.len() ==> s@[t as int] == 10u8,
{
    let mut t = s.len();
    assert(s@.subrange(0, t as int) =~= s@);
    while t > 0 && s[t - 1] == 10u8
        invariant
            t <= s.len(),
            trim_newlines(s@) == trim_newlines(s@.subrange(0, t as int)),
            t < s.len() ==> s@[t as int] == 10u8,
        decreases t,
    {
        assert(s@.subrange(0, t as int).drop_last() =~= s@.subrange(0, t - 1));
        t = t - 1;
    }
    t
}


/// The id field of a `want ` (when `is_want`) or `have ` line.
fn read_oid_field(line: &[u8], is_want: bool) -> (r: Option<Result<ObjectId, Error>>)
    requires
        valid_utf8(line@),
        has_at(line@, 0, want_word()) || has_at(line@, 0, have_word()),
    ensures
        match oid_field(line@.subrange(5, line@.len() as int), if is_want { msg_want() } else { msg_have() }) {
            None => r is None,
            Some(Ok(id)) => r matches Some(Ok(o)) && o@ == id,
            Some(Err(m)) => r matches Some(Err(Error::Protocol(s))) && s@ == m,
        },
{
    let rest = &line[5..line.len()];
    let k: usize = if rest.len() < 40 { rest.len() } else { 40 };
    if k < rest.len() && rest[k] >= 0x80u8 && rest[k] <= 0xbfu8 {
        return None;
    }
    let hex = &rest[0..k];
    match ObjectId::from_hex(hex) {
        Some(id) => Some(Ok(id)),
        None => {
            proof {
                assert forall|i: int| 0 <= i < 5 implies line@[i] < 128 by {
                    if has_at(line@, 0, want_word()) {
                        assert(line@.subrange(0, 5)[i] == want_word()[i]);
                    } else {
                        assert(line@.subrange(0, 5)[i] == have_word()[i]);
                    }
                }
                lemma_ascii_prefix_boundary(line@, 5);
                vstd::utf8::valid_utf8_split(line@, 5);
                lemma_utf8_cut(rest@, k as int);
            }
            match str_from_utf8(hex) {
                Some(text) => {
                    proof {
                        lemma_str_decode(text);
                    }
                    let lead = if is_want { "invalid OID in want: " } else { "invalid OID in have: " };
                    Some(Err(Error::Protocol(join_str(lead, text))))
                },
                None => None,
            }
        },
    }
}

impl UploadPackRequest {
    /// Parses a pkt-line encoded upload-pack request body, and tells apart the
    /// bodies on which slicing an id field would abort.
    ///
    /// The body contains `want <oid> [capabilities]` lines, flush packets,
    /// optional `have <oid>` lines and `done`.
    pub fn inspect(body: &[u8]) -> (r: ParseOutcome)
        ensures
            outcome_is(r, request_outcome(body@)),
    {
        let mut wants: Vec<ObjectId> = Vec::new();
        let mut haves: Vec<ObjectId> = Vec::new();
        let mut done = false;
        let mut pos: usize = 0;
        assert(ids_view(wants@) =~= seq![]);
        assert(ids_view(haves@) =~= seq![]);
        while pos < body.len()
            invariant
                pos <= body.len(),
                parse_from(body@, pos as int, ids_view(wants@), ids_view(haves@), done)
                    == request_outcome(body@),
            decreases body.len() - pos,
        {
            let ghost w0 = ids_view(wants@);
            let ghost h0 = ids_view(haves@);
            let ghost d0 = done;
            let ghost p0 = pos as int;
            if bytes_at(body, pos, ZEROS.as_slice()) {
                assert(ZEROS@ == zeros());
                pos = pos + 4;
            } else {
                assert(ZEROS@ == zeros());
                if body.len() - pos < 4 {
                    return ParseOutcome::Parsed(UploadPackRequest { wants, haves, done });
                }
                let prefix = &body[pos..pos + 4];
                if str_from_utf8(prefix).is_none() {
                    return ParseOutcome::Failed(
                        Error::Protocol(String::from_str("invalid pkt-line length prefix")),
                    );
                }
                let len = match length_prefix_value(prefix) {
                    None => {
                        return ParseOutcome::Failed(
                            Error::Protocol(String::from_str("invalid pkt-line length")),
                        );
                    },
                    Some(l) => l,
                };
                if len == 0 {
                    pos = pos + 4;
                } else {
                    if len < 4 || len > body.len() - pos {
                        return ParseOutcome::Parsed(UploadPackRequest { wants, haves, done });
                    }
                    let payload = &body[pos + 4..pos + len];
                    if str_from_utf8(payload).is_none() {
                        return ParseOutcome::Failed(
                            Error::Protocol(String::from_str("invalid UTF-8 in pkt-line")),
                        );
                    }
                    let t = trimmed_len(payload);
                    proof {
                        lemma_utf8_cut(payload@, t as int);
                    }
                    let line = &payload[0..t];
                    assert(DONE@ == done_word());
                    assert(WANT@ == want_word());
                    assert(HAVE@ == have_word());
                    if t == 4 && bytes_at(line, 0, DONE.as_slice()) {
                        assert(line@ =~= line@.subrange(0, 4));
                        done = true;
                        assert(parse_from(body@, p0 + len, ids_view(wants@), ids_view(haves@), done) == parse_from(body@, p0, w0, h0, d0));
                    } else {
                        proof {
                            if line@ == done_word() {
                                assert(line@.subrange(0, 4) =~= line@);
                            }
                        }
                        if bytes_at(line, 0, WANT.as_slice()) {
                            match read_oid_field(line, true) {
                                None => {
                                    return ParseOutcome::WouldPanic;
                                },
                                Some(Err(e)) => {
                                    return ParseOutcome::Failed(e);
                                },
                                Some(Ok(id)) => {
                                    wants.push(id);
                                    assert(ids_view(wants@) =~= w0.push(id@));
                                    assert(parse_from(body@, p0 + len, ids_view(wants@), ids_view(haves@), done) == parse_from(body@, p0, w0, h0, d0));
                                },
                            }
                        } else if bytes_at(line, 0, HAVE.as_slice()) {
                            match read_oid_field(line, false) {
                                None => {
                                    return ParseOutcome::WouldPanic;
                                },
                                Some(Err(e)) => {
                                    return ParseOutcome::Failed(e);
                                },
                                Some(Ok(id)) => {
                                    haves.push(id);
                                    assert(ids_view(haves@) =~= h0.push(id@));
                                    assert(parse_from(body@, p0 + len, ids_view(wants@), ids_view(haves@), done) == parse_from(body@, p0, w0, h0, d0));
                                },
                            }
                        } else {
                            assert(!has_at(line@, 0, want_word()));
                            assert(!has_at(line@, 0, have_word()));
                            assert(line@ != done_word());
                            assert(parse_from(body@, p0 + len, ids_view(wants@), ids_view(haves@), done) == parse_from(body@, p0, w0, h0, d0));
                        }
                    }
                    pos = pos + len;
                }
            }
        }
        ParseOutcome::Parsed(UploadPackRequest { wants, haves, done })
    }

    /// Parse a pkt-line encoded upload-pack request body.
    ///
    /// The body contains:
    /// - "want <oid> [capabilities]\n" lines
    /// - flush packet "0000"
    /// - "have <oid>\n" lines (optional)
    /// - "done\n"
    pub fn parse(body: &[u8]) -> (r: Result<UploadPackRequest, Error>)
        requires
            !(request_outcome(body@) is Panics),
        ensures
            match request_outcome(body@) {
                RequestOutcome::Parsed { wants, haves, done } => {
                    &&& r matches Ok(req)
                    &&& ids_view(req.wants@) == wants
                    &&& ids_view(req.haves@) == haves
                    &&& req.done == done
                },
                RequestOutcome::Failed { message } => {
                    &&& r matches Err(Error::Protocol(m))
                    &&& m@ == message
                },
                RequestOutcome::Panics => false,
            },
    {
        match Self::inspect(body) {
            ParseOutcome::Parsed(req) => Ok(req),
            ParseOutcome::Failed(e) => Err(e),
            ParseOutcome::WouldPanic => Err(Error::Protocol(String::new())),
        }
    }
}


/// Reading back the digits written for a number gives the number.
pub proof fn lemma_hex_digits_value(n: nat, width: nat)
    requires
        n < pow16(width),
    ensures
        all_hex(hex_digits(n, width)),
        hex_number(hex_digits(n, width)) == n,
    decreases width,
{
    lemma_hex_digits_shape(n, width);
    if width == 0 {
        assert(n == 0);
    } else {
        let w1 = (width - 1) as nat;
        assert(n / 16 < pow16(w1)) by (nonlinear_arith)
            requires
                n < pow16(width),
                pow16(width) == 16 * pow16(w1),
        ;
        lemma_hex_digits_value(n / 16, w1);
        let h = hex_digits(n / 16, w1);
        let full = hex_digits(n, width);
        assert(full == h + seq![hex_digit((n % 16) as int)]);
        assert(full.drop_last() =~= h);
        assert(hex_value(full.last()) == n % 16);
        assert(n == (n / 16) * 16 + n % 16);
        assert forall|i: int| 0 <= i < full.len() implies is_hex_digit(#[trigger] full[i]) by {
        }
    }
}


/// The pkt-line `<word><40 hex digits>\n` that asks for (or offers) `id`.
pub open spec fn oid_line(word: Seq<u8>, id: Seq<u8>) -> Seq<u8> {
    pkt_line(word + hex_encode(id) + seq![10u8])
}

/// The pkt-line `done\n`.
pub open spec fn done_line() -> Seq<u8> {
    pkt_line(done_word() + seq![10u8])
}

/// One `oid_line` per id, in order.
pub open spec fn oid_lines(word: Seq<u8>, ids: Seq<Seq<u8>>) -> Seq<u8>
    decreases ids.len(),
{
    if ids.len() == 0 {
        seq![]
    } else {
        oid_line(word, ids[0]) + oid_lines(word, ids.drop_first())
    }
}

/// The body a client sends for a fetch: its wants, a flush, its haves, and
/// (when it has finished negotiating) `done`.
pub open spec fn request_body(wants: Seq<Seq<u8>>, haves: Seq<Seq<u8>>, done: bool) -> Seq<u8> {
    oid_lines(want_word(), wants) + zeros() + oid_lines(have_word(), haves)
        + if done { done_line() } else { seq![] }
}

proof fn lemma_hex_encode_facts(id: Seq<u8>)
    requires
        id.len() == 20,
    ensures
        hex_encode(id).len() == 40,
        is_oid_hex(hex_encode(id)),
        hex_decode(hex_encode(id)) == id,
        forall|i: int| 0 <= i < 40 ==> #[trigger] hex_encode(id)[i] < 128 && hex_encode(id)[i] != 10u8,
{
    let h = hex_encode(id);
    assert forall|i: int| 0 <= i < 40 implies is_hex_digit(#[trigger] h[i]) && h[i] < 128 && h[i] != 10u8 by {
        let b = id[i / 2];
        assert(b / 16 < 16 && b % 16 < 16);
    }
    assert forall|i: int| 0 <= i < 20 implies #[trigger] hex_decode(h)[i] == id[i] by {
        let b = id[i];
        assert(h[2 * i] == hex_digit((b / 16) as int));
        assert(h[2 * i + 1] == hex_digit((b % 16) as int));
        assert(hex_value(h[2 * i]) == b / 16);
        assert(hex_value(h[2 * i + 1]) == b % 16);
        assert(b == (b / 16) * 16 + b % 16);
    }
    assert(hex_decode(h) =~= id);
}

proof fn lemma_line_prefix(n: nat)
    requires
        4 <= n < 65536,
    ensures
        hex_digits(n, 4).len() == 4,
        valid_utf8(hex_digits(n, 4)),
        radix16_value(hex_digits(n, 4)) == Some(n),
        hex_digits(n, 4) != zeros(),
{
    reveal_with_fuel(pow16, 5);
    lemma_hex_digits_value(n, 4);
    lemma_hex_digits_shape(n, 4);
    let h = hex_digits(n, 4);
    assert forall|i: int| 0 <= i < h.len() implies #[trigger] h[i] < 128 by {}
    crate::text::lemma_ascii_valid(h);
    if h == zeros() {
        reveal_with_fuel(hex_number, 5);
        assert(zeros().drop_last() =~= seq![48u8, 48u8, 48u8]);
        assert(zeros().drop_last().drop_last() =~= seq![48u8, 48u8]);
        assert(zeros().drop_last().drop_last().drop_last() =~= seq![48u8]);
        assert(seq![48u8].drop_last() =~= Seq::<u8>::empty());
        assert(hex_number(zeros()) == 0);
    }
}

proof fn lemma_trim_one(s: Seq<u8>)
    requires
        s.len() > 0,
        s.last() != 10u8,
    ensures
        trim_newlines(s + seq![10u8]) == s,
{
    reveal_with_fuel(trim_newlines, 2);
    assert((s + seq![10u8]).drop_last() =~= s);
}

/// Parsing over one `want`/`have` line collects its id and moves past it.
proof fn lemma_step_oid_line(
    body: Seq<u8>,
    pos: int,
    is_want: bool,
    id: Seq<u8>,
    wants: Seq<Seq<u8>>,
    haves: Seq<Seq<u8>>,
    done: bool,
)
    requires
        0 <= pos,
        pos + 50 <= body.len(),
        id.len() == 20,
        body.subrange(pos, pos + 50) == oid_line(if is_want { want_word() } else { have_word() }, id),
    ensures
        parse_from(body, pos, wants, haves, done) == if is_want {
            parse_from(body, pos + 50, wants.push(id), haves, done)
        } else {
            parse_from(body, pos + 50, wants, haves.push(id), done)
        },
{
    let word = if is_want { want_word() } else { have_word() };
    lemma_hex_encode_facts(id);
    let hex = hex_encode(id);
    let payload = word + hex + seq![10u8];
    assert(payload.len() == 46);
    lemma_line_prefix(50);
    let line = body.subrange(pos, pos + 50);
    assert(line == hex_digits(50, 4) + payload);
    let prefix = body.subrange(pos, pos + 4);
    assert(prefix =~= hex_digits(50, 4));
    assert(!has_at(body, pos, zeros())) by {
        if has_at(body, pos, zeros()) {
            assert(body.subrange(pos, pos + 4) == zeros());
        }
    }
    let p2 = body.subrange(pos + 4, pos + 50);
    assert(p2 =~= line.subrange(4, 50));
    assert(line.subrange(4, 50) =~= payload);
    assert forall|i: int| 0 <= i < payload.len() implies #[trigger] payload[i] < 128 by {
        if i < 5 {
            assert(payload[i] == word[i]);
        } else if i < 45 {
            assert(payload[i] == hex[i - 5]);
        }
    }
    crate::text::lemma_ascii_valid(payload);
    let wh = word + hex;
    assert(wh.last() == hex[39]);
    lemma_trim_one(wh);
    assert(payload =~= wh + seq![10u8]);
    let t = trim_newlines(payload);
    assert(t == wh);
    assert(t != done_word()) by {
        if t == done_word() {
            assert(t.len() == 4);
        }
    }
    assert(t.subrange(5, 45) =~= hex);
    assert(t.subrange(0, 5) =~= word);
    if is_want {
        assert(has_at(t, 0, want_word()));
    } else {
        assert(!has_at(t, 0, want_word())) by {
            if has_at(t, 0, want_word()) {
                assert(t.subrange(0, 5)[0] == want_word()[0]);
            }
        }
        assert(has_at(t, 0, have_word()));
    }
    assert(t.subrange(5, t.len() as int).subrange(0, 40) =~= hex);
}

/// Parsing over a run of `want` or `have` lines collects their ids in order.
proof fn lemma_step_oid_lines(
    body: Seq<u8>,
    pos: int,
    is_want: bool,
    ids: Seq<Seq<u8>>,
    wants: Seq<Seq<u8>>,
    haves: Seq<Seq<u8>>,
    done: bool,
)
    requires
        0 <= pos,
        pos + oid_lines(if is_want { want_word() } else { have_word() }, ids).len() <= body.len(),
        forall|i: int| 0 <= i < ids.len() ==> (#[trigger] ids[i]).len() == 20,
        body.subrange(pos, pos + oid_lines(if is_want { want_word() } else { have_word() }, ids).len())
            == oid_lines(if is_want { want_word() } else { have_word() }, ids),
    ensures
        oid_lines(if is_want { want_word() } else { have_word() }, ids).len() == 50 * ids.len(),
        parse_from(body, pos, wants, haves, done) == if is_want {
            parse_from(body, pos + 50 * ids.len(), wants + ids, haves, done)
        } else {
            parse_from(body, pos + 50 * ids.len(), wants, haves + ids, done)
        },
    decreases ids.len(),
{
    let word = if is_want { want_word() } else { have_word() };
    if ids.len() == 0 {
        assert(wants + ids =~= wants);
        assert(haves + ids =~= haves);
    } else {
        let id = ids[0];
        let rest = ids.drop_first();
        lemma_hex_encode_facts(id);
        let first = oid_line(word, id);
        assert(first.len() == 50) by {
            reveal_with_fuel(pow16, 5);
            lemma_hex_digits_shape(50, 4);
        }
        let all = oid_lines(word, ids);
        assert(all == first + oid_lines(word, rest));
        assert forall|i: int| 0 <= i < rest.len() implies (#[trigger] rest[i]).len() == 20 by {
            assert(rest[i] == ids[i + 1]);
        }
        assert(body.subrange(pos, pos + 50) =~= all.subrange(0, 50));
        assert(all.subrange(0, 50) =~= first);
        lemma_step_oid_line(body, pos, is_want, id, wants, haves, done);
        let whole = body.subrange(pos, pos + all.len());
        assert(whole == all);
        assert(body.subrange(pos + 50, pos + 50 + oid_lines(word, rest).len()) =~= whole.subrange(50, all.len() as int));
        assert(all.subrange(50, all.len() as int) =~= oid_lines(word, rest));
        if is_want {
            lemma_step_oid_lines(body, pos + 50, is_want, rest, wants.push(id), haves, done);
            assert(wants.push(id) + rest =~= wants + ids);
        } else {
            lemma_step_oid_lines(body, pos + 50, is_want, rest, wants, haves.push(id), done);
            assert(haves.push(id) + rest =~= haves + ids);
        }
    }
}

/// A request body written by a client, listing its wants, a flush, its haves
/// and, if it is done, `done`, parses back to exactly those wants and haves
/// (in order, repeats kept), with `done` set exactly when the line was sent.
pub proof fn lemma_request_roundtrip(wants: Seq<Seq<u8>>, haves: Seq<Seq<u8>>, done: bool)
    requires
        forall|i: int| 0 <= i < wants.len() ==> (#[trigger] wants[i]).len() == 20,
        forall|i: int| 0 <= i < haves.len() ==> (#[trigger] haves[i]).len() == 20,
    ensures
        request_outcome(request_body(wants, haves, done))
            == (RequestOutcome::Parsed { wants, haves, done }),
{
    let body = request_body(wants, haves, done);
    let wl = oid_lines(want_word(), wants);
    let hl = oid_lines(have_word(), haves);
    let e: Seq<Seq<u8>> = seq![];
    assert(body.subrange(0, wl.len() as int) =~= wl);
    lemma_step_oid_lines(body, 0, true, wants, e, e, false);
    assert(e + wants =~= wants);
    let p1 = wl.len() as int;
    assert(body.subrange(p1, p1 + 4) =~= zeros());
    assert(parse_from(body, p1, wants, e, false) == parse_from(body, p1 + 4, wants, e, false));
    let p2 = p1 + 4;
    assert(body.subrange(p2, p2 + hl.len()) =~= hl);
    lemma_step_oid_lines(body, p2, false, haves, wants, e, false);
    assert(e + haves =~= haves);
    let p3 = p2 + hl.len();
    if !done {
        assert(body.len() == p3);
    } else {
        // the final `0009done\n`
        lemma_line_prefix(9);
        let dl = done_line();
        assert(dl.len() == 9) by {
            reveal_with_fuel(pow16, 5);
            lemma_hex_digits_shape(9, 4);
        }
        assert(body.subrange(p3, p3 + 9) =~= dl);
        assert(body.len() == p3 + 9);
        assert(body.subrange(p3, p3 + 4) =~= hex_digits(9, 4));
        assert(!has_at(body, p3, zeros())) by {
            if has_at(body, p3, zeros()) {
                assert(body.subrange(p3, p3 + 4) == zeros());
            }
        }
        let payload = done_word() + seq![10u8];
        assert(body.subrange(p3 + 4, p3 + 9) =~= payload);
        assert forall|i: int| 0 <= i < payload.len() implies #[trigger] payload[i] < 128 by {}
        crate::text::lemma_ascii_valid(payload);
        lemma_trim_one(done_word());
        assert(parse_from(body, p3, wants, haves, false) == parse_from(body, p3 + 9, wants, haves, true));
    }
}


/// Parsing from an offset depends only on the bytes from that offset on.
#[verifier::spinoff_prover]
#[verifier::rlimit(40)]
proof fn lemma_parse_suffix(body: Seq<u8>, pos: int)
    requires
        0 <= pos <= body.len(),
    ensures
        forall|w: Seq<Seq<u8>>, h: Seq<Seq<u8>>, d: bool|
            #[trigger] parse_from(body, pos, w, h, d) == parse_from(body.subrange(pos, body.len() as int), 0, w, h, d),
    decreases body.len() - pos,
{
    let sub = body.subrange(pos, body.len() as int);
    if pos < body.len() {
        if pos + 4 <= body.len() {
            lemma_parse_suffix(body, pos + 4);
            lemma_parse_suffix(sub, 4);
            assert(sub.subrange(4, sub.len() as int) =~= body.subrange(pos + 4, body.len() as int));
            assert(sub.subrange(0, 4) =~= body.subrange(pos, pos + 4));
            assert(has_at(body, pos, zeros()) == has_at(sub, 0, zeros()));
            match radix16_value(body.subrange(pos, pos + 4)) {
                Some(l) => {
                    if 4 <= l && pos + l <= body.len() {
                        lemma_parse_suffix(body, pos + l);
                        lemma_parse_suffix(sub, l as int);
                        assert(sub.subrange(l as int, sub.len() as int) =~= body.subrange(pos + l, body.len() as int));
                        assert(sub.subrange(4, l as int) =~= body.subrange(pos + 4, pos + l));
                    }
                },
                None => {},
            }
        } else {
            assert(!has_at(body, pos, zeros()));
            assert(!has_at(sub, 0, zeros()));
        }
    }
    assert forall|w: Seq<Seq<u8>>, h: Seq<Seq<u8>>, d: bool|
        #[trigger] parse_from(body, pos, w, h, d) == parse_from(sub, 0, w, h, d) by {
        if pos >= body.len() {
            assert(sub.len() == 0);
            assert(parse_from(body, pos, w, h, d) == parse_from(sub, 0, w, h, d));
        } else if has_at(body, pos, zeros()) {
            assert(parse_from(body, pos, w, h, d) == parse_from(body, pos + 4, w, h, d));
            assert(parse_from(sub, 0, w, h, d) == parse_from(sub, 4, w, h, d));
            assert(parse_from(body, pos, w, h, d) == parse_from(sub, 0, w, h, d));
        } else if pos + 4 > body.len() {
            assert(sub.len() < 4);
            assert(parse_from(body, pos, w, h, d) == parse_from(sub, 0, w, h, d));
        } else {
            assert(sub.len() >= 4);
            let prefix = body.subrange(pos, pos + 4);
            assert(sub.subrange(0, 4) == prefix);
            if valid_utf8(prefix) {
                if let Some(l) = radix16_value(prefix) {
                    if l == 0 {
                        assert(parse_from(body, pos, w, h, d) == parse_from(body, pos + 4, w, h, d));
                        assert(parse_from(sub, 0, w, h, d) == parse_from(sub, 4, w, h, d));
                        assert(parse_from(body, pos, w, h, d) == parse_from(sub, 0, w, h, d));
                    } else if l < 4 || pos + l > body.len() {
                        assert(parse_from(body, pos, w, h, d) == parse_from(sub, 0, w, h, d));
                    } else {
                        let payload = body.subrange(pos + 4, pos + l);
                        assert(sub.subrange(4, l as int) == payload);
                        assert forall|w2: Seq<Seq<u8>>, h2: Seq<Seq<u8>>, d2: bool|
                            #[trigger] parse_from(body, pos + l, w2, h2, d2) == parse_from(sub, l as int, w2, h2, d2) by {
                            assert(parse_from(body, pos + l, w2, h2, d2)
                                == parse_from(body.subrange(pos + l, body.len() as int), 0, w2, h2, d2));
                            assert(parse_from(sub, l as int, w2, h2, d2)
                                == parse_from(sub.subrange(l as int, sub.len() as int), 0, w2, h2, d2));
                        }
                        let line = trim_newlines(payload);
                        if !valid_utf8(payload) {
                            assert(parse_from(body, pos, w, h, d) == (RequestOutcome::Failed { message: msg_utf8() }));
                            assert(parse_from(sub, 0, w, h, d) == (RequestOutcome::Failed { message: msg_utf8() }));
                        } else if line == done_word() {
                            assert(parse_from(body, pos, w, h, d) == parse_from(body, pos + l, w, h, true));
                            assert(parse_from(sub, 0, w, h, d) == parse_from(sub, l as int, w, h, true));
                        } else if has_at(line, 0, want_word()) {
                            match oid_field(line.subrange(5, line.len() as int), msg_want()) {
                                Some(Ok(id)) => {
                                    assert(parse_from(body, pos, w, h, d) == parse_from(body, pos + l, w.push(id), h, d));
                                    assert(parse_from(sub, 0, w, h, d) == parse_from(sub, l as int, w.push(id), h, d));
                                },
                                _ => {},
                            }
                        } else if has_at(line, 0, have_word()) {
                            match oid_field(line.subrange(5, line.len() as int), msg_have()) {
                                Some(Ok(id)) => {
                                    assert(parse_from(body, pos, w, h, d) == parse_from(body, pos + l, w, h.push(id), d));
                                    assert(parse_from(sub, 0, w, h, d) == parse_from(sub, l as int, w, h.push(id), d));
                                },
                                _ => {},
                            }
                        } else {
                            assert(parse_from(body, pos, w, h, d) == parse_from(body, pos + l, w, h, d));
                            assert(parse_from(sub, 0, w, h, d) == parse_from(sub, l as int, w, h, d));
                        }
                        assert(parse_from(body, pos, w, h, d) == parse_from(sub, 0, w, h, d));
                    }
                } else {
                    assert(parse_from(body, pos, w, h, d) == parse_from(sub, 0, w, h, d));
                }
            } else {
                assert(parse_from(body, pos, w, h, d) == parse_from(sub, 0, w, h, d));
            }
        }
    }
}

/// A flush packet (`None`) or the pkt-line of a payload.
pub open spec fn packet(x: Option<Seq<u8>>) -> Seq<u8> {
    match x {
        None => zeros(),
        Some(s) => pkt_line(s),
    }
}

/// Packets one after the other.
pub open spec fn packets(xs: Seq<Option<Seq<u8>>>) -> Seq<u8>
    decreases xs.len(),
{
    if xs.len() == 0 {
        seq![]
    } else {
        packet(xs[0]) + packets(xs.drop_first())
    }
}

/// The packet's length fits its four hexadecimal digits.
pub open spec fn fits(x: Option<Seq<u8>>) -> bool {
    x matches Some(s) ==> s.len() + 4 < 65536
}

/// A line the parser passes over: well-formed UTF-8 whose text (trailing
/// newlines trimmed) is not `done` and starts with neither `want ` nor
/// `have `.
pub open spec fn ignored_line(s: Seq<u8>) -> bool {
    &&& valid_utf8(s)
    &&& trim_newlines(s) != done_word()
    &&& !has_at(trim_newlines(s), 0, want_word())
    &&& !has_at(trim_newlines(s), 0, have_word())
}

/// A packet's prefix reads back as what it is: a flush, or the packet's
/// length over its payload.
proof fn lemma_packet_shape(x: Option<Seq<u8>>)
    requires
        fits(x),
    ensures
        packet(x).len() >= 4,
        x is None ==> packet(x) == zeros(),
        x matches Some(s) ==> {
            &&& packet(x).len() == s.len() + 4
            &&& packet(x).subrange(0, 4) != zeros()
            &&& valid_utf8(packet(x).subrange(0, 4))
            &&& radix16_value(packet(x).subrange(0, 4)) == Some((s.len() + 4) as nat)
            &&& packet(x).subrange(4, s.len() + 4int) == s
        },
{
    if let Some(s) = x {
        lemma_pkt_line_roundtrip(s);
        lemma_line_prefix((s.len() + 4) as nat);
        assert(pkt_line(s).subrange(0, 4) =~= hex_digits((s.len() + 4) as nat, 4));
    }
}

/// Parsing over a passed-over packet is parsing what follows it.
proof fn lemma_skip_packet(x: Option<Seq<u8>>, rest: Seq<u8>)
    requires
        fits(x),
        x matches Some(s) ==> ignored_line(s),
    ensures
        forall|w: Seq<Seq<u8>>, h: Seq<Seq<u8>>, d: bool|
            #[trigger] parse_from(packet(x) + rest, 0, w, h, d) == parse_from(rest, 0, w, h, d),
{
    let b = packet(x) + rest;
    let n = packet(x).len() as int;
    lemma_packet_shape(x);
    lemma_parse_suffix(b, n);
    assert(b.subrange(n, b.len() as int) =~= rest);
    assert(b.subrange(0, 4) =~= packet(x).subrange(0, 4));
    if let Some(s) = x {
        assert(b.subrange(4, n) =~= s);
        assert(!has_at(b, 0, zeros()));
    } else {
        assert(b.subrange(0, 4) =~= zeros());
        assert(has_at(b, 0, zeros()));
    }
    assert forall|w: Seq<Seq<u8>>, h: Seq<Seq<u8>>, d: bool|
        #[trigger] parse_from(b, 0, w, h, d) == parse_from(rest, 0, w, h, d) by {
        assert(parse_from(b, 0, w, h, d) == parse_from(b, n, w, h, d));
    }
}

/// Two bodies that start with the same whole packet parse the same, when
/// they parse the same after it.
#[verifier::spinoff_prover]
#[verifier::rlimit(40)]
proof fn lemma_same_first_packet(y: Option<Seq<u8>>, b1: Seq<u8>, b2: Seq<u8>, w: Seq<Seq<u8>>, h: Seq<Seq<u8>>, d: bool)
    requires
        fits(y),
        packet(y).len() <= b1.len(),
        packet(y).len() <= b2.len(),
        b1.subrange(0, packet(y).len() as int) == packet(y),
        b2.subrange(0, packet(y).len() as int) == packet(y),
        forall|w2: Seq<Seq<u8>>, h2: Seq<Seq<u8>>, d2: bool|
            #[trigger] parse_from(b1, packet(y).len() as int, w2, h2, d2)
                == parse_from(b2, packet(y).len() as int, w2, h2, d2),
    ensures
        parse_from(b1, 0, w, h, d) == parse_from(b2, 0, w, h, d),
{
    let l = packet(y);
    let n = l.len() as int;
    lemma_packet_shape(y);
    assert(b1.subrange(0, 4) =~= l.subrange(0, 4));
    assert(b2.subrange(0, 4) =~= l.subrange(0, 4));
    if let Some(s) = y {
        assert(b1.subrange(4, n) =~= s);
        assert(b2.subrange(4, n) =~= s);
        assert(!has_at(b1, 0, zeros()));
        assert(!has_at(b2, 0, zeros()));
        let line = trim_newlines(s);
        if !valid_utf8(s) {
        } else if line == done_word() {
            assert(parse_from(b1, 0, w, h, d) == parse_from(b1, n, w, h, true));
            assert(parse_from(b2, 0, w, h, d) == parse_from(b2, n, w, h, true));
        } else if has_at(line, 0, want_word()) {
            match oid_field(line.subrange(5, line.len() as int), msg_want()) {
                Some(Ok(id)) => {
                    assert(parse_from(b1, 0, w, h, d) == parse_from(b1, n, w.push(id), h, d));
                    assert(parse_from(b2, 0, w, h, d) == parse_from(b2, n, w.push(id), h, d));
                },
                _ => {},
            }
        } else if has_at(line, 0, have_word()) {
            match oid_field(line.subrange(5, line.len() as int), msg_have()) {
                Some(Ok(id)) => {
                    assert(parse_from(b1, 0, w, h, d) == parse_from(b1, n, w, h.push(id), d));
                    assert(parse_from(b2, 0, w, h, d) == parse_from(b2, n, w, h.push(id), d));
                },
                _ => {},
            }
        } else {
            assert(parse_from(b1, 0, w, h, d) == parse_from(b1, n, w, h, d));
            assert(parse_from(b2, 0, w, h, d) == parse_from(b2, n, w, h, d));
        }
    } else {
        assert(b1.subrange(0, 4) =~= zeros());
        assert(b2.subrange(0, 4) =~= zeros());
        assert(parse_from(b1, 0, w, h, d) == parse_from(b1, 4, w, h, d));
        assert(parse_from(b2, 0, w, h, d) == parse_from(b2, 4, w, h, d));
    }
}

/// Parsing over well-formed packets reads the same whatever follows them,
/// as long as what follows reads the same.
#[verifier::spinoff_prover]
#[verifier::rlimit(40)]
proof fn lemma_drop_after_packets(xs: Seq<Option<Seq<u8>>>, x: Option<Seq<u8>>, rest: Seq<u8>)
    requires
        forall|i: int| 0 <= i < xs.len() ==> fits(#[trigger] xs[i]),
        fits(x),
        x matches Some(s) ==> ignored_line(s),
    ensures
        forall|w: Seq<Seq<u8>>, h: Seq<Seq<u8>>, d: bool|
            #[trigger] parse_from(packets(xs) + packet(x) + rest, 0, w, h, d)
                == parse_from(packets(xs) + rest, 0, w, h, d),
    decreases xs.len(),
{
    if xs.len() == 0 {
        assert(packets(xs) + packet(x) + rest =~= packet(x) + rest);
        assert(packets(xs) + rest =~= rest);
        lemma_skip_packet(x, rest);
    } else {
        let y = xs[0];
        let tail = xs.drop_first();
        assert forall|i: int| 0 <= i < tail.len() implies fits(#[trigger] tail[i]) by {
            assert(tail[i] == xs[i + 1]);
        }
        lemma_drop_after_packets(tail, x, rest);
        let l = packet(y);
        let t1 = packets(tail) + packet(x) + rest;
        let t2 = packets(tail) + rest;
        let b1 = l + t1;
        let b2 = l + t2;
        assert(packets(xs) + packet(x) + rest =~= b1);
        assert(packets(xs) + rest =~= b2);
        assert(fits(y));
        let n = l.len() as int;
        lemma_parse_suffix(b1, n);
        lemma_parse_suffix(b2, n);
        assert(b1.subrange(n, b1.len() as int) =~= t1);
        assert(b2.subrange(n, b2.len() as int) =~= t2);
        assert(b1.subrange(0, n) =~= l);
        assert(b2.subrange(0, n) =~= l);
        assert forall|w2: Seq<Seq<u8>>, h2: Seq<Seq<u8>>, d2: bool|
            #[trigger] parse_from(b1, n, w2, h2, d2) == parse_from(b2, n, w2, h2, d2) by {
            assert(parse_from(b1, n, w2, h2, d2) == parse_from(t1, 0, w2, h2, d2));
            assert(parse_from(b2, n, w2, h2, d2) == parse_from(t2, 0, w2, h2, d2));
        }
        assert forall|w: Seq<Seq<u8>>, h: Seq<Seq<u8>>, d: bool|
            #[trigger] parse_from(b1, 0, w, h, d) == parse_from(b2, 0, w, h, d) by {
            lemma_same_first_packet(y, b1, b2, w, h, d);
        }
    }
}

/// A line that is not `want`, `have` or `done` (or a flush packet), placed
/// after whole packets, is passed over: dropping it changes nothing in how
/// the body parses, whatever follows it.
pub proof fn lemma_ignored_line_dropped(xs: Seq<Option<Seq<u8>>>, x: Option<Seq<u8>>, rest: Seq<u8>)
    requires
        forall|i: int| 0 <= i < xs.len() ==> fits(#[trigger] xs[i]),
        fits(x),
        x matches Some(s) ==> ignored_line(s),
    ensures
        request_outcome(packets(xs) + packet(x) + rest) == request_outcome(packets(xs) + rest),
{
    lemma_drop_after_packets(xs, x, rest);
    let e: Seq<Seq<u8>> = seq![];
    assert(parse_from(packets(xs) + packet(x) + rest, 0, e, e, false)
        == parse_from(packets(xs) + rest, 0, e, e, false));
}

/// A pkt-line reads back: its four-digit prefix gives its whole length and
/// the content follows the prefix.
pub proof fn lemma_pkt_line_roundtrip(data: Seq<u8>)
    requires
        data.len() + 4 < 65536,
    ensures
        pkt_line(data).len() == data.len() + 4,
        radix16_value(pkt_line(data).subrange(0, 4)) == Some((data.len() + 4) as nat),
        pkt_line(data).subrange(4, data.len() + 4int) == data,
{
    lemma_line_prefix((data.len() + 4) as nat);
    let p = pkt_line(data);
    assert(p.subrange(0, 4) =~= hex_digits((data.len() + 4) as nat, 4));
    assert(p.subrange(4, data.len() + 4int) =~= data);
}

/// The flush packet reads as length zero.
pub proof fn lemma_flush_reads_zero()
    ensures
        radix16_value(crate::pktline::flush_packet()) == Some(0nat),
{
    reveal_with_fuel(hex_number, 5);
    let z = crate::pktline::flush_packet();
    assert(all_hex(z));
    assert(z.drop_last() =~= seq![48u8, 48u8, 48u8]);
    assert(z.drop_last().drop_last() =~= seq![48u8, 48u8]);
    assert(z.drop_last().drop_last().drop_last() =~= seq![48u8]);
    assert(seq![48u8].drop_last() =~= Seq::<u8>::empty());
}

} // verus!
