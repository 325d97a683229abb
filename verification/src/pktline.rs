//! pkt-line framing of the Git protocol: a four-digit lowercase hexadecimal
//! length prefix (which counts its own four bytes) followed by the content.
//! The flush packet is the bare prefix `0000`.
use vstd::prelude::*;
use vstd::string::StringSliceAdditionalSpecFns;
use crate::bytes_util::append_bytes;

verus! {

/// The lowercase hexadecimal digit (as an ASCII byte) of a value below 16.
pub open spec fn hex_digit(n: int) -> u8 {
    if n < 10 {
        (48 + n) as u8
    } else {
        (87 + n) as u8
    }
}

/// The lowercase hexadecimal digits of `n`, left-padded with `0` to at least
/// `width` digits (what `format!("{n:0width$x}")` writes).
pub open spec fn hex_digits(n: nat, width: nat) -> Seq<u8>
    decreases n, width,
{
    if n == 0 && width == 0 {
        seq![]
    } else {
        hex_digits(n / 16, if width > 0 { (width - 1) as nat } else { 0 }) + seq![hex_digit((n % 16) as int)]
    }
}

/// The pkt-line that carries `data`.
pub open spec fn pkt_line(data: Seq<u8>) -> Seq<u8> {
    hex_digits((data.len() + 4) as nat, 4) + data
}

/// The flush packet `0000`.
pub open spec fn flush_packet() -> Seq<u8> {
    seq![48u8, 48u8, 48u8, 48u8]
}

/// The content of a comment pkt-line: `# `, the comment, and a newline.
pub open spec fn comment_content(comment: Seq<u8>) -> Seq<u8> {
    seq![35u8, 32u8] + comment + seq![10u8]
}

fn hex_digit_byte(n: usize) -> (b: u8)
    requires
        n < 16,
    ensures
        b == hex_digit(n as int),
{
    if n < 10 {
        (48 + n) as u8
    } else {
        (87 + n) as u8
    }
}

/// Appends the lowercase hexadecimal digits of `n`, padded to `width`.
pub fn push_hex_digits(out: &mut Vec<u8>, n: usize, width: usize)
    ensures
        final(out)@ == old(out)@ + hex_digits(n as nat, width as nat),
    decreases n, width,
{
    if n == 0 && width == 0 {
        return;
    }
    let w: usize = if width > 0 { width - 1 } else { 0 };
    push_hex_digits(out, n / 16, w);
    out.push(hex_digit_byte(n % 16));
}

/// Encode a single pkt-line.
pub fn encode(data: &[u8]) -> (r: Vec<u8>)
    requires
        data.len() + 4 <= usize::MAX,
    ensures
        r@ == pkt_line(data@),
{
    let mut buf: Vec<u8> = Vec::new();
    push_hex_digits(&mut buf, data.len() + 4, 4);
    append_bytes(&mut buf, data);
    buf
}

const FLUSH: [u8; 4] = [48u8, 48u8, 48u8, 48u8];

/// Encode a flush packet.
pub fn flush() -> (r: &'static [u8])
    ensures
        r@ == flush_packet(),
{
    let r: &'static [u8; 4] = &FLUSH;
    r.as_slice()
}

/// Encode a comment line (e.g. "# service=git-upload-pack\n").
pub fn encode_comment(comment: &str) -> (r: Vec<u8>)
    requires
        comment.spec_bytes().len() + 7 <= usize::MAX,
    ensures
        r@ == pkt_line(comment_content(comment.spec_bytes())),
{
    let mut content: Vec<u8> = Vec::new();
    content.push(35u8);
    content.push(32u8);
    append_bytes(&mut content, comment.as_bytes());
    content.push(10u8);
    encode(content.as_slice())
}


/// Sixteen to the power `n`.
pub open spec fn pow16(n: nat) -> nat
    decreases n,
{
    if n == 0 {
        1
    } else {
        16 * pow16((n - 1) as nat)
    }
}

/// The digits written for a number below `16^width` are exactly `width`
/// lowercase hexadecimal digits.
pub proof fn lemma_hex_digits_shape(n: nat, width: nat)
    requires
        n < pow16(width),
    ensures
        hex_digits(n, width).len() == width,
        forall|i: int| 0 <= i < width ==> {
            let d = #[trigger] hex_digits(n, width)[i];
            (48 <= d <= 57) || (97 <= d <= 102)
        },
    decreases width,
{
    if width == 0 {
        assert(n == 0);
    } else {
        let w1 = (width - 1) as nat;
        assert(n / 16 < pow16(w1)) by (nonlinear_arith)
            requires
                n < pow16(width),
                pow16(width) == 16 * pow16(w1),
        ;
        lemma_hex_digits_shape(n / 16, w1);
        let h = hex_digits(n / 16, w1);
        assert(hex_digits(n, width) == h + seq![hex_digit((n % 16) as int)]);
        assert forall|i: int| 0 <= i < width implies {
            let d = #[trigger] hex_digits(n, width)[i];
            (48 <= d <= 57) || (97 <= d <= 102)
        } by {
            if i < w1 {
                assert(hex_digits(n, width)[i] == h[i]);
            }
        }
    }
}

} // verus!
