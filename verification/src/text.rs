//! UTF-8 helpers over byte sequences.
use vstd::prelude::*;
use vstd::utf8::*;
use vstd::string::StringSliceAdditionalSpecFns;

verus! {

/// `std::str::from_utf8`: succeeds exactly on well-formed UTF-8 and then views
/// the same bytes as a string slice.
#[verifier::external_body]
pub(crate) fn str_from_utf8(bytes: &[u8]) -> (r: Option<&str>)
    ensures
        r is Some <==> valid_utf8(bytes@),
        r matches Some(s) ==> s.spec_bytes() == bytes@,
{
    std::str::from_utf8(bytes).ok()
}

/// What `String::from_utf8_lossy` makes of bytes: their text, each
/// ill-formed sequence replaced by U+FFFD.
pub uninterp spec fn lossy_text(bytes: Seq<u8>) -> Seq<char>;

/// `String::from_utf8_lossy(..).into_owned()`: the text of the bytes, each
/// ill-formed sequence replaced by U+FFFD; well-formed UTF-8 comes back as
/// the text it encodes.
#[verifier::external_body]
pub(crate) fn utf8_lossy(bytes: &[u8]) -> (r: String)
    ensures
        r@ == lossy_text(bytes@),
        valid_utf8(bytes@) ==> r@ == decode_utf8(bytes@),
{
    String::from_utf8_lossy(bytes).into_owned()
}

/// A prefix and the matching suffix of well-formed UTF-8, cut where no
/// continuation byte starts, are well-formed UTF-8.
pub proof fn lemma_utf8_cut(s: Seq<u8>, n: int)
    requires
        valid_utf8(s),
        0 <= n <= s.len(),
        n == s.len() || !is_continuation_byte(s[n]),
    ensures
        valid_utf8(s.subrange(0, n)),
        valid_utf8(s.subrange(n, s.len() as int)),
        is_char_boundary(s, n),
{
    if n == s.len() {
        is_char_boundary_start_end_of_seq(s);
    } else {
        is_char_boundary_iff_not_is_continuation_byte(s, n);
    }
    valid_utf8_split(s, n);
}

/// In well-formed UTF-8 whose first `n` bytes are ASCII, offset `n` starts a character.
pub proof fn lemma_ascii_prefix_boundary(s: Seq<u8>, n: int)
    requires
        valid_utf8(s),
        0 <= n <= s.len(),
        forall|i: int| 0 <= i < n ==> s[i] < 128,
    ensures
        is_char_boundary(s, n),
    decreases n,
{
    if n == 0 {
    } else {
        assert(s[0] < 128);
        assert(length_of_first_scalar(s) == 1);
        let t = pop_first_scalar(s);
        assert(t =~= s.subrange(1, s.len() as int));
        assert forall|i: int| 0 <= i < n - 1 implies t[i] < 128 by {
            assert(t[i] == s[i + 1]);
        }
        lemma_ascii_prefix_boundary(t, n - 1);
    }
}

/// Decoding the UTF-8 encoding of a string slice gives the string back.
pub proof fn lemma_str_decode(s: &str)
    ensures
        decode_utf8(s.spec_bytes()) == s@,
        valid_utf8(s.spec_bytes()),
{
    encode_utf8_valid_utf8(s@);
    encode_utf8_decode_utf8(s@);
}


/// A UTF-8 encoding takes at most four bytes per character.
pub proof fn lemma_encode_len(chars: Seq<char>)
    ensures
        encode_utf8(chars).len() <= 4 * chars.len(),
    decreases chars.len(),
{
    if chars.len() > 0 {
        lemma_encode_len(chars.drop_first());
    }
}


/// ASCII bytes are well-formed UTF-8.
pub proof fn lemma_ascii_valid(s: Seq<u8>)
    requires
        forall|i: int| 0 <= i < s.len() ==> #[trigger] s[i] < 128,
    ensures
        valid_utf8(s),
    decreases s.len(),
{
    if s.len() > 0 {
        let t = s.subrange(1, s.len() as int);
        assert forall|i: int| 0 <= i < t.len() implies #[trigger] t[i] < 128 by {
            assert(t[i] == s[i + 1]);
        }
        lemma_ascii_valid(t);
        assert(s[0] < 128);
        assert(length_of_first_scalar(s) == 1);
        assert(pop_first_scalar(s) =~= t);
        assert(decode_first_codepoint(s) == codepoint_width_1(s[0]));
        let b0 = s[0];
        assert(codepoint_width_1(b0) == b0 as u32) by (bit_vector)
            requires b0 < 128;
    }
}

} // verus!
