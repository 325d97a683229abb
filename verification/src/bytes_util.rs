use vstd::prelude::*;

verus! {

/// Appends every byte of `data` to `out`.
pub fn append_bytes(out: &mut Vec<u8>, data: &[u8])
    ensures
        final(out)@ == old(out)@ + data@,
{
    let ghost start = out@;
    let mut i: usize = 0;
    while i < data.len()
        invariant
            i <= data.len(),
            out@ == start + data@.subrange(0, i as int),
        decreases data.len() - i,
    {
        out.push(data[i]);
        i = i + 1;
        proof {
            assert(data@.subrange(0, i as int) == data@.subrange(0, i - 1) + seq![data@[i - 1]]);
        }
    }
    proof {
        assert(data@.subrange(0, data@.len() as int) == data@);
    }
}

/// Whether `s` starts with `prefix` at byte offset `pos`.
pub open spec fn has_at(s: Seq<u8>, pos: int, prefix: Seq<u8>) -> bool {
    &&& 0 <= pos
    &&& pos + prefix.len() <= s.len()
    &&& s.subrange(pos, pos + prefix.len()) == prefix
}

/// Tests whether `s` holds `prefix` at byte offset `pos`.
pub fn bytes_at(s: &[u8], pos: usize, prefix: &[u8]) -> (b: bool)
    ensures
        b == has_at(s@, pos as int, prefix@),
{
    if pos > s.len() || prefix.len() > s.len() - pos {
        return false;
    }
    let mut i: usize = 0;
    while i < prefix.len()
        invariant
            pos + prefix.len() <= s.len(),
            i <= prefix.len(),
            forall|j: int| 0 <= j < i ==> s@[pos + j] == prefix@[j],
        decreases prefix.len() - i,
    {
        if s[pos + i] != prefix[i] {
            assert(s@.subrange(pos as int, pos + prefix.len())[i as int] != prefix@[i as int]);
            return false;
        }
        i = i + 1;
    }
    assert(s@.subrange(pos as int, pos + prefix.len()) =~= prefix@);
    true
}

} // verus!
