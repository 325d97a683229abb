//! Git object identifiers (SHA-1, 20 bytes) and their hexadecimal form.
use vstd::prelude::*;
use crate::pktline::hex_digit;

verus! {

/// A SHA-1 object id.
#[derive(Clone, Copy, Debug)]
pub struct ObjectId {
    pub bytes: [u8; 20],
}

impl View for ObjectId {
    type V = Seq<u8>;

    open spec fn view(&self) -> Seq<u8> {
        self.bytes@
    }
}

/// An ASCII hexadecimal digit, of either case.
pub open spec fn is_hex_digit(b: u8) -> bool {
    (48 <= b <= 57) || (65 <= b <= 70) || (97 <= b <= 102)
}

/// The value of a hexadecimal digit.
pub open spec fn hex_value(b: u8) -> int {
    if b <= 57 {
        b - 48
    } else if b <= 70 {
        b - 55
    } else {
        b - 87
    }
}

/// Forty hexadecimal digits: the text form of a SHA-1 object id.
pub open spec fn is_oid_hex(hex: Seq<u8>) -> bool {
    &&& hex.len() == 40
    &&& forall|i: int| 0 <= i < 40 ==> is_hex_digit(#[trigger] hex[i])
}

/// The bytes that a sequence of hexadecimal digit pairs stands for.
pub open spec fn hex_decode(hex: Seq<u8>) -> Seq<u8> {
    Seq::new(
        hex.len() / 2,
        |i: int| (hex_value(hex[2 * i]) * 16 + hex_value(hex[2 * i + 1])) as u8,
    )
}

/// The lowercase hexadecimal text of `bytes`, two digits per byte.
pub open spec fn hex_encode(bytes: Seq<u8>) -> Seq<u8> {
    Seq::new(
        2 * bytes.len(),
        |i: int|
            if i % 2 == 0 {
                hex_digit((bytes[i / 2] / 16) as int)
            } else {
                hex_digit((bytes[i / 2] % 16) as int)
            },
    )
}

/// `gix::ObjectId::from_hex`: with the `sha1` kind enabled it accepts exactly
/// forty hexadecimal digits of either case (checked by `faster_hex`) and
/// decodes each digit pair into one byte; any other input is an error.
#[verifier::external_body]
fn gix_object_id_from_hex(hex: &[u8]) -> (r: Option<ObjectId>)
    ensures
        r is Some <==> is_oid_hex(hex@),
        r matches Some(id) ==> id@ == hex_decode(hex@),
{
    match gix::ObjectId::from_hex(hex) {
        Ok(gix::ObjectId::Sha1(bytes)) => Some(ObjectId { bytes }),
        _ => None,
    }
}

impl ObjectId {
    /// Parses forty hexadecimal digits into an object id.
    pub fn from_hex(hex: &[u8]) -> (r: Option<ObjectId>)
        ensures
            r is Some <==> is_oid_hex(hex@),
            r matches Some(id) ==> id@ == hex_decode(hex@),
    {
        gix_object_id_from_hex(hex)
    }

    /// Whether two ids are the same.
    pub fn same(&self, other: &ObjectId) -> (b: bool)
        ensures
            b == (self@ == other@),
    {
        let mut i: usize = 0;
        while i < 20
            invariant
                i <= 20,
                self@.len() == 20,
                other@.len() == 20,
                forall|j: int| 0 <= j < i ==> self@[j] == other@[j],
            decreases 20 - i,
        {
            if self.bytes[i] != other.bytes[i] {
                return false;
            }
            i = i + 1;
        }
        assert(self@ =~= other@);
        true
    }

    /// The lowercase hexadecimal text of this id (what `Display` prints).
    pub fn to_hex(&self) -> (r: Vec<u8>)
        ensures
            r@ == hex_encode(self@),
            r@.len() == 40,
    {
        let mut out: Vec<u8> = Vec::new();
        let mut i: usize = 0;
        while i < 20
            invariant
                i <= 20,
                self@.len() == 20,
                out@.len() == 2 * i,
                forall|j: int| 0 <= j < 2 * i ==> out@[j] == #[trigger] hex_encode(self@)[j],
            decreases 20 - i,
        {
            let b = self.bytes[i];
            let hi: u8 = b / 16;
            let lo: u8 = b % 16;
            out.push(if hi < 10 { 48 + hi } else { 87 + hi });
            out.push(if lo < 10 { 48 + lo } else { 87 + lo });
            i = i + 1;
        }
        assert(out@ =~= hex_encode(self@));
        out
    }
}

/// The views of a sequence of ids.
pub open spec fn ids_view(ids: Seq<ObjectId>) -> Seq<Seq<u8>> {
    ids.map_values(|o: ObjectId| o@)
}

/// Tests whether `id` occurs in `ids`.
pub fn find_id(ids: &Vec<ObjectId>, id: &ObjectId) -> (b: bool)
    ensures
        b == ids_view(ids@).contains(id@),
{
    let mut i: usize = 0;
    while i < ids.len()
        invariant
            i <= ids.len(),
            forall|j: int| 0 <= j < i ==> ids@[j]@ != id@,
        decreases ids.len() - i,
    {
        if ids[i].same(id) {
            assert(ids_view(ids@)[i as int] == id@);
            return true;
        }
        i = i + 1;
    }
    proof {
        if ids_view(ids@).contains(id@) {
            let k = choose|k: int| 0 <= k < ids_view(ids@).len() && ids_view(ids@)[k] == id@;
            assert(ids@[k]@ == id@);
        }
    }
    false
}


/// The object id with these twenty bytes.
pub fn oid_from_bytes(b: &[u8]) -> (r: ObjectId)
    requires
        b@.len() == 20,
    ensures
        r@ == b@,
{
    let mut a: [u8; 20] = [0u8; 20];
    let mut i: usize = 0;
    while i < 20
        invariant
            i <= 20,
            b@.len() == 20,
            a@.len() == 20,
            forall|j: int| 0 <= j < i ==> a@[j] == b@[j],
        decreases 20 - i,
    {
        a[i] = b[i];
        i = i + 1;
    }
    assert(a@ =~= b@);
    ObjectId { bytes: a }
}

} // verus!
