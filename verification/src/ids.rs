//! Connection identifiers: 16-byte values carried on the wire in the
//! hyphenated lowercase text form `8-4-4-4-12`.

use vstd::prelude::*;
use crate::hexcode::{hex_decoded, hex_encode, hex_of, hex_decode, lemma_hex_of_len,
    lemma_hex_round_trip};

verus! {

/// A 16-byte connection identifier.
#[derive(Clone, Debug)]
pub struct UuidBytes {
    /// The raw identifier bytes; well-formed identifiers hold exactly 16.
    pub bytes: Vec<u8>,
}

impl View for UuidBytes {
    type V = Seq<u8>;

    open spec fn view(&self) -> Seq<u8> {
        self.bytes@
    }
}

impl UuidBytes {
    /// A well-formed identifier holds exactly 16 bytes.
    pub open spec fn wf(&self) -> bool {
        self.bytes@.len() == 16
    }

    /// Builds an identifier from its 16 bytes.
    pub fn from_bytes(bytes: Vec<u8>) -> (r: UuidBytes)
        requires
            bytes@.len() == 16,
        ensures
            r.wf(),
            r@ == bytes@,
    {
        UuidBytes { bytes }
    }

    /// The identifier's bytes.
    pub fn as_bytes(&self) -> (r: &Vec<u8>)
        ensures
            r@ == self@,
    {
        &self.bytes
    }

    /// True when the two identifiers hold the same bytes.
    pub fn same(&self, other: &UuidBytes) -> (r: bool)
        ensures
            r == (self@ == other@),
    {
        let r = self.bytes == other.bytes;
        proof {
            if r {
                assert(self@ =~= other@);
            }
            if self@ == other@ {
                assert(self.bytes@.len() == other.bytes@.len());
            }
        }
        r
    }

    /// Draws a fresh version-4 identifier.
    ///
    /// Relies on `uuid::Uuid::new_v4`: a freshly generated random UUID is
    /// always 16 bytes.  Nothing else is assumed of the random value.
    #[verifier::external_body]
    pub fn new_random() -> (r: UuidBytes)
        ensures
            r.wf(),
    {
        UuidBytes { bytes: uuid::Uuid::new_v4().into_bytes().to_vec() }
    }
}

/// The hyphenated lowercase text form of a 16-byte identifier:
/// `xxxxxxxx-xxxx-xxxx-xxxx-xxxxxxxxxxxx`.
pub open spec fn uuid_text(b: Seq<u8>) -> Seq<u8>
    recommends
        b.len() == 16,
{
    hex_of(b.subrange(0, 4)) + seq![0x2du8] + hex_of(b.subrange(4, 6)) + seq![0x2du8] + hex_of(
        b.subrange(6, 8),
    ) + seq![0x2du8] + hex_of(b.subrange(8, 10)) + seq![0x2du8] + hex_of(b.subrange(10, 16))
}

/// Appends the text form of an identifier.
pub fn push_uuid_text(out: &mut Vec<u8>, id: &UuidBytes)
    requires
        id.wf(),
    ensures
        final(out)@ == old(out)@ + uuid_text(id@),
{
    let b = id.as_bytes();
    let mut g1 = hex_encode(vstd::slice::slice_subrange(b.as_slice(), 0, 4));
    let mut g2 = hex_encode(vstd::slice::slice_subrange(b.as_slice(), 4, 6));
    let mut g3 = hex_encode(vstd::slice::slice_subrange(b.as_slice(), 6, 8));
    let mut g4 = hex_encode(vstd::slice::slice_subrange(b.as_slice(), 8, 10));
    let mut g5 = hex_encode(vstd::slice::slice_subrange(b.as_slice(), 10, 16));
    out.append(&mut g1);
    out.push(0x2d);
    out.append(&mut g2);
    out.push(0x2d);
    out.append(&mut g3);
    out.push(0x2d);
    out.append(&mut g4);
    out.push(0x2d);
    out.append(&mut g5);
    proof {
        assert(out@ =~= old(out)@ + uuid_text(id@));
    }
}

/// What parsing the text form yields: the 16 bytes exactly when the text is
/// 36 bytes long, has hyphens at positions 8, 13, 18 and 23, and lowercase
/// or uppercase hexadecimal digits elsewhere.
pub open spec fn uuid_parsed(s: Seq<u8>) -> Option<Seq<u8>> {
    if s.len() == 36 && s[8] == 0x2d && s[13] == 0x2d && s[18] == 0x2d && s[23] == 0x2d {
        match (
            hex_decoded(s.subrange(0, 8)),
            hex_decoded(s.subrange(9, 13)),
            hex_decoded(s.subrange(14, 18)),
            hex_decoded(s.subrange(19, 23)),
            hex_decoded(s.subrange(24, 36)),
        ) {
            (Some(a), Some(b), Some(c), Some(d), Some(e)) => Some(a + b + c + d + e),
            _ => None,
        }
    } else {
        None
    }
}

/// Parses the hyphenated text form of an identifier.
pub fn parse_uuid_text(s: &[u8]) -> (r: Option<UuidBytes>)
    ensures
        match r {
            Some(id) => id.wf() && uuid_parsed(s@) == Some(id@),
            None => uuid_parsed(s@) is None,
        },
{
    if s.len() != 36 {
        return None;
    }
    if !(s[8] == 0x2d && s[13] == 0x2d && s[18] == 0x2d && s[23] == 0x2d) {
        return None;
    }
    let p1 = hex_decode(vstd::slice::slice_subrange(s, 0, 8));
    let p2 = hex_decode(vstd::slice::slice_subrange(s, 9, 13));
    let p3 = hex_decode(vstd::slice::slice_subrange(s, 14, 18));
    let p4 = hex_decode(vstd::slice::slice_subrange(s, 19, 23));
    let p5 = hex_decode(vstd::slice::slice_subrange(s, 24, 36));
    match (p1, p2, p3, p4, p5) {
        (Some(a), Some(b), Some(c), Some(d), Some(e)) => {
            proof {
                lemma_hex_decoded_len(s@.subrange(0, 8));
                lemma_hex_decoded_len(s@.subrange(9, 13));
                lemma_hex_decoded_len(s@.subrange(14, 18));
                lemma_hex_decoded_len(s@.subrange(19, 23));
                lemma_hex_decoded_len(s@.subrange(24, 36));
            }
            let mut out = a;
            let mut bm = b;
            let mut cm = c;
            let mut dm = d;
            let mut em = e;
            out.append(&mut bm);
            out.append(&mut cm);
            out.append(&mut dm);
            out.append(&mut em);
            Some(UuidBytes::from_bytes(out))
        },
        _ => None,
    }
}

/// A decoded digit string holds half as many bytes as the digits.
proof fn lemma_hex_decoded_len(s: Seq<u8>)
    ensures
        hex_decoded(s) is Some ==> hex_decoded(s)->Some_0.len() * 2 == s.len(),
    decreases s.len(),
{
    if s.len() >= 2 {
        lemma_hex_decoded_len(s.skip(2));
    }
}

/// The text form of a 16-byte identifier is 36 bytes long.
pub proof fn lemma_uuid_text_len(b: Seq<u8>)
    requires
        b.len() == 16,
    ensures
        uuid_text(b).len() == 36,
{
    lemma_hex_of_len(b.subrange(0, 4));
    lemma_hex_of_len(b.subrange(4, 6));
    lemma_hex_of_len(b.subrange(6, 8));
    lemma_hex_of_len(b.subrange(8, 10));
    lemma_hex_of_len(b.subrange(10, 16));
}

/// Parsing inverts formatting: the text form of 16 bytes parses back to
/// those bytes.
pub proof fn lemma_uuid_text_round_trip(b: Seq<u8>)
    requires
        b.len() == 16,
    ensures
        uuid_parsed(uuid_text(b)) == Some(b),
{
    let s = uuid_text(b);
    lemma_hex_of_len(b.subrange(0, 4));
    lemma_hex_of_len(b.subrange(4, 6));
    lemma_hex_of_len(b.subrange(6, 8));
    lemma_hex_of_len(b.subrange(8, 10));
    lemma_hex_of_len(b.subrange(10, 16));
    assert(s.len() == 36);
    assert(s.subrange(0, 8) =~= hex_of(b.subrange(0, 4)));
    assert(s[8] == 0x2d);
    assert(s.subrange(9, 13) =~= hex_of(b.subrange(4, 6)));
    assert(s[13] == 0x2d);
    assert(s.subrange(14, 18) =~= hex_of(b.subrange(6, 8)));
    assert(s[18] == 0x2d);
    assert(s.subrange(19, 23) =~= hex_of(b.subrange(8, 10)));
    assert(s[23] == 0x2d);
    assert(s.subrange(24, 36) =~= hex_of(b.subrange(10, 16)));
    lemma_hex_round_trip(b.subrange(0, 4));
    lemma_hex_round_trip(b.subrange(4, 6));
    lemma_hex_round_trip(b.subrange(6, 8));
    lemma_hex_round_trip(b.subrange(8, 10));
    lemma_hex_round_trip(b.subrange(10, 16));
    assert(b.subrange(0, 4) + b.subrange(4, 6) + b.subrange(6, 8) + b.subrange(8, 10) + b.subrange(
        10,
        16,
    ) =~= b);
}

} // verus!
