//! Lowercase hexadecimal encoding and decoding of byte strings, used for
//! HMAC tags on the wire and for the text form of connection identifiers.

use vstd::prelude::*;

verus! {

/// True of an ASCII byte that is a hexadecimal digit, either case.
pub open spec fn is_hex_digit(b: u8) -> bool {
    (0x30 <= b <= 0x39) || (0x61 <= b <= 0x66) || (0x41 <= b <= 0x46)
}

/// Numeric value of a hexadecimal digit byte.
pub open spec fn hex_val(b: u8) -> u8
    recommends
        is_hex_digit(b),
{
    if 0x30 <= b <= 0x39 {
        (b - 0x30) as u8
    } else if 0x61 <= b <= 0x66 {
        (b - 0x61 + 10) as u8
    } else {
        (b - 0x41 + 10) as u8
    }
}

/// Lowercase digit byte for a value below 16.
pub open spec fn hex_digit_lower(v: u8) -> u8
    recommends
        v < 16,
{
    if v < 10 {
        (0x30 + v) as u8
    } else {
        (0x61 + v - 10) as u8
    }
}

/// Lowercase hexadecimal encoding: two digit bytes for each input byte,
/// high nibble first.
pub open spec fn hex_of(bytes: Seq<u8>) -> Seq<u8>
    decreases bytes.len(),
{
    if bytes.len() == 0 {
        Seq::empty()
    } else {
        seq![
            hex_digit_lower(bytes.first() / 16),
            hex_digit_lower((bytes.first() % 16) as u8),
        ] + hex_of(bytes.drop_first())
    }
}

/// What decoding a digit string yields: `Some` of the bytes exactly when the
/// input has even length and holds hexadecimal digits only.
pub open spec fn hex_decoded(s: Seq<u8>) -> Option<Seq<u8>>
    decreases s.len(),
{
    if s.len() == 0 {
        Some(Seq::empty())
    } else if s.len() == 1 {
        None
    } else if is_hex_digit(s[0]) && is_hex_digit(s[1]) {
        match hex_decoded(s.skip(2)) {
            Some(rest) => Some(seq![(hex_val(s[0]) * 16 + hex_val(s[1])) as u8] + rest),
            None => None,
        }
    } else {
        None
    }
}

/// Exec test for a hexadecimal digit byte.
fn hex_digit_p(b: u8) -> (r: bool)
    ensures
        r == is_hex_digit(b),
{
    (0x30 <= b && b <= 0x39) || (0x61 <= b && b <= 0x66) || (0x41 <= b && b <= 0x46)
}

/// Exec value of a hexadecimal digit byte.
fn hex_digit_value(b: u8) -> (r: u8)
    requires
        is_hex_digit(b),
    ensures
        r == hex_val(b),
        r < 16,
{
    if 0x30 <= b && b <= 0x39 {
        b - 0x30
    } else if 0x61 <= b && b <= 0x66 {
        b - 0x61 + 10
    } else {
        b - 0x41 + 10
    }
}

/// Exec lowercase digit for a value below 16.
fn hex_digit_lower_exec(v: u8) -> (r: u8)
    requires
        v < 16,
    ensures
        r == hex_digit_lower(v),
{
    if v < 10 {
        0x30 + v
    } else {
        0x61 + v - 10
    }
}

/// Encodes bytes as lowercase hexadecimal digit bytes.
pub fn hex_encode(bytes: &[u8]) -> (r: Vec<u8>)
    ensures
        r@ == hex_of(bytes@),
        r@.len() == 2 * bytes@.len(),
{
    let mut out: Vec<u8> = Vec::new();
    let n = bytes.len();
    proof {
        assert(bytes@.skip(0) == bytes@);
        lemma_hex_of_len(bytes@);
    }
    for i in 0..n
        invariant
            n == bytes@.len(),
            out@ + hex_of(bytes@.skip(i as int)) == hex_of(bytes@),
            out@.len() == 2 * i,
    {
        let b = bytes[i];
        out.push(hex_digit_lower_exec(b / 16));
        out.push(hex_digit_lower_exec(b % 16));
        proof {
            assert(bytes@.skip(i as int).first() == b);
            assert(bytes@.skip(i as int).drop_first() == bytes@.skip(i + 1));
            assert(hex_of(bytes@.skip(i as int)) == seq![
                hex_digit_lower(b / 16),
                hex_digit_lower((b % 16) as u8),
            ] + hex_of(bytes@.skip(i + 1)));
        }
    }
    proof {
        assert(bytes@.skip(n as int) =~= Seq::<u8>::empty());
    }
    out
}

/// Decodes a hexadecimal digit string; `None` on odd length or a byte that
/// is not a digit.
pub fn hex_decode(s: &[u8]) -> (r: Option<Vec<u8>>)
    ensures
        match r {
            Some(v) => hex_decoded(s@) == Some(v@),
            None => hex_decoded(s@) is None,
        },
{
    let n = s.len();
    if n % 2 != 0 {
        proof {
            lemma_hex_decoded_odd(s@);
        }
        return None;
    }
    let mut out: Vec<u8> = Vec::new();
    let mut i: usize = 0;
    proof {
        assert(s@.skip(0) == s@);
    }
    while i < n
        invariant
            n == s@.len(),
            i % 2 == 0,
            i <= n,
            n % 2 == 0,
            forall|v: Seq<u8>|
                hex_decoded(s@.skip(i as int)) == Some::<Seq<u8>>(v) ==> hex_decoded(s@)
                    == Some::<Seq<u8>>(out@ + v),
            hex_decoded(s@.skip(i as int)) is None ==> hex_decoded(s@) is None,
        decreases n - i,
    {
        let a = s[i];
        let b = s[i + 1];
        if !(hex_digit_p(a) && hex_digit_p(b)) {
            proof {
                assert(s@.skip(i as int)[0] == a);
                assert(s@.skip(i as int)[1] == b);
                assert(hex_decoded(s@.skip(i as int)) is None);
            }
            return None;
        }
        let byte = hex_digit_value(a) * 16 + hex_digit_value(b);
        let ghost pre = out@;
        out.push(byte);
        proof {
            assert(s@.skip(i as int)[0] == a);
            assert(s@.skip(i as int)[1] == b);
            assert(s@.skip(i as int).skip(2) == s@.skip(i + 2));
            assert(forall|v: Seq<u8>|
                hex_decoded(s@.skip(i + 2)) == Some::<Seq<u8>>(v) ==> hex_decoded(s@.skip(i as int))
                    == Some::<Seq<u8>>(seq![byte] + v));
            assert(out@ == pre + seq![byte]);
            assert(forall|v: Seq<u8>| #[trigger] (out@ + v) =~= pre + (seq![byte] + v));
        }
        i = i + 2;
    }
    proof {
        assert(s@.skip(n as int) =~= Seq::<u8>::empty());
        assert(hex_decoded(s@.skip(n as int)) == Some(Seq::<u8>::empty()));
        assert(out@ + Seq::<u8>::empty() =~= out@);
    }
    Some(out)
}

/// The encoding of `n` bytes has `2 n` digits.
pub proof fn lemma_hex_of_len(bytes: Seq<u8>)
    ensures
        hex_of(bytes).len() == 2 * bytes.len(),
    decreases bytes.len(),
{
    if bytes.len() > 0 {
        lemma_hex_of_len(bytes.drop_first());
    }
}

/// Decoding inverts encoding: the digit string produced by `hex_of` decodes
/// to the original bytes.
pub proof fn lemma_hex_round_trip(bytes: Seq<u8>)
    ensures
        hex_decoded(hex_of(bytes)) == Some(bytes),
    decreases bytes.len(),
{
    if bytes.len() == 0 {
        assert(hex_of(bytes) =~= Seq::<u8>::empty());
    } else {
        lemma_hex_round_trip(bytes.drop_first());
        lemma_hex_of_len(bytes.drop_first());
        let b = bytes.first();
        let hi = hex_digit_lower(b / 16);
        let lo = hex_digit_lower((b % 16) as u8);
        let s = hex_of(bytes);
        assert(s == seq![hi, lo] + hex_of(bytes.drop_first()));
        assert(s[0] == hi && s[1] == lo);
        assert(is_hex_digit(hi) && is_hex_digit(lo));
        assert(hex_val(hi) == b / 16 && hex_val(lo) == b % 16);
        assert(s.skip(2) =~= hex_of(bytes.drop_first()));
        assert((hex_val(s[0]) * 16 + hex_val(s[1])) as u8 == b);
        assert(seq![b] + bytes.drop_first() =~= bytes);
    }
}

proof fn lemma_hex_decoded_odd(s: Seq<u8>)
    requires
        s.len() % 2 == 1,
    ensures
        hex_decoded(s) is None,
    decreases s.len(),
{
    if s.len() > 1 {
        if is_hex_digit(s[0]) && is_hex_digit(s[1]) {
            lemma_hex_decoded_odd(s.skip(2));
        }
    }
}

} // verus!
