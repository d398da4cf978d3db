//! A checker that a byte string is well-formed UTF-8, proved against the
//! UTF-8 model of the standard library's specification.

use vstd::prelude::*;
use vstd::utf8::{is_continuation_byte, valid_first_scalar, valid_utf8, pop_first_scalar,
    length_of_first_scalar, decode_first_codepoint, is_leading_byte_width_1,
    is_leading_byte_width_2, is_leading_byte_width_3, is_leading_byte_width_4,
    valid_leading_and_continuation_bytes_first_codepoint, not_overlong_encoding, not_surrogate,
    length_of_first_codepoint};

verus! {

/// If the head of a suffix is a valid scalar, validity of the whole suffix
/// is validity of what follows that scalar.
proof fn lemma_valid_utf8_step(s: Seq<u8>)
    requires
        s.len() > 0,
        valid_first_scalar(s),
    ensures
        valid_utf8(s) == valid_utf8(pop_first_scalar(s)),
{
}

/// True exactly when `bytes` is well-formed UTF-8.
pub fn is_valid_utf8(bytes: &[u8]) -> (r: bool)
    ensures
        r == valid_utf8(bytes@),
{
    let n = bytes.len();
    let mut i: usize = 0;
    proof {
        assert(bytes@.skip(0) == bytes@);
    }
    while i < n
        invariant
            n == bytes@.len(),
            i <= n,
            valid_utf8(bytes@) == valid_utf8(bytes@.skip(i as int)),
        decreases n - i,
    {
        let ghost s = bytes@.skip(i as int);
        let b0 = bytes[i];
        proof {
            assert(s[0] == bytes@[i as int]);
        }
        let width: usize;
        if b0 <= 0x7f {
            proof {
                assert(valid_leading_and_continuation_bytes_first_codepoint(s));
                assert((b0 & 0x7f) <= 0x7f) by (bit_vector);
                assert(valid_first_scalar(s));
                assert(length_of_first_scalar(s) == 1);
            }
            width = 1;
        } else if 0xc0 <= b0 && b0 <= 0xdf {
            if !(i + 1 < n && 0x80 <= bytes[i + 1] && bytes[i + 1] <= 0xbf) {
                proof {
                    assert(s.len() >= 2 ==> s[1] == bytes@[i + 1]);
                    assert(!valid_leading_and_continuation_bytes_first_codepoint(s));
                    assert(!valid_first_scalar(s));
                }
                return false;
            }
            let b1 = bytes[i + 1];
            let cp: u32 = (((b0 & 0x1f) as u32) << 6u32) | ((b1 & 0x3f) as u32);
            proof {
                assert(s[1] == bytes@[i + 1]);
                assert(decode_first_codepoint(s) == cp);
            }
            if cp < 0x80 {
                proof {
                    assert(length_of_first_codepoint(s) == 2);
                    assert(!valid_first_scalar(s));
                }
                return false;
            }
            proof {
                assert((((b0 & 0x1f) as u32) << 6u32) | ((b1 & 0x3f) as u32) <= 0x7ff)
                    by (bit_vector);
                assert(not_surrogate(cp));
                assert(valid_first_scalar(s));
                assert(length_of_first_scalar(s) == 2);
            }
            width = 2;
        } else if 0xe0 <= b0 && b0 <= 0xef {
            if !(i + 1 < n && 0x80 <= bytes[i + 1] && bytes[i + 1] <= 0xbf && i + 2 < n && 0x80
                <= bytes[i + 2] && bytes[i + 2] <= 0xbf) {
                proof {
                    assert(s.len() >= 2 ==> s[1] == bytes@[i + 1]);
                    assert(s.len() >= 3 ==> s[2] == bytes@[i + 2]);
                    assert(!valid_leading_and_continuation_bytes_first_codepoint(s));
                    assert(!valid_first_scalar(s));
                }
                return false;
            }
            let b1 = bytes[i + 1];
            let b2 = bytes[i + 2];
            let cp: u32 = (((b0 & 0x0f) as u32) << 12u32) | (((b1 & 0x3f) as u32) << 6u32) | ((b2
                & 0x3f) as u32);
            proof {
                assert(s[1] == bytes@[i + 1]);
                assert(s[2] == bytes@[i + 2]);
                assert(decode_first_codepoint(s) == cp);
            }
            if cp < 0x800 || (0xd800 <= cp && cp <= 0xdfff) {
                proof {
                    assert(length_of_first_codepoint(s) == 3);
                    assert(!valid_first_scalar(s));
                }
                return false;
            }
            proof {
                assert(valid_first_scalar(s));
                assert(length_of_first_scalar(s) == 3);
            }
            width = 3;
        } else if 0xf0 <= b0 && b0 <= 0xf7 {
            if !(i + 1 < n && 0x80 <= bytes[i + 1] && bytes[i + 1] <= 0xbf && i + 2 < n && 0x80
                <= bytes[i + 2] && bytes[i + 2] <= 0xbf && i + 3 < n && 0x80 <= bytes[i + 3]
                && bytes[i + 3] <= 0xbf) {
                proof {
                    assert(s.len() >= 2 ==> s[1] == bytes@[i + 1]);
                    assert(s.len() >= 3 ==> s[2] == bytes@[i + 2]);
                    assert(s.len() >= 4 ==> s[3] == bytes@[i + 3]);
                    assert(!valid_leading_and_continuation_bytes_first_codepoint(s));
                    assert(!valid_first_scalar(s));
                }
                return false;
            }
            let b1 = bytes[i + 1];
            let b2 = bytes[i + 2];
            let b3 = bytes[i + 3];
            let cp: u32 = (((b0 & 0x07) as u32) << 18u32) | (((b1 & 0x3f) as u32) << 12u32) | (((
            b2 & 0x3f) as u32) << 6u32) | ((b3 & 0x3f) as u32);
            proof {
                assert(s[1] == bytes@[i + 1]);
                assert(s[2] == bytes@[i + 2]);
                assert(s[3] == bytes@[i + 3]);
                assert(decode_first_codepoint(s) == cp);
            }
            if cp < 0x10000 || cp > 0x10ffff {
                proof {
                    assert(length_of_first_codepoint(s) == 4);
                    assert(!valid_first_scalar(s));
                }
                return false;
            }
            proof {
                assert(valid_first_scalar(s));
                assert(length_of_first_scalar(s) == 4);
            }
            width = 4;
        } else {
            proof {
                assert(!valid_leading_and_continuation_bytes_first_codepoint(s));
                assert(!valid_first_scalar(s));
            }
            return false;
        }
        proof {
            assert(valid_first_scalar(s));
            assert(length_of_first_scalar(s) == width);
            lemma_valid_utf8_step(s);
            assert(pop_first_scalar(s) =~= bytes@.skip(i + width));
        }
        i = i + width;
    }
    proof {
        assert(bytes@.skip(n as int) =~= Seq::<u8>::empty());
    }
    true
}

} // verus!
