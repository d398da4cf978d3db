//! The textual building blocks of the canonical JSON wire form: ASCII
//! literals, the canonical string escaping, and decimal numbers.
//!
//! The wire form is canonical: every message has exactly one byte encoding,
//! and the decoders accept exactly those encodings.

use vstd::prelude::*;
use crate::hexcode::{hex_digit_lower, hex_val, is_hex_digit};
use crate::utf8check::is_valid_utf8;
use crate::wire::{dec_rep, dec_val, is_digit};
use vstd::utf8::valid_utf8;

verus! {

/// The bytes of an ASCII character sequence, one byte per character.
pub open spec fn ascii_bytes(s: Seq<char>) -> Seq<u8> {
    Seq::new(s.len(), |i: int| s[i] as u8)
}

/// Appends the bytes of an ASCII literal.
pub fn append_lit(out: &mut Vec<u8>, lit: &str)
    requires
        vstd::string::is_ascii(lit),
    ensures
        final(out)@ == old(out)@ + ascii_bytes(lit@),
{
    let b = lit.as_bytes();
    proof {
        vstd::string::is_ascii_spec_bytes(lit);
        assert(b@ =~= ascii_bytes(lit@));
    }
    out.extend_from_slice(b);
    proof {
        assert(out@ =~= old(out)@ + ascii_bytes(lit@));
    }
}

/// Compares the bytes at `i` against an ASCII literal; on a match, returns
/// the index just past it.
pub fn match_lit(b: &[u8], i: usize, lit: &str) -> (r: Option<usize>)
    requires
        vstd::string::is_ascii(lit),
        i <= b@.len(),
    ensures
        match r {
            Some(j) => i <= j <= b@.len() && j - i == lit@.len() && b@.subrange(i as int, j as int)
                == ascii_bytes(lit@),
            None => i + lit@.len() > b@.len() || b@.subrange(i as int, i + lit@.len())
                != ascii_bytes(lit@),
        },
{
    let lb = lit.as_bytes();
    proof {
        vstd::string::is_ascii_spec_bytes(lit);
        assert(lb@ =~= ascii_bytes(lit@));
    }
    let m = lb.len();
    let n = b.len();
    if n - i < m {
        return None;
    }
    let mut k: usize = 0;
    while k < m
        invariant
            m == lb@.len(),
            n == b@.len(),
            i + m <= n,
            k <= m,
            lb@ == ascii_bytes(lit@),
            forall|t: int| 0 <= t < k ==> b@[i + t] == lb@[t],
        decreases m - k,
    {
        if b[i + k] != lb[k] {
            proof {
                assert(b@.subrange(i as int, i + m as int)[k as int] != ascii_bytes(lit@)[k as int]);
            }
            return None;
        }
        k = k + 1;
    }
    proof {
        assert(b@.subrange(i as int, (i + m) as int) =~= lb@);
    }
    Some(i + m)
}

/// Canonical escaping of one byte inside a JSON string.
pub open spec fn escape_byte(b: u8) -> Seq<u8> {
    if b == 0x22 {
        seq![0x5cu8, 0x22u8]
    } else if b == 0x5c {
        seq![0x5cu8, 0x5cu8]
    } else if b == 0x08 {
        seq![0x5cu8, 0x62u8]
    } else if b == 0x09 {
        seq![0x5cu8, 0x74u8]
    } else if b == 0x0a {
        seq![0x5cu8, 0x6eu8]
    } else if b == 0x0c {
        seq![0x5cu8, 0x66u8]
    } else if b == 0x0d {
        seq![0x5cu8, 0x72u8]
    } else if b < 0x20 {
        seq![0x5cu8, 0x75u8, 0x30u8, 0x30u8, hex_digit_lower(b / 16), hex_digit_lower(
            (b % 16) as u8,
        )]
    } else {
        seq![b]
    }
}

/// Canonical escaping of a whole string body.
pub open spec fn json_escape(s: Seq<u8>) -> Seq<u8>
    decreases s.len(),
{
    if s.len() == 0 {
        Seq::empty()
    } else {
        escape_byte(s.first()) + json_escape(s.drop_first())
    }
}

/// Escaping distributes over appending one byte at the end.
pub proof fn lemma_json_escape_snoc(s: Seq<u8>, b: u8)
    ensures
        json_escape(s.push(b)) == json_escape(s) + escape_byte(b),
    decreases s.len(),
{
    if s.len() == 0 {
        assert(s.push(b).len() == 1);
        assert(s.push(b).drop_first() =~= Seq::<u8>::empty());
        assert(s.push(b).first() == b);
        assert(json_escape(s.push(b)) == escape_byte(b) + json_escape(s.push(b).drop_first()));
        assert(json_escape(Seq::<u8>::empty()) == Seq::<u8>::empty());
        assert(json_escape(s) == Seq::<u8>::empty());
        assert(json_escape(s.push(b)) =~= json_escape(s) + escape_byte(b));
    } else {
        lemma_json_escape_snoc(s.drop_first(), b);
        assert(s.push(b).drop_first() =~= s.drop_first().push(b));
        assert(s.push(b).first() == s.first());
        assert(json_escape(s.push(b)) == escape_byte(s.first()) + json_escape(
            s.drop_first().push(b),
        ));
        assert(json_escape(s.push(b)) == escape_byte(s.first()) + (json_escape(s.drop_first())
            + escape_byte(b)));
        assert(escape_byte(s.first()) + (json_escape(s.drop_first()) + escape_byte(b)) =~= (
        escape_byte(s.first()) + json_escape(s.drop_first())) + escape_byte(b));
        assert(json_escape(s.push(b)) =~= json_escape(s) + escape_byte(b));
    }
}

/// No escape unit begins with a double quote, so the closing quote of a
/// string is never mistaken for content.
proof fn lemma_escape_unit_no_quote(b: u8)
    ensures
        escape_byte(b).len() >= 1,
        escape_byte(b)[0] != 0x22,
{
}

/// The lowercase digit of a value below 16 determines the value.
proof fn lemma_hex_digit_lower_injective(a: u8, b: u8)
    requires
        a < 16,
        b < 16,
        hex_digit_lower(a) == hex_digit_lower(b),
    ensures
        a == b,
{
}

/// Equal escape units stand for equal bytes.
proof fn lemma_escape_byte_injective(b1: u8, b2: u8)
    requires
        escape_byte(b1) == escape_byte(b2),
    ensures
        b1 == b2,
{
    let u1 = escape_byte(b1);
    let u2 = escape_byte(b2);
    if u1.len() == 1 {
        assert(u1[0] == b1 && u2[0] == b2);
    } else if u1.len() == 6 {
        assert(u1[4] == hex_digit_lower(b1 / 16) && u1[5] == hex_digit_lower((b1 % 16) as u8));
        assert(u2[4] == hex_digit_lower(b2 / 16) && u2[5] == hex_digit_lower((b2 % 16) as u8));
        lemma_hex_digit_lower_injective(b1 / 16, b2 / 16);
        lemma_hex_digit_lower_injective((b1 % 16) as u8, (b2 % 16) as u8);
        assert(b1 == (b1 / 16) * 16 + b1 % 16);
        assert(b2 == (b2 / 16) * 16 + b2 % 16);
    } else {
        assert(u1[1] == u2[1]);
    }
}

/// One escape unit at the head of a byte string determines the byte it
/// stands for and where the next unit begins.
proof fn lemma_escape_unit_prefix(b1: u8, b2: u8, x: Seq<u8>, y: Seq<u8>)
    requires
        escape_byte(b1) + x == escape_byte(b2) + y,
    ensures
        b1 == b2,
        x == y,
{
    let u1 = escape_byte(b1);
    let u2 = escape_byte(b2);
    let s = u1 + x;
    assert(s == u2 + y);
    assert(forall|i: int| 0 <= i < u1.len() ==> s[i] == u1[i]);
    assert(forall|i: int| 0 <= i < u2.len() ==> s[i] == u2[i]);
    assert(u1.len() == u2.len()) by {
        if u1.len() == 1 && u2.len() > 1 {
            assert(u2[0] == 0x5c && u1[0] == b1 && b1 != 0x5c);
        }
        if u2.len() == 1 && u1.len() > 1 {
            assert(u1[0] == 0x5c && u2[0] == b2 && b2 != 0x5c);
        }
        if u1.len() == 2 && u2.len() == 6 {
            assert(u2[1] == 0x75 && u1[1] != 0x75);
        }
        if u2.len() == 2 && u1.len() == 6 {
            assert(u1[1] == 0x75 && u2[1] != 0x75);
        }
    }
    assert(u1 =~= u2);
    lemma_escape_byte_injective(b1, b2);
    assert(x.len() == y.len());
    assert(x =~= y) by {
        assert(forall|i: int|
            0 <= i < x.len() ==> (u1 + x)[u1.len() + i] == x[i] && (u2 + y)[u2.len() + i] == y[i]);
    }
}

/// A whole escaped string with its closing quote determines its content and
/// whatever follows: the canonical string grammar is unambiguous.
pub proof fn lemma_escaped_string_deterministic(c1: Seq<u8>, c2: Seq<u8>, t1: Seq<u8>, t2: Seq<u8>)
    requires
        json_escape(c1) + seq![0x22u8] + t1 == json_escape(c2) + seq![0x22u8] + t2,
    ensures
        c1 == c2,
        t1 == t2,
    decreases c1.len(),
{
    let s1 = json_escape(c1) + seq![0x22u8] + t1;
    let s2 = json_escape(c2) + seq![0x22u8] + t2;
    if c1.len() == 0 {
        assert(json_escape(c1) == Seq::<u8>::empty());
        assert(s1 =~= seq![0x22u8] + t1);
        assert(s1[0] == 0x22);
        if c2.len() > 0 {
            lemma_escape_unit_no_quote(c2.first());
            assert(s2 =~= escape_byte(c2.first()) + (json_escape(c2.drop_first()) + seq![0x22u8]
                + t2));
            assert(s2[0] == escape_byte(c2.first())[0]);
            assert(false);
        }
        assert(json_escape(c2) == Seq::<u8>::empty());
        assert(s2 =~= seq![0x22u8] + t2);
        assert(t1.len() == t2.len());
        assert(t1 =~= t2) by {
            assert(forall|i: int|
                0 <= i < t1.len() ==> (seq![0x22u8] + t1)[1 + i] == t1[i] && (seq![0x22u8] + t2)[1
                    + i] == t2[i]);
        }
        assert(c1 =~= c2);
    } else {
        if c2.len() == 0 {
            lemma_escape_unit_no_quote(c1.first());
            assert(s2[0] == 0x22);
            assert(s1[0] == escape_byte(c1.first())[0]);
            assert(false);
        }
        assert(s1 =~= escape_byte(c1.first()) + (json_escape(c1.drop_first()) + seq![0x22u8] + t1));
        assert(s2 =~= escape_byte(c2.first()) + (json_escape(c2.drop_first()) + seq![0x22u8] + t2));
        lemma_escape_unit_prefix(
            c1.first(),
            c2.first(),
            json_escape(c1.drop_first()) + seq![0x22u8] + t1,
            json_escape(c2.drop_first()) + seq![0x22u8] + t2,
        );
        lemma_escaped_string_deterministic(c1.drop_first(), c2.drop_first(), t1, t2);
        assert(c1.first() == c2.first());
        assert(c1.drop_first() == c2.drop_first());
        assert(c1.len() == c2.len());
        assert forall|i: int| 0 <= i < c1.len() implies c1[i] == c2[i] by {
            if i == 0 {
            } else {
                assert(c1.drop_first()[i - 1] == c1[i]);
                assert(c2.drop_first()[i - 1] == c2[i]);
            }
        }
        assert(c1 =~= c2);
    }
}

/// Appends the canonical escaped form of `content` between double quotes.
pub fn append_json_string(out: &mut Vec<u8>, content: &[u8])
    ensures
        final(out)@ == old(out)@ + seq![0x22u8] + json_escape(content@) + seq![0x22u8],
{
    out.push(0x22);
    let n = content.len();
    let mut i: usize = 0;
    proof {
        assert(content@.take(0) =~= Seq::<u8>::empty());
    }
    while i < n
        invariant
            n == content@.len(),
            i <= n,
            out@ == old(out)@ + seq![0x22u8] + json_escape(content@.take(i as int)),
        decreases n - i,
    {
        let c = content[i];
        if c == 0x22 {
            out.push(0x5c);
            out.push(0x22);
        } else if c == 0x5c {
            out.push(0x5c);
            out.push(0x5c);
        } else if c == 0x08 {
            out.push(0x5c);
            out.push(0x62);
        } else if c == 0x09 {
            out.push(0x5c);
            out.push(0x74);
        } else if c == 0x0a {
            out.push(0x5c);
            out.push(0x6e);
        } else if c == 0x0c {
            out.push(0x5c);
            out.push(0x66);
        } else if c == 0x0d {
            out.push(0x5c);
            out.push(0x72);
        } else if c < 0x20 {
            out.push(0x5c);
            out.push(0x75);
            out.push(0x30);
            out.push(0x30);
            out.push(if c / 16 < 10 {
                0x30 + c / 16
            } else {
                0x61 + c / 16 - 10
            });
            out.push(if c % 16 < 10 {
                0x30 + c % 16
            } else {
                0x61 + c % 16 - 10
            });
        } else {
            out.push(c);
        }
        proof {
            lemma_json_escape_snoc(content@.take(i as int), c);
            assert(content@.take(i as int).push(c) =~= content@.take(i + 1));
            assert(out@ =~= old(out)@ + seq![0x22u8] + json_escape(content@.take(i + 1)));
        }
        i = i + 1;
    }
    out.push(0x22);
    proof {
        assert(content@.take(n as int) =~= content@);
        assert(out@ =~= old(out)@ + seq![0x22u8] + json_escape(content@) + seq![0x22u8]);
    }
}

/// A lowercase hexadecimal digit is the canonical digit of its own value.
proof fn lemma_hex_lower_canon(c: u8)
    requires
        (0x30 <= c <= 0x39) || (0x61 <= c <= 0x66),
    ensures
        is_hex_digit(c),
        hex_digit_lower(hex_val(c)) == c,
{
}

/// The head of an escaped string with its closing quote: an empty content
/// puts the quote first; otherwise the first escape unit leads, and what
/// follows it is the escaped remainder.
proof fn lemma_escape_head(cp: Seq<u8>, rest: Seq<u8>, s: Seq<u8>)
    requires
        s == json_escape(cp) + seq![0x22u8] + rest,
    ensures
        s.len() >= 1,
        cp.len() == 0 ==> s[0] == 0x22 && s.skip(1) == rest,
        cp.len() > 0 ==> s.len() >= escape_byte(cp.first()).len() + 1 && s.take(
            escape_byte(cp.first()).len() as int,
        ) == escape_byte(cp.first()) && s.skip(escape_byte(cp.first()).len() as int)
            == json_escape(cp.drop_first()) + seq![0x22u8] + rest && (forall|d: int|
            0 <= d < escape_byte(cp.first()).len() ==> s[d] == escape_byte(cp.first())[d]),
{
    if cp.len() == 0 {
        assert(json_escape(cp) == Seq::<u8>::empty());
        assert(s =~= seq![0x22u8] + rest);
        assert(s.skip(1) =~= rest);
    } else {
        let u = escape_byte(cp.first());
        assert(json_escape(cp) == u + json_escape(cp.drop_first()));
        assert(s =~= u + (json_escape(cp.drop_first()) + seq![0x22u8] + rest));
        assert(s.take(u.len() as int) =~= u);
        assert(s.skip(u.len() as int) =~= json_escape(cp.drop_first()) + seq![0x22u8] + rest);
    }
}

/// Whether a decomposition of the bytes from `from` as an escaped string
/// with closing quote exists, with the content extending `held`.
spec fn string_candidate(
    b: Seq<u8>,
    from: int,
    held: Seq<u8>,
    c: Seq<u8>,
    rest: Seq<u8>,
) -> bool {
    &&& held.len() <= c.len()
    &&& held == c.take(held.len() as int)
    &&& b.skip(from) == json_escape(c.skip(held.len() as int)) + seq![0x22u8] + rest
}

/// Reads a JSON string body that begins at `start`, just after its opening
/// quote, through its closing quote.
///
/// On success the content is well-formed UTF-8 and the consumed bytes are
/// exactly the canonical escaping of the content followed by the closing
/// quote.
/// What one candidate decomposition says about the head of the remaining
/// bytes: an exhausted content puts the closing quote first; otherwise the
/// bytes begin with the escape unit of the next content byte, and the
/// candidate persists past that unit.
proof fn lemma_candidate_head(b: Seq<u8>, at: int, held: Seq<u8>, c2: Seq<u8>, rest: Seq<u8>)
    requires
        0 <= at <= b.len(),
        string_candidate(b, at, held, c2, rest),
    ensures
        held.len() <= c2.len(),
        at < b.len(),
        c2.len() == held.len() ==> b[at] == 0x22 && c2 == held,
        c2.len() > held.len() ==> ({
            let u = escape_byte(c2[held.len() as int]);
            &&& at + u.len() + 1 <= b.len()
            &&& (forall|d: int| 0 <= d < u.len() ==> b[at + d] == u[d])
            &&& string_candidate(b, at + u.len(), held.push(c2[held.len() as int]), c2, rest)
        }),
{
    let s = b.skip(at);
    let cp = c2.skip(held.len() as int);
    lemma_escape_head(cp, rest, s);
    assert(s.len() == b.len() - at);
    assert(forall|d: int| 0 <= d < s.len() ==> s[d] == b[at + d]);
    if cp.len() == 0 {
        assert(c2.len() == held.len());
        assert(c2 =~= held);
    } else {
        let cf = cp.first();
        assert(cf == c2[held.len() as int]);
        let u = escape_byte(cf);
        assert(s.len() >= u.len() + 1);
        assert(held.push(cf) =~= c2.take(held.len() as int + 1));
        assert(cp.drop_first() =~= c2.skip(held.len() as int + 1));
        assert(s.skip(u.len() as int) =~= b.skip(at + u.len()));
        assert(string_candidate(b, at + u.len(), held.push(cf), c2, rest));
    }
}

/// The first byte of an escape unit is a backslash exactly when the byte it
/// stands for needs escaping; a plain unit is the byte itself.
proof fn lemma_escape_unit_first(cf: u8)
    ensures
        escape_byte(cf).len() == 1 ==> escape_byte(cf)[0] == cf && cf != 0x5c && cf >= 0x20,
        escape_byte(cf).len() != 1 ==> escape_byte(cf)[0] == 0x5c && escape_byte(cf).len() >= 2,
{
}

/// Reads a JSON string body that begins at `start`, just after its opening
/// quote, through its closing quote.
///
/// On success the content is well-formed UTF-8 and the consumed bytes are
/// exactly the canonical escaping of the content followed by the closing
/// quote; on failure no well-formed content has that shape here.
pub fn parse_json_string(b: &[u8], start: usize) -> (r: Option<(Vec<u8>, usize)>)
    requires
        start <= b@.len(),
    ensures
        match r {
            Some((content, end)) => {
                &&& start <= end <= b@.len()
                &&& b@.subrange(start as int, end as int) == json_escape(content@) + seq![0x22u8]
                &&& valid_utf8(content@)
            },
            None => forall|c2: Seq<u8>, rest: Seq<u8>|
                !(valid_utf8(c2) && b@.skip(start as int) == json_escape(c2) + seq![0x22u8] + rest),
        },
{
    let n = b.len();
    let mut i: usize = start;
    let mut content: Vec<u8> = Vec::new();
    proof {
        assert forall|c2: Seq<u8>, rest: Seq<u8>|
            b@.skip(start as int) == json_escape(c2) + seq![0x22u8] + rest
                implies #[trigger] string_candidate(b@, i as int, content@, c2, rest) by {
            assert(c2.skip(0) =~= c2);
            assert(c2.take(0) =~= content@);
        }
    }
    while i < n
        invariant
            n == b@.len(),
            start <= i <= n,
            b@.subrange(start as int, i as int) == json_escape(content@),
            forall|c2: Seq<u8>, rest: Seq<u8>|
                b@.skip(start as int) == json_escape(c2) + seq![0x22u8] + rest
                    ==> #[trigger] string_candidate(b@, i as int, content@, c2, rest),
        decreases n - i,
    {
        let ghost pre = content@;
        let ghost ipre = i as int;
        let c = b[i];
        if c == 0x22 {
            if !is_valid_utf8(content.as_slice()) {
                proof {
                    assert forall|c2: Seq<u8>, rest: Seq<u8>|
                        !(valid_utf8(c2) && b@.skip(start as int) == json_escape(c2) + seq![0x22u8]
                            + rest) by {
                        if b@.skip(start as int) == json_escape(c2) + seq![0x22u8] + rest {
                            assert(string_candidate(b@, ipre, pre, c2, rest));
                            lemma_candidate_head(b@, ipre, pre, c2, rest);
                            if c2.len() > pre.len() {
                                lemma_escape_unit_no_quote(c2[pre.len() as int]);
                                lemma_escape_unit_first(c2[pre.len() as int]);
                                assert(false);
                            }
                            assert(c2 == pre);
                        }
                    }
                }
                return None;
            }
            proof {
                assert(b@.subrange(start as int, i + 1) =~= json_escape(content@) + seq![0x22u8]);
            }
            return Some((content, i + 1));
        } else if c == 0x5c {
            proof {
                assert forall|c2: Seq<u8>, rest: Seq<u8>|
                    b@.skip(start as int) == json_escape(c2) + seq![0x22u8] + rest
                        implies c2.len() > pre.len() && escape_byte(c2[pre.len() as int])[0]
                        == 0x5c && escape_byte(c2[pre.len() as int]).len() >= 2 by {
                    assert(string_candidate(b@, ipre, pre, c2, rest));
                    lemma_candidate_head(b@, ipre, pre, c2, rest);
                    lemma_escape_unit_first(c2[pre.len() as int]);
                }
            }
            if i + 1 >= n {
                proof {
                    assert forall|c2: Seq<u8>, rest: Seq<u8>|
                        !(valid_utf8(c2) && b@.skip(start as int) == json_escape(c2) + seq![0x22u8]
                            + rest) by {
                        if b@.skip(start as int) == json_escape(c2) + seq![0x22u8] + rest {
                            lemma_candidate_head(b@, ipre, pre, c2, rest);
                        }
                    }
                }
                return None;
            }
            let e = b[i + 1];
            if e == 0x75 {
                proof {
                    assert forall|c2: Seq<u8>, rest: Seq<u8>|
                        b@.skip(start as int) == json_escape(c2) + seq![0x22u8] + rest
                            implies c2[pre.len() as int] < 0x20 && escape_byte(
                            c2[pre.len() as int],
                        ).len() == 6 by {
                        lemma_candidate_head(b@, ipre, pre, c2, rest);
                        let u = escape_byte(c2[pre.len() as int]);
                        assert(b@[ipre + 1] == u[1]);
                    }
                }
                if n - i < 6 {
                    proof {
                        assert forall|c2: Seq<u8>, rest: Seq<u8>|
                            !(valid_utf8(c2) && b@.skip(start as int) == json_escape(c2) + seq![
                                0x22u8,
                            ] + rest) by {
                            if b@.skip(start as int) == json_escape(c2) + seq![0x22u8] + rest {
                                lemma_candidate_head(b@, ipre, pre, c2, rest);
                            }
                        }
                    }
                    return None;
                }
                let h1 = b[i + 4];
                let h2 = b[i + 5];
                proof {
                    assert forall|c2: Seq<u8>, rest: Seq<u8>|
                        b@.skip(start as int) == json_escape(c2) + seq![0x22u8] + rest
                            implies b@[ipre + 2] == 0x30 && b@[ipre + 3] == 0x30 && h1
                            == hex_digit_lower(c2[pre.len() as int] / 16) && h2 == hex_digit_lower(
                            (c2[pre.len() as int] % 16) as u8,
                        ) by {
                        lemma_candidate_head(b@, ipre, pre, c2, rest);
                        let u = escape_byte(c2[pre.len() as int]);
                        assert(b@[ipre + 2] == u[2] && b@[ipre + 3] == u[3] && b@[ipre + 4] == u[4]
                            && b@[ipre + 5] == u[5]);
                    }
                }
                if !(b[i + 2] == 0x30 && b[i + 3] == 0x30) {
                    proof {
                        assert forall|c2: Seq<u8>, rest: Seq<u8>|
                            !(valid_utf8(c2) && b@.skip(start as int) == json_escape(c2) + seq![
                                0x22u8,
                            ] + rest) by {}
                    }
                    return None;
                }
                let ok1 = (0x30 <= h1 && h1 <= 0x39) || (0x61 <= h1 && h1 <= 0x66);
                let ok2 = (0x30 <= h2 && h2 <= 0x39) || (0x61 <= h2 && h2 <= 0x66);
                let v: u8;
                if ok1 && ok2 {
                    let v1 = if h1 <= 0x39 {
                        h1 - 0x30
                    } else {
                        h1 - 0x61 + 10
                    };
                    let v2 = if h2 <= 0x39 {
                        h2 - 0x30
                    } else {
                        h2 - 0x61 + 10
                    };
                    v = v1 * 16 + v2;
                    proof {
                        lemma_hex_lower_canon(h1);
                        lemma_hex_lower_canon(h2);
                        assert(hex_val(h1) == v1 && hex_val(h2) == v2);
                    }
                } else {
                    v = 0xff;
                }
                if !(ok1 && ok2) || !(v < 0x20) || v == 0x08 || v == 0x09 || v == 0x0a || v == 0x0c
                    || v == 0x0d {
                    proof {
                        assert forall|c2: Seq<u8>, rest: Seq<u8>|
                            !(valid_utf8(c2) && b@.skip(start as int) == json_escape(c2) + seq![
                                0x22u8,
                            ] + rest) by {
                            if b@.skip(start as int) == json_escape(c2) + seq![0x22u8] + rest {
                                let cf = c2[pre.len() as int];
                                assert(h1 == hex_digit_lower(cf / 16) && h2 == hex_digit_lower(
                                    (cf % 16) as u8,
                                ));
                                lemma_hex_lower_canon(h1);
                                lemma_hex_lower_canon(h2);
                                assert(ok1 && ok2);
                                assert(hex_val(h1) == cf / 16 && hex_val(h2) == (cf % 16) as u8);
                                assert(v == cf);
                                assert(false);
                            }
                        }
                    }
                    return None;
                }
                content.push(v);
                proof {
                    lemma_hex_lower_canon(h1);
                    lemma_hex_lower_canon(h2);
                    assert(v / 16 == hex_val(h1) && v % 16 == hex_val(h2));
                    assert(escape_byte(v) =~= seq![0x5cu8, 0x75u8, 0x30u8, 0x30u8, h1, h2]);
                    lemma_json_escape_snoc(pre, v);
                    assert(b@.subrange(start as int, ipre + 6) =~= json_escape(pre) + seq![
                        0x5cu8,
                        0x75u8,
                        0x30u8,
                        0x30u8,
                        h1,
                        h2,
                    ]);
                }
                i = i + 6;
                proof {
                    assert forall|c2: Seq<u8>, rest: Seq<u8>|
                        b@.skip(start as int) == json_escape(c2) + seq![0x22u8] + rest
                            implies #[trigger] string_candidate(b@, i as int, content@, c2, rest) by {
                        lemma_candidate_head(b@, ipre, pre, c2, rest);
                        let cf = c2[pre.len() as int];
                        assert(h1 == hex_digit_lower(cf / 16) && h2 == hex_digit_lower(
                            (cf % 16) as u8,
                        ));
                        lemma_hex_lower_canon(h1);
                        lemma_hex_lower_canon(h2);
                        assert(v == cf);
                        assert(escape_byte(cf).len() == 6);
                        assert(content@ == pre.push(cf));
                    }
                }
            } else {
                let v: u8;
                if e == 0x22 {
                    v = 0x22;
                } else if e == 0x5c {
                    v = 0x5c;
                } else if e == 0x62 {
                    v = 0x08;
                } else if e == 0x74 {
                    v = 0x09;
                } else if e == 0x6e {
                    v = 0x0a;
                } else if e == 0x66 {
                    v = 0x0c;
                } else if e == 0x72 {
                    v = 0x0d;
                } else {
                    proof {
                        assert forall|c2: Seq<u8>, rest: Seq<u8>|
                            !(valid_utf8(c2) && b@.skip(start as int) == json_escape(c2) + seq![
                                0x22u8,
                            ] + rest) by {
                            if b@.skip(start as int) == json_escape(c2) + seq![0x22u8] + rest {
                                lemma_candidate_head(b@, ipre, pre, c2, rest);
                                let u = escape_byte(c2[pre.len() as int]);
                                assert(b@[ipre + 1] == u[1]);
                                assert(false);
                            }
                        }
                    }
                    return None;
                }
                content.push(v);
                proof {
                    assert(escape_byte(v) =~= seq![0x5cu8, e]);
                    lemma_json_escape_snoc(pre, v);
                    assert(b@.subrange(start as int, ipre + 2) =~= json_escape(pre) + seq![
                        0x5cu8,
                        e,
                    ]);
                }
                i = i + 2;
                proof {
                    assert forall|c2: Seq<u8>, rest: Seq<u8>|
                        b@.skip(start as int) == json_escape(c2) + seq![0x22u8] + rest
                            implies #[trigger] string_candidate(b@, i as int, content@, c2, rest) by {
                        lemma_candidate_head(b@, ipre, pre, c2, rest);
                        let cf = c2[pre.len() as int];
                        let u = escape_byte(cf);
                        assert(b@[ipre + 1] == u[1]);
                        assert(u[1] == e);
                        assert(u.len() == 2);
                        assert(cf == v);
                        assert(content@ == pre.push(cf));
                    }
                }
            }
        } else if c < 0x20 {
            proof {
                assert forall|c2: Seq<u8>, rest: Seq<u8>|
                    !(valid_utf8(c2) && b@.skip(start as int) == json_escape(c2) + seq![0x22u8]
                        + rest) by {
                    if b@.skip(start as int) == json_escape(c2) + seq![0x22u8] + rest {
                        assert(string_candidate(b@, ipre, pre, c2, rest));
                        lemma_candidate_head(b@, ipre, pre, c2, rest);
                        if c2.len() > pre.len() {
                            lemma_escape_unit_first(c2[pre.len() as int]);
                            assert(false);
                        }
                        assert(false);
                    }
                }
            }
            return None;
        } else {
            content.push(c);
            proof {
                assert(escape_byte(c) =~= seq![c]);
                lemma_json_escape_snoc(pre, c);
                assert(b@.subrange(start as int, ipre + 1) =~= json_escape(pre) + seq![c]);
            }
            i = i + 1;
            proof {
                assert forall|c2: Seq<u8>, rest: Seq<u8>|
                    b@.skip(start as int) == json_escape(c2) + seq![0x22u8] + rest
                        implies #[trigger] string_candidate(b@, i as int, content@, c2, rest) by {
                    assert(string_candidate(b@, ipre, pre, c2, rest));
                    lemma_candidate_head(b@, ipre, pre, c2, rest);
                    assert(c2.len() > pre.len());
                    let cf = c2[pre.len() as int];
                    lemma_escape_unit_first(cf);
                    assert(escape_byte(cf).len() == 1) by {
                        if escape_byte(cf).len() != 1 {
                            assert(b@[ipre] == 0x5c);
                        }
                    }
                    assert(cf == c);
                    assert(content@ == pre.push(cf));
                }
            }
        }
    }
    proof {
        assert forall|c2: Seq<u8>, rest: Seq<u8>|
            !(valid_utf8(c2) && b@.skip(start as int) == json_escape(c2) + seq![0x22u8] + rest) by {
            if b@.skip(start as int) == json_escape(c2) + seq![0x22u8] + rest {
                assert(string_candidate(b@, i as int, content@, c2, rest));
                lemma_candidate_head(b@, i as int, content@, c2, rest);
            }
        }
    }
    None
}

/// Reads a canonical decimal number that fits a `u16` beginning at `start`.
///
/// On success the consumed bytes are exactly the canonical decimal
/// representation of the value.
pub fn parse_dec_u16(b: &[u8], start: usize) -> (r: Option<(u16, usize)>)
    requires
        start <= b@.len(),
    ensures
        match r {
            Some((v, end)) => start <= end <= b@.len() && b@.subrange(start as int, end as int)
                == dec_rep(v as nat) && (end == b@.len() || !is_digit(b@[end as int])),
            None => forall|v: u16, j: int|
                start <= j <= b@.len() ==> !(b@.subrange(start as int, j) == dec_rep(v as nat) && (
                j == b@.len() || !is_digit(b@[j]))),
        },
{
    let n = b.len();
    if start >= n {
        proof {
            assert forall|v: u16, j: int|
                start <= j <= b@.len() implies !(b@.subrange(start as int, j) == dec_rep(v as nat)
                && (j == b@.len() || !is_digit(b@[j]))) by {
                crate::wire::lemma_dec_rep_shape(v as nat);
                assert(b@.subrange(start as int, j).len() == 0);
            }
        }
        return None;
    }
    if !(0x30 <= b[start] && b[start] <= 0x39) {
        proof {
            assert forall|v: u16, j: int|
                start <= j <= b@.len() implies !(b@.subrange(start as int, j) == dec_rep(v as nat)
                && (j == b@.len() || !is_digit(b@[j]))) by {
                crate::wire::lemma_dec_rep_shape(v as nat);
                if b@.subrange(start as int, j) == dec_rep(v as nat) {
                    assert(b@.subrange(start as int, j)[0] == b@[start as int]);
                    assert(is_digit(dec_rep(v as nat)[0]));
                }
            }
        }
        return None;
    }
    let mut i: usize = start + 1;
    let mut acc: u32 = (b[start] - 0x30) as u32;
    proof {
        let s = b@.subrange(start as int, start + 1);
        assert(s.len() == 1);
        assert(s.drop_last() =~= Seq::<u8>::empty());
        assert(s.last() == b@[start as int]);
        assert(dec_val(s) == dec_val(s.drop_last()) * 10 + (s.last() - 0x30) as nat);
    }
    while i < n && 0x30 <= b[i] && b[i] <= 0x39
        invariant
            n == b@.len(),
            start < i <= n,
            acc == dec_val(b@.subrange(start as int, i as int)),
            acc <= 65535,
            forall|t: int| start <= t < i ==> is_digit(#[trigger] b@[t]),
        decreases n - i,
    {
        proof {
            let s0 = b@.subrange(start as int, i as int);
            let s1 = b@.subrange(start as int, i + 1);
            assert(s1.drop_last() =~= s0);
            assert(s1.last() == b@[i as int]);
            assert(dec_val(s1) == dec_val(s1.drop_last()) * 10 + (s1.last() - 0x30) as nat);
        }
        acc = acc * 10 + (b[i] - 0x30) as u32;
        i = i + 1;
        if acc > 65535 {
            proof {
                assert forall|v: u16, j: int|
                    start <= j <= b@.len() implies !(b@.subrange(start as int, j) == dec_rep(
                    v as nat,
                ) && (j == b@.len() || !is_digit(b@[j]))) by {
                    crate::wire::lemma_dec_rep_shape(v as nat);
                    if b@.subrange(start as int, j) == dec_rep(v as nat) && (j == b@.len()
                        || !is_digit(b@[j])) {
                        let cand = b@.subrange(start as int, j);
                        assert(j >= i) by {
                            if j < i {
                                assert(is_digit(b@[j]));
                            }
                        }
                        assert(forall|t: int| 0 <= t < j - start ==> is_digit(#[trigger] cand[t]));
                        lemma_dec_val_digit_monotone(cand, i - start, j - start);
                        assert(cand.take(i - start) =~= b@.subrange(start as int, i as int));
                        assert(cand.take(j - start) =~= cand);
                        crate::wire::lemma_dec_val_of_rep(v as nat);
                        assert(dec_val(cand) == v as nat);
                        assert(acc <= dec_val(cand));
                    }
                }
            }
            return None;
        }
    }
    if b[start] == 0x30 && i > start + 1 {
        proof {
            assert forall|v: u16, j: int|
                start <= j <= b@.len() implies !(b@.subrange(start as int, j) == dec_rep(v as nat)
                && (j == b@.len() || !is_digit(b@[j]))) by {
                crate::wire::lemma_dec_rep_shape(v as nat);
                if b@.subrange(start as int, j) == dec_rep(v as nat) && (j == b@.len() || !is_digit(
                    b@[j],
                )) {
                    assert(b@.subrange(start as int, j)[0] == b@[start as int]);
                    assert(dec_rep(v as nat)[0] == 0x30);
                    assert(dec_rep(v as nat).len() == 1) by {
                        if dec_rep(v as nat).len() > 1 {
                            assert((v as nat) >= 10) by {
                                if (v as nat) < 10 {
                                    assert(dec_rep(v as nat).len() == 1);
                                }
                            }
                            assert(dec_rep(v as nat)[0] != 0x30);
                        }
                    }
                    assert(j == start + 1);
                    assert(is_digit(b@[start + 1]));
                }
            }
        }
        return None;
    }
    proof {
        lemma_canonical_digits(b@.subrange(start as int, i as int));
    }
    Some((acc as u16, i))
}

/// The value of a digit string grows with the length of the prefix read.
proof fn lemma_dec_val_digit_monotone(s: Seq<u8>, k: int, m: int)
    requires
        0 <= k <= m <= s.len(),
        forall|t: int| 0 <= t < m ==> is_digit(#[trigger] s[t]),
    ensures
        dec_val(s.take(k)) <= dec_val(s.take(m)),
    decreases m - k,
{
    if k < m {
        lemma_dec_val_digit_monotone(s, k + 1, m);
        assert(s.take(k + 1).drop_last() =~= s.take(k));
        assert(s.take(k + 1).last() == s[k]);
        assert(dec_val(s.take(k + 1)) == dec_val(s.take(k)) * 10 + (s[k] - 0x30) as nat);
    }
}

/// A nonempty all-digit string without a leading zero is the canonical
/// representation of its value.
pub proof fn lemma_canonical_digits(s: Seq<u8>)
    requires
        s.len() >= 1,
        forall|t: int| 0 <= t < s.len() ==> is_digit(#[trigger] s[t]),
        s[0] == 0x30 ==> s.len() == 1,
    ensures
        s == dec_rep(dec_val(s)),
    decreases s.len(),
{
    if s.len() == 1 {
        assert(s.drop_last() =~= Seq::<u8>::empty());
        assert(dec_val(s) == dec_val(s.drop_last()) * 10 + (s.last() - 0x30) as nat);
        assert(dec_val(s) == (s[0] - 0x30) as nat);
        assert(dec_val(s) < 10);
        assert(dec_rep(dec_val(s)) =~= s);
    } else {
        let s0 = s.drop_last();
        assert(forall|t: int| 0 <= t < s0.len() ==> is_digit(#[trigger] s0[t]) && s0[t] == s[t]);
        assert(s0[0] == s[0]);
        assert(s0[0] != 0x30);
        lemma_canonical_digits(s0);
        lemma_dec_val_pos(s0);
        let v = dec_val(s);
        assert(v == dec_val(s0) * 10 + (s.last() - 0x30) as nat);
        assert(v >= 10);
        assert(v % 10 == (s.last() - 0x30) as nat && v / 10 == dec_val(s0)) by {
            assert(((s.last() - 0x30) as nat) < 10);
        }
        assert(dec_rep(v) == dec_rep(v / 10) + seq![(0x30 + v % 10) as u8]);
        assert(s =~= s0.push(s.last()));
        assert(dec_rep(v) =~= s);
    }
}

/// A nonempty digit string without a leading zero has a positive value.
proof fn lemma_dec_val_pos(s: Seq<u8>)
    requires
        s.len() >= 1,
        forall|t: int| 0 <= t < s.len() ==> is_digit(#[trigger] s[t]),
        s[0] != 0x30,
    ensures
        dec_val(s) >= 1,
    decreases s.len(),
{
    if s.len() == 1 {
        assert(s.drop_last() =~= Seq::<u8>::empty());
        assert(dec_val(s) == dec_val(s.drop_last()) * 10 + (s.last() - 0x30) as nat);
    } else {
        let s0 = s.drop_last();
        assert(forall|t: int| 0 <= t < s0.len() ==> is_digit(#[trigger] s0[t]) && s0[t] == s[t]);
        lemma_dec_val_pos(s0);
        assert(dec_val(s) == dec_val(s0) * 10 + (s.last() - 0x30) as nat);
    }
}

} // verus!
