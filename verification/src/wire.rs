//! Length-delimited framing: an ASCII decimal byte count, one space, then
//! exactly that many payload bytes.  Payloads above [`MAX_FRAME_LENGTH`]
//! bytes are a protocol error.

use vstd::prelude::*;

verus! {

/// Hard ceiling on the payload length of one frame, in bytes.
pub const MAX_FRAME_LENGTH: usize = 65536;

/// TCP port on which the control protocol is spoken.
pub const CONTROL_PORT: u16 = 7835;

/// True of an ASCII decimal digit byte.
pub open spec fn is_digit(b: u8) -> bool {
    0x30 <= b <= 0x39
}

/// Canonical ASCII decimal representation of a number: no leading zeros,
/// at least one digit.
pub open spec fn dec_rep(n: nat) -> Seq<u8>
    decreases n,
{
    if n < 10 {
        seq![(0x30 + n) as u8]
    } else {
        dec_rep(n / 10) + seq![(0x30 + n % 10) as u8]
    }
}

/// Value of an ASCII decimal digit string.
pub open spec fn dec_val(s: Seq<u8>) -> nat
    decreases s.len(),
{
    if s.len() == 0 {
        0
    } else {
        dec_val(s.drop_last()) * 10 + (s.last() - 0x30) as nat
    }
}

/// Length of the leading run of decimal digit bytes.
pub open spec fn digit_run(s: Seq<u8>) -> int
    decreases s.len(),
{
    if s.len() == 0 || !is_digit(s[0]) {
        0
    } else {
        1 + digit_run(s.drop_first())
    }
}

/// The bytes of one whole frame around a payload.
pub open spec fn frame_of(payload: Seq<u8>) -> Seq<u8> {
    dec_rep(payload.len()) + seq![0x20u8] + payload
}

/// What the decoder finds at the head of a byte buffer.
pub enum FrameOutcome {
    /// No complete frame yet; more bytes are needed.
    Incomplete,
    /// The declared length exceeds the frame ceiling.
    TooLarge,
    /// The prefix is not a well-formed length-and-space header.
    Bad,
    /// A whole frame: its payload, and how many bytes it occupied.
    Payload(Seq<u8>, int),
}

/// Decoding, at the specification level, of the head of a buffer.
pub open spec fn parse_frame(buf: Seq<u8>) -> FrameOutcome {
    let d = digit_run(buf);
    let declared = dec_val(buf.take(d));
    if d == 0 {
        if buf.len() == 0 {
            FrameOutcome::Incomplete
        } else {
            FrameOutcome::Bad
        }
    } else if buf[0] == 0x30 && d > 1 {
        FrameOutcome::Bad
    } else if declared > MAX_FRAME_LENGTH {
        FrameOutcome::TooLarge
    } else if d == buf.len() {
        FrameOutcome::Incomplete
    } else if buf[d] != 0x20 {
        FrameOutcome::Bad
    } else if buf.len() < d + 1 + declared {
        FrameOutcome::Incomplete
    } else {
        FrameOutcome::Payload(buf.subrange(d + 1, d + 1 + declared), d + 1 + declared)
    }
}

/// Why a received byte stream was rejected.
#[derive(Debug, PartialEq, Eq, Structural, Clone, Copy)]
pub enum FrameError {
    /// The declared payload length exceeds [`MAX_FRAME_LENGTH`].
    FrameTooLarge,
    /// The bytes do not form a well-formed frame or message.
    Malformed,
}

/// Appends the canonical decimal digits of `n`.
pub fn push_dec(out: &mut Vec<u8>, n: u64)
    ensures
        final(out)@ == old(out)@ + dec_rep(n as nat),
    decreases n,
{
    if n < 10 {
        out.push(0x30 + n as u8);
    } else {
        push_dec(out, n / 10);
        out.push(0x30 + (n % 10) as u8);
        proof {
            assert(old(out)@ + dec_rep((n / 10) as nat) + seq![(0x30 + n as nat % 10) as u8]
                =~= old(out)@ + dec_rep(n as nat));
        }
    }
}

/// Encodes one frame: decimal length, one space, then the payload.
pub fn encode_frame(payload: &[u8]) -> (r: Vec<u8>)
    requires
        payload@.len() <= MAX_FRAME_LENGTH,
    ensures
        r@ == frame_of(payload@),
{
    let mut out: Vec<u8> = Vec::new();
    push_dec(&mut out, payload.len() as u64);
    out.push(0x20);
    let mut i: usize = 0;
    let n = payload.len();
    while i < n
        invariant
            n == payload@.len(),
            i <= n,
            out@ == dec_rep(payload@.len()) + seq![0x20u8] + payload@.take(i as int),
        decreases n - i,
    {
        out.push(payload[i]);
        proof {
            assert(payload@.take(i as int) + seq![payload@[i as int]] =~= payload@.take(i + 1));
            assert(dec_rep(payload@.len()) + seq![0x20u8] + payload@.take(i as int) + seq![
                payload@[i as int],
            ] =~= dec_rep(payload@.len()) + seq![0x20u8] + payload@.take(i + 1));
        }
        i = i + 1;
    }
    proof {
        assert(payload@.take(n as int) =~= payload@);
    }
    out
}

/// Splits one frame off the head of `buf`, if a whole one is there.
///
/// Returns the payload and the exact number of bytes the frame occupied:
/// the digits of the declared length, the space, and the payload itself.
pub fn split_frame(buf: &[u8]) -> (r: Result<Option<(Vec<u8>, usize)>, FrameError>)
    ensures
        match r {
            Ok(Some((payload, consumed))) => parse_frame(buf@) == FrameOutcome::Payload(
                payload@,
                consumed as int,
            ),
            Ok(None) => parse_frame(buf@) is Incomplete,
            Err(FrameError::FrameTooLarge) => parse_frame(buf@) is TooLarge,
            Err(FrameError::Malformed) => parse_frame(buf@) is Bad,
        },
{
    let n = buf.len();
    if n == 0 {
        return Ok(None);
    }
    if !(0x30 <= buf[0] && buf[0] <= 0x39) {
        proof {
            assert(digit_run(buf@) == 0);
        }
        return Err(FrameError::Malformed);
    }
    if buf[0] == 0x30 && n >= 2 && 0x30 <= buf[1] && buf[1] <= 0x39 {
        proof {
            assert(buf@.drop_first()[0] == buf@[1]);
            lemma_digit_run_bounds(buf@);
            lemma_digit_run_extend(buf@, 0);
            lemma_digit_run_extend(buf@, 1);
            assert(digit_run(buf@) >= 2);
        }
        return Err(FrameError::Malformed);
    }
    let ghost d = digit_run(buf@);
    proof {
        lemma_digit_run_bounds(buf@);
        lemma_digit_run_bounds(buf@.drop_first());
        assert(digit_run(buf@) == 1 + digit_run(buf@.drop_first()));
        assert(d >= 1);
        if n >= 2 && is_digit(buf@[1]) {
        } else {
            assert(d == 1) by {
                if digit_run(buf@.drop_first()) > 0 {
                    assert(is_digit(buf@.drop_first()[0]));
                    assert(buf@.drop_first()[0] == buf@[1]);
                }
            }
        }
        assert(buf@[0] == 0x30 ==> d == 1);
    }
    let mut i: usize = 1;
    let mut acc: u64 = (buf[0] - 0x30) as u64;
    proof {
        assert(d >= 1);
        assert(buf@.take(1).len() == 1);
        assert(buf@.take(1).drop_last() =~= Seq::<u8>::empty());
        assert(buf@.take(1).last() == buf@[0]);
        assert(dec_val(buf@.take(1)) == dec_val(buf@.take(1).drop_last()) * 10 + (buf@.take(
            1,
        ).last() - 0x30) as nat);
    }
    while i < n && 0x30 <= buf[i] && buf[i] <= 0x39
        invariant
            n == buf@.len(),
            1 <= i <= n,
            i <= d,
            d == digit_run(buf@),
            acc == dec_val(buf@.take(i as int)),
            acc <= MAX_FRAME_LENGTH,
            buf@[0] == 0x30 ==> d == 1,
        decreases n - i,
    {
        proof {
            lemma_digit_run_extend(buf@, i as int);
            assert(buf@.take(i + 1).drop_last() =~= buf@.take(i as int));
            assert(buf@.take(i + 1).last() == buf@[i as int]);
        }
        acc = acc * 10 + (buf[i] - 0x30) as u64;
        i = i + 1;
        if acc > MAX_FRAME_LENGTH as u64 {
            proof {
                lemma_digit_run_bounds(buf@);
                lemma_dec_val_prefix_monotone(buf@, i as int, d);
            }
            return Err(FrameError::FrameTooLarge);
        }
    }
    proof {
        lemma_digit_run_bounds(buf@);
        assert(i == d) by {
            if i < n {
                lemma_digit_run_at_nondigit(buf@, i as int);
            } else {
                assert(d <= n);
            }
        }
        assert(dec_val(buf@.take(d)) == acc);
    }
    if i == n {
        return Ok(None);
    }
    if buf[i] != 0x20 {
        return Err(FrameError::Malformed);
    }
    let declared = acc as usize;
    if n - i - 1 < declared {
        return Ok(None);
    }
    let consumed = i + 1 + declared;
    let payload = vstd::slice::slice_to_vec(vstd::slice::slice_subrange(buf, i + 1, consumed));
    Ok(Some((payload, consumed)))
}

/// Digit-run length never exceeds the buffer length, and everything inside
/// the run is a digit.
pub proof fn lemma_digit_run_bounds(s: Seq<u8>)
    ensures
        0 <= digit_run(s) <= s.len(),
        forall|j: int| 0 <= j < digit_run(s) ==> is_digit(#[trigger] s[j]),
    decreases s.len(),
{
    if s.len() > 0 && is_digit(s[0]) {
        lemma_digit_run_bounds(s.drop_first());
        assert forall|j: int| 0 <= j < digit_run(s) implies is_digit(#[trigger] s[j]) by {
            if j > 0 {
                assert(s.drop_first()[j - 1] == s[j]);
            }
        }
    }
}

/// A digit found just past a prefix of the digit run extends the run.
proof fn lemma_digit_run_extend(s: Seq<u8>, j: int)
    requires
        0 <= j < s.len(),
        j <= digit_run(s),
        is_digit(s[j]),
    ensures
        digit_run(s) >= j + 1,
    decreases j,
{
    lemma_digit_run_bounds(s);
    lemma_digit_run_bounds(s.drop_first());
    if j == 0 {
        assert(digit_run(s) == 1 + digit_run(s.drop_first()));
    } else {
        assert(is_digit(s[0]));
        assert(digit_run(s) == 1 + digit_run(s.drop_first()));
        assert(s.drop_first()[j - 1] == s[j]);
        lemma_digit_run_extend(s.drop_first(), j - 1);
        assert(digit_run(s.drop_first()) >= j);
    }
}

/// A non-digit at position `j`, with digits everywhere before it, pins the
/// digit run at exactly `j`.
proof fn lemma_digit_run_at_nondigit(s: Seq<u8>, j: int)
    requires
        0 <= j < s.len(),
        !is_digit(s[j]),
        j <= digit_run(s),
    ensures
        digit_run(s) == j,
    decreases j,
{
    lemma_digit_run_bounds(s);
    if j < digit_run(s) {
        assert(is_digit(s[j]));
    }
}

/// The value of a digit string grows with its length.
proof fn lemma_dec_val_prefix_monotone(s: Seq<u8>, k: int, m: int)
    requires
        0 <= k <= m <= s.len(),
        m <= digit_run(s),
    ensures
        dec_val(s.take(k)) <= dec_val(s.take(m)),
    decreases m - k,
{
    if k < m {
        lemma_digit_run_bounds(s);
        lemma_dec_val_prefix_monotone(s, k + 1, m);
        assert(s.take(k + 1).drop_last() =~= s.take(k));
        assert(s.take(k + 1).last() == s[k]);
        assert(dec_val(s.take(k)) <= dec_val(s.take(k + 1)));
    }
}

/// Every byte of a canonical decimal representation is a digit, the first is
/// not `0` unless the number is zero, and the representation is never empty.
pub proof fn lemma_dec_rep_shape(n: nat)
    ensures
        dec_rep(n).len() >= 1,
        forall|j: int| 0 <= j < dec_rep(n).len() ==> is_digit(#[trigger] dec_rep(n)[j]),
        n > 0 ==> dec_rep(n)[0] != 0x30,
        n == 0 ==> dec_rep(n) == seq![0x30u8],
    decreases n,
{
    if n >= 10 {
        lemma_dec_rep_shape(n / 10);
        assert forall|j: int| 0 <= j < dec_rep(n).len() implies is_digit(#[trigger] dec_rep(n)[j]) by {
            if j < dec_rep(n / 10).len() {
                assert(dec_rep(n)[j] == dec_rep(n / 10)[j]);
            }
        }
        assert(dec_rep(n)[0] == dec_rep(n / 10)[0]);
    }
}

/// Reading back the canonical decimal representation yields the number.
pub proof fn lemma_dec_val_of_rep(n: nat)
    ensures
        dec_val(dec_rep(n)) == n,
    decreases n,
{
    if n < 10 {
        assert(dec_rep(n).len() == 1);
        assert(dec_rep(n).drop_last() =~= Seq::<u8>::empty());
        assert(dec_rep(n).last() == (0x30 + n) as u8);
        assert((0x30 + n) as u8 == 0x30 + n);
        assert(dec_val(dec_rep(n)) == dec_val(dec_rep(n).drop_last()) * 10 + (dec_rep(n).last()
            - 0x30) as nat);
    } else {
        lemma_dec_val_of_rep(n / 10);
        assert(dec_rep(n).len() == dec_rep(n / 10).len() + 1);
        assert(dec_rep(n).drop_last() =~= dec_rep(n / 10));
        assert(dec_rep(n).last() == (0x30 + n % 10) as u8);
        assert((0x30 + n % 10) as u8 == 0x30 + n % 10);
        assert(dec_val(dec_rep(n)) == dec_val(dec_rep(n).drop_last()) * 10 + (dec_rep(n).last()
            - 0x30) as nat);
        assert(n == (n / 10) * 10 + n % 10);
    }
}

/// The digit run of a digit string followed by a non-digit is the digit
/// string.
pub proof fn lemma_digit_run_of_framed(digits: Seq<u8>, rest: Seq<u8>)
    requires
        forall|j: int| 0 <= j < digits.len() ==> is_digit(#[trigger] digits[j]),
        rest.len() > 0,
        !is_digit(rest[0]),
    ensures
        digit_run(digits + rest) == digits.len(),
    decreases digits.len(),
{
    let s = digits + rest;
    if digits.len() == 0 {
        assert(s =~= rest);
    } else {
        assert(s[0] == digits[0]);
        lemma_digit_run_of_framed(digits.drop_first(), rest);
        assert(s.drop_first() =~= digits.drop_first() + rest);
    }
}

/// Decoding inverts encoding: at the head of any buffer that begins with the
/// frame of a payload within bounds, the decoder finds exactly that payload
/// and consumes exactly the frame: the length digits, the space, and the
/// payload bytes.
pub proof fn lemma_frame_round_trip(payload: Seq<u8>, rest: Seq<u8>)
    requires
        payload.len() <= MAX_FRAME_LENGTH,
    ensures
        parse_frame(frame_of(payload) + rest) == FrameOutcome::Payload(
            payload,
            dec_rep(payload.len()).len() + 1 + payload.len() as int,
        ),
{
    let digits = dec_rep(payload.len());
    let buf = frame_of(payload) + rest;
    lemma_dec_rep_shape(payload.len());
    lemma_dec_val_of_rep(payload.len());
    assert(buf =~= digits + (seq![0x20u8] + payload + rest));
    lemma_digit_run_of_framed(digits, seq![0x20u8] + payload + rest);
    let d = digit_run(buf);
    assert(d == digits.len());
    assert(buf.take(d) =~= digits);
    assert(buf[0] == digits[0]);
    assert(buf[d] == 0x20);
    assert(buf.len() == d + 1 + payload.len() + rest.len());
    assert(buf.subrange(d + 1, d + 1 + payload.len()) =~= payload);
}

/// A payload beyond the ceiling is rejected as too large, wherever the
/// buffer ends.
pub proof fn lemma_frame_too_large(payload: Seq<u8>, rest: Seq<u8>)
    requires
        payload.len() > MAX_FRAME_LENGTH,
    ensures
        parse_frame(frame_of(payload) + rest) is TooLarge,
{
    let digits = dec_rep(payload.len());
    let buf = frame_of(payload) + rest;
    lemma_dec_rep_shape(payload.len());
    lemma_dec_val_of_rep(payload.len());
    assert(buf =~= digits + (seq![0x20u8] + payload + rest));
    lemma_digit_run_of_framed(digits, seq![0x20u8] + payload + rest);
    assert(buf.take(digit_run(buf)) =~= digits);
    assert(buf[0] == digits[0]);
}

} // verus!
