//! Hex codec: ASCII hex text to raw bytes and back.
//!
//! Encoding always renders each byte as exactly two lowercase hex digits,
//! high nibble first. Decoding accepts digits of either case and rejects
//! anything else, as well as inputs of odd length.
use vstd::prelude::*;

use crate::XorError;

verus! {

/// A byte that is an ASCII hex digit; both cases are accepted on decode.
pub open spec fn is_hex_digit(c: u8) -> bool {
    (0x30 <= c && c <= 0x39) || (0x61 <= c && c <= 0x66) || (0x41 <= c && c <= 0x46)
}

/// Numeric value of a hex digit (0 for any other byte).
pub open spec fn hex_val(c: u8) -> u8 {
    if 0x30 <= c && c <= 0x39 {
        (c - 0x30) as u8
    } else if 0x61 <= c && c <= 0x66 {
        ((c - 0x61) + 10) as u8
    } else if 0x41 <= c && c <= 0x46 {
        ((c - 0x41) + 10) as u8
    } else {
        0
    }
}

/// The lowercase hex digit for a value below 16.
pub open spec fn hex_digit(n: u8) -> u8 {
    if n < 10 {
        (0x30 + n) as u8
    } else {
        ((0x61 + n) - 10) as u8
    }
}

/// A well-formed hex string: even length, hex digits throughout.
pub open spec fn valid_hex(s: Seq<u8>) -> bool {
    &&& s.len() % 2 == 0
    &&& forall|i: int| 0 <= i < s.len() ==> is_hex_digit(#[trigger] s[i])
}

/// The bytes a hex string denotes, two digits per byte, high nibble first.
/// Meaningful when `valid_hex` holds; a trailing odd digit is ignored.
pub open spec fn hex_decode_spec(s: Seq<u8>) -> Seq<u8>
    decreases s.len(),
{
    if s.len() < 2 {
        Seq::empty()
    } else {
        hex_decode_spec(s.drop_last().drop_last()) + seq![
            ((hex_val(s[s.len() - 2]) * 16 + hex_val(s[s.len() - 1])) as u8),
        ]
    }
}

/// The hex rendering of a byte sequence: two lowercase digits per byte.
pub open spec fn hex_encode_spec(b: Seq<u8>) -> Seq<u8>
    decreases b.len(),
{
    if b.len() == 0 {
        Seq::empty()
    } else {
        hex_encode_spec(b.drop_last()) + seq![
            hex_digit(b.last() / 16),
            hex_digit((b.last() % 16) as u8),
        ]
    }
}

/// Index of the first byte at or after `j` that is not a hex digit;
/// the length of `s` when every byte from `j` on is one.
pub open spec fn first_non_digit(s: Seq<u8>, j: int) -> int
    decreases s.len() - j,
{
    if j < 0 || j >= s.len() {
        s.len() as int
    } else if !is_hex_digit(s[j]) {
        j
    } else {
        first_non_digit(s, j + 1)
    }
}

proof fn lemma_first_non_digit_at(s: Seq<u8>, j: int, i: int)
    requires
        0 <= j <= i <= s.len(),
        forall|k: int| j <= k < i ==> is_hex_digit(#[trigger] s[k]),
        i == s.len() || !is_hex_digit(s[i]),
    ensures
        first_non_digit(s, j) == i,
    decreases i - j,
{
    if j < i {
        lemma_first_non_digit_at(s, j + 1, i);
    }
}

/// Exec form of `hex_val`, for genuine hex digits.
fn hex_val_exec(c: u8) -> (v: u8)
    requires
        is_hex_digit(c),
    ensures
        v == hex_val(c),
        v < 16,
{
    if 0x30 <= c && c <= 0x39 {
        c - 0x30
    } else if 0x61 <= c && c <= 0x66 {
        (c - 0x61) + 10
    } else {
        (c - 0x41) + 10
    }
}

/// Exec form of `hex_digit`.
fn hex_digit_exec(n: u8) -> (c: u8)
    requires
        n < 16,
    ensures
        c == hex_digit(n),
        is_hex_digit(c),
{
    if n < 10 {
        0x30 + n
    } else {
        (0x61 + n) - 10
    }
}

/// Decodes an ASCII hex string to the bytes it denotes.
///
/// Fails with `MalformedHex(i)` where `i` is the index of the first byte
/// of the input that is not a hex digit, or the input's length when every
/// byte is a digit but the length is odd.
pub fn decode_hex(s: &[u8]) -> (r: Result<Vec<u8>, XorError>)
    ensures
        valid_hex(s@) ==> (r matches Ok(v) && v@ == hex_decode_spec(s@)),
        !valid_hex(s@) ==> r == Err::<Vec<u8>, XorError>(
            XorError::MalformedHex(first_non_digit(s@, 0) as usize),
        ),
{
    let mut i: usize = 0;
    while i < s.len()
        invariant
            i <= s@.len(),
            forall|k: int| 0 <= k < i ==> is_hex_digit(#[trigger] s@[k]),
        decreases s@.len() - i,
    {
        let c = s[i];
        if !((0x30 <= c && c <= 0x39) || (0x61 <= c && c <= 0x66) || (0x41 <= c && c <= 0x46)) {
            proof {
                lemma_first_non_digit_at(s@, 0, i as int);
            }
            return Err(XorError::MalformedHex(i));
        }
        i += 1;
    }
    proof {
        lemma_first_non_digit_at(s@, 0, s@.len() as int);
    }
    if s.len() % 2 != 0 {
        return Err(XorError::MalformedHex(s.len()));
    }
    let half: usize = s.len() / 2;
    let mut out: Vec<u8> = Vec::new();
    let mut k: usize = 0;
    while k < half
        invariant
            k <= half,
            half == s@.len() / 2,
            s@.len() <= usize::MAX,
            s@.len() % 2 == 0,
            forall|j: int| 0 <= j < s@.len() ==> is_hex_digit(#[trigger] s@[j]),
            out@ == hex_decode_spec(s@.take(2 * k as int)),
        decreases half - k,
    {
        proof {
            vstd::arithmetic::div_mod::lemma_fundamental_div_mod(s@.len() as int, 2);
            assert(s@.len() == 2 * half);
            assert(2 * k + 1 < s@.len());
        }
        let hi = hex_val_exec(s[2 * k]);
        let lo = hex_val_exec(s[2 * k + 1]);
        out.push(hi * 16 + lo);
        proof {
            let t = s@.take(2 * (k + 1) as int);
            assert(t.drop_last().drop_last() =~= s@.take(2 * k as int));
            assert(out@ =~= hex_decode_spec(t));
        }
        k += 1;
    }
    proof {
        assert(s@.take(2 * half as int) =~= s@);
    }
    Ok(out)
}

/// Encodes bytes as ASCII hex: exactly two lowercase digits per byte,
/// high nibble first, so small values keep their leading zero.
pub fn encode_hex(s: &[u8]) -> (r: Vec<u8>)
    ensures
        r@ == hex_encode_spec(s@),
        r@.len() == 2 * s@.len(),
{
    let mut out: Vec<u8> = Vec::new();
    let mut i: usize = 0;
    while i < s.len()
        invariant
            i <= s@.len(),
            out@ == hex_encode_spec(s@.take(i as int)),
            out@.len() == 2 * i,
        decreases s@.len() - i,
    {
        let b = s[i];
        out.push(hex_digit_exec(b / 16));
        out.push(hex_digit_exec(b % 16));
        proof {
            let t = s@.take(i + 1 as int);
            assert(t.drop_last() =~= s@.take(i as int));
            assert(out@ =~= hex_encode_spec(t));
        }
        i += 1;
    }
    proof {
        assert(s@.take(s@.len() as int) =~= s@);
    }
    out
}

/// The hex rendering of any byte sequence is itself well-formed hex:
/// even length throughout, digits throughout.
pub proof fn lemma_hex_encode_valid(b: Seq<u8>)
    ensures
        valid_hex(hex_encode_spec(b)),
        hex_encode_spec(b).len() == 2 * b.len(),
    decreases b.len(),
{
    if b.len() > 0 {
        lemma_hex_encode_valid(b.drop_last());
    }
}

/// Round trip: decoding the hex rendering of any byte sequence gives the
/// sequence back unchanged.
pub proof fn lemma_hex_round_trip(b: Seq<u8>)
    ensures
        hex_decode_spec(hex_encode_spec(b)) == b,
    decreases b.len(),
{
    lemma_hex_encode_valid(b);
    if b.len() == 0 {
        assert(hex_decode_spec(hex_encode_spec(b)) =~= b);
    } else {
        lemma_hex_round_trip(b.drop_last());
        lemma_hex_encode_valid(b.drop_last());
        let e = hex_encode_spec(b);
        let x = b.last();
        assert(e.drop_last().drop_last() =~= hex_encode_spec(b.drop_last()));
        assert(e[e.len() - 2] == hex_digit(x / 16));
        assert(e[e.len() - 1] == hex_digit((x % 16) as u8));
        assert(hex_val(hex_digit(x / 16)) == x / 16);
        assert(hex_val(hex_digit((x % 16) as u8)) == x % 16);
        assert((x / 16) * 16 + x % 16 == x) by {
            vstd::arithmetic::div_mod::lemma_fundamental_div_mod(x as int, 16);
        }
        assert(hex_decode_spec(e) =~= b);
    }
}

} // verus!
