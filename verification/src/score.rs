//! English-text plausibility scoring.
//!
//! The score of a byte buffer is a Bhattacharyya-style similarity between
//! the buffer's byte distribution and the English letter distribution,
//! minus a penalty for control characters. All arithmetic is fixed-point:
//! frequencies and scores are counted in hundred-thousandths, so a score
//! is an integer, every buffer gets exactly one score, and scores are
//! totally ordered. The empty buffer scores 0.
//!
//! For a buffer `s` of length `n > 0` the score is
//! `sum over byte values b of isqrt(count(b) * freq(lower(b)) * 100000 / n)
//!  - 1000 * (number of control characters)`,
//! where `freq` is the scaled English letter frequency table (so each
//! summand approximates `100000 * sqrt(observed_freq * expected_freq)`)
//! and `1000` is the scaled form of the `0.01` penalty per control byte.
//! Byte values absent from the buffer contribute 0, so the sum ranges
//! over all 256 values without changing its value.
use vstd::prelude::*;

use std::collections::HashMap;

verus! {

broadcast use vstd::std_specs::hash::group_hash_axioms;

/// A control character: a non-printable byte, here the Latin-1 control
/// ranges 0x00..=0x1f and 0x7f..=0x9f.
pub open spec fn is_control_byte(c: u8) -> bool {
    c < 0x20 || (0x7f <= c && c <= 0x9f)
}

/// ASCII lowercase folding: 'A'..='Z' map to 'a'..='z', all else unchanged.
pub open spec fn to_lower(c: u8) -> u8 {
    if 0x41 <= c && c <= 0x5a {
        (c + 0x20) as u8
    } else {
        c
    }
}

/// Relative frequency of each lowercase English letter, in
/// hundred-thousandths; 0 for every byte that is not a lowercase letter.
pub open spec fn letter_freq_scaled(c: u8) -> u64 {
    if c == 0x61 { 8167 }  // a
    else if c == 0x62 { 1492 }  // b
    else if c == 0x63 { 2782 }  // c
    else if c == 0x64 { 4253 }  // d
    else if c == 0x65 { 12700 }  // e
    else if c == 0x66 { 2228 }  // f
    else if c == 0x67 { 2015 }  // g
    else if c == 0x68 { 6094 }  // h
    else if c == 0x69 { 6966 }  // i
    else if c == 0x6a { 153 }  // j
    else if c == 0x6b { 772 }  // k
    else if c == 0x6c { 4025 }  // l
    else if c == 0x6d { 2406 }  // m
    else if c == 0x6e { 6749 }  // n
    else if c == 0x6f { 7507 }  // o
    else if c == 0x70 { 1929 }  // p
    else if c == 0x71 { 95 }  // q
    else if c == 0x72 { 5987 }  // r
    else if c == 0x73 { 6327 }  // s
    else if c == 0x74 { 9056 }  // t
    else if c == 0x75 { 2758 }  // u
    else if c == 0x76 { 978 }  // v
    else if c == 0x77 { 2360 }  // w
    else if c == 0x78 { 150 }  // x
    else if c == 0x79 { 1974 }  // y
    else if c == 0x7a { 74 }  // z
    else { 0 }
}

/// How often the byte value `b` occurs in `s`.
pub open spec fn byte_count(s: Seq<u8>, b: u8) -> nat
    decreases s.len(),
{
    if s.len() == 0 {
        0
    } else {
        byte_count(s.drop_last(), b) + if s.last() == b {
            1nat
        } else {
            0nat
        }
    }
}

/// How many control characters `s` holds.
pub open spec fn control_count(s: Seq<u8>) -> nat
    decreases s.len(),
{
    if s.len() == 0 {
        0
    } else {
        control_count(s.drop_last()) + if is_control_byte(s.last()) {
            1nat
        } else {
            0nat
        }
    }
}

pub proof fn lemma_byte_count_le_len(s: Seq<u8>, b: u8)
    ensures
        byte_count(s, b) <= s.len(),
    decreases s.len(),
{
    if s.len() > 0 {
        lemma_byte_count_le_len(s.drop_last(), b);
    }
}

pub proof fn lemma_control_count_le_len(s: Seq<u8>)
    ensures
        control_count(s) <= s.len(),
    decreases s.len(),
{
    if s.len() > 0 {
        lemma_control_count_le_len(s.drop_last());
    }
}

pub proof fn lemma_byte_count_push(s: Seq<u8>, c: u8, b: u8)
    ensures
        byte_count(s.push(c), b) == byte_count(s, b) + if b == c {
            1int
        } else {
            0int
        },
{
    assert(s.push(c).drop_last() =~= s);
}

pub proof fn lemma_control_count_push(s: Seq<u8>, c: u8)
    ensures
        control_count(s.push(c)) == control_count(s) + if is_control_byte(c) {
            1int
        } else {
            0int
        },
{
    assert(s.push(c).drop_last() =~= s);
}

/// The integer square root: the largest `r` with `r * r <= n`.
pub open spec fn isqrt_spec(n: nat) -> nat
    decreases n,
{
    if n == 0 {
        0
    } else {
        let r = isqrt_spec((n - 1) as nat);
        if (r + 1) * (r + 1) <= n {
            r + 1
        } else {
            r
        }
    }
}

pub proof fn lemma_isqrt_bounds(n: nat)
    ensures
        isqrt_spec(n) * isqrt_spec(n) <= n,
        n < (isqrt_spec(n) + 1) * (isqrt_spec(n) + 1),
    decreases n,
{
    if n > 0 {
        lemma_isqrt_bounds((n - 1) as nat);
        let r = isqrt_spec((n - 1) as nat);
        let q = isqrt_spec(n);
        if (r + 1) * (r + 1) <= n {
            assert(q == r + 1);
            assert(n <= (r + 1) * (r + 1));
            assert(q * q <= n && n < (q + 1) * (q + 1)) by (nonlinear_arith)
                requires
                    q == r + 1,
                    (r + 1) * (r + 1) <= n,
                    n <= (r + 1) * (r + 1),
            ;
        } else {
            assert(q == r);
            assert(q * q <= n && n < (q + 1) * (q + 1)) by (nonlinear_arith)
                requires
                    q == r,
                    r * r <= n,
                    n < (r + 1) * (r + 1),
            ;
        }
    } else {
        let q = isqrt_spec(n);
        assert(q == 0);
        assert(q * q <= n && n < (q + 1) * (q + 1)) by (nonlinear_arith)
            requires
                q == 0,
                n == 0,
        ;
    }
}

pub proof fn lemma_isqrt_unique(n: nat, r: nat)
    requires
        r * r <= n,
        n < (r + 1) * (r + 1),
    ensures
        isqrt_spec(n) == r,
{
    lemma_isqrt_bounds(n);
    let q = isqrt_spec(n);
    if q < r {
        assert(r * r >= (q + 1) * (q + 1)) by (nonlinear_arith)
            requires
                r >= q + 1,
        ;
    }
    if r < q {
        assert(q * q >= (r + 1) * (r + 1)) by (nonlinear_arith)
            requires
                q >= r + 1,
        ;
    }
}

pub proof fn lemma_isqrt_monotone(m: nat, n: nat)
    requires
        m <= n,
    ensures
        isqrt_spec(m) <= isqrt_spec(n),
{
    lemma_isqrt_bounds(m);
    lemma_isqrt_bounds(n);
    let a = isqrt_spec(m);
    let b = isqrt_spec(n);
    if a > b {
        assert(a * a >= (b + 1) * (b + 1)) by (nonlinear_arith)
            requires
                a >= b + 1,
        ;
    }
}

/// One summand of the score: the scaled square root of the product of the
/// observed and the expected frequency of byte value `b`. Meaningful for
/// nonempty `s`.
pub open spec fn score_term(s: Seq<u8>, b: u8) -> nat {
    isqrt_spec((byte_count(s, b) * (letter_freq_scaled(to_lower(b)) as nat) * 100000) / s.len())
}

/// The score terms of the byte values below `n`, summed.
pub open spec fn term_sum(s: Seq<u8>, n: int) -> nat
    decreases n,
{
    if n <= 0 {
        0
    } else {
        term_sum(s, n - 1) + score_term(s, (n - 1) as u8)
    }
}

/// The plausibility score of a buffer, in hundred-thousandths. The empty
/// buffer scores 0; the control-character penalty can push a score below 0.
pub open spec fn score_spec(s: Seq<u8>) -> int {
    if s.len() == 0 {
        0
    } else {
        term_sum(s, 256) - 1000 * control_count(s)
    }
}

/// Exec integer square root by linear search from below.
fn isqrt(n: u64) -> (r: u64)
    requires
        n < 0x1_0000_0000u64,
    ensures
        r == isqrt_spec(n as nat),
    decreases n,
{
    let mut r: u64 = 0;
    while (r + 1) * (r + 1) <= n
        invariant
            n < 0x1_0000_0000u64,
            r * r <= n,
            r <= 0xffffu64,
            r <= n,
            (r + 1) * (r + 1) <= 0x1_0000_0000u64,
        decreases n - r,
    {
        r = r + 1;
        proof {
            assert((r + 1) * (r + 1) <= 0x1_0000_0000u64) by (nonlinear_arith)
                requires
                    r * r <= n,
                    n < 0x1_0000_0000u64,
                    r >= 1,
            ;
            assert(r <= 0xffffu64) by (nonlinear_arith)
                requires
                    r * r <= n,
                    n < 0x1_0000_0000u64,
                    r >= 1,
            ;
            assert(r <= n) by (nonlinear_arith)
                requires
                    r * r <= n,
                    r >= 1,
            ;
        }
    }
    proof {
        lemma_isqrt_unique(n as nat, r as nat);
    }
    r
}

/// How often `b` occurs in the buffer.
fn count_byte(s: &[u8], b: u8) -> (c: usize)
    ensures
        c == byte_count(s@, b),
{
    let mut c: usize = 0;
    let mut i: usize = 0;
    while i < s.len()
        invariant
            i <= s@.len(),
            c <= i,
            c == byte_count(s@.take(i as int), b),
        decreases s@.len() - i,
    {
        proof {
            assert(s@.take(i + 1 as int).drop_last() =~= s@.take(i as int));
        }
        if s[i] == b {
            c += 1;
        }
        i += 1;
    }
    proof {
        assert(s@.take(s@.len() as int) =~= s@);
    }
    c
}

/// How many control characters the buffer holds.
fn count_controls(s: &[u8]) -> (c: usize)
    ensures
        c == control_count(s@),
{
    let mut c: usize = 0;
    let mut i: usize = 0;
    while i < s.len()
        invariant
            i <= s@.len(),
            c <= i,
            c == control_count(s@.take(i as int)),
        decreases s@.len() - i,
    {
        proof {
            assert(s@.take(i + 1 as int).drop_last() =~= s@.take(i as int));
        }
        let x = s[i];
        if x < 0x20 || (0x7f <= x && x <= 0x9f) {
            c += 1;
        }
        i += 1;
    }
    proof {
        assert(s@.take(s@.len() as int) =~= s@);
    }
    c
}

/// The scaled English letter frequency of a byte after lowercase folding.
fn letter_freq_of(c: u8) -> (f: u64)
    ensures
        f == letter_freq_scaled(to_lower(c)),
        f <= 12700,
{
    let l: u8 = if 0x41 <= c && c <= 0x5a {
        c + 0x20
    } else {
        c
    };
    if l == 0x61 { 8167 }  // a
    else if l == 0x62 { 1492 }  // b
    else if l == 0x63 { 2782 }  // c
    else if l == 0x64 { 4253 }  // d
    else if l == 0x65 { 12700 }  // e
    else if l == 0x66 { 2228 }  // f
    else if l == 0x67 { 2015 }  // g
    else if l == 0x68 { 6094 }  // h
    else if l == 0x69 { 6966 }  // i
    else if l == 0x6a { 153 }  // j
    else if l == 0x6b { 772 }  // k
    else if l == 0x6c { 4025 }  // l
    else if l == 0x6d { 2406 }  // m
    else if l == 0x6e { 6749 }  // n
    else if l == 0x6f { 7507 }  // o
    else if l == 0x70 { 1929 }  // p
    else if l == 0x71 { 95 }  // q
    else if l == 0x72 { 5987 }  // r
    else if l == 0x73 { 6327 }  // s
    else if l == 0x74 { 9056 }  // t
    else if l == 0x75 { 2758 }  // u
    else if l == 0x76 { 978 }  // v
    else if l == 0x77 { 2360 }  // w
    else if l == 0x78 { 150 }  // x
    else if l == 0x79 { 1974 }  // y
    else if l == 0x7a { 74 }  // z
    else { 0 }
}

/// Scores a buffer for English-text plausibility. The result is a pure
/// function of the buffer alone: it equals `score_spec` exactly, so
/// repeated calls on the same input return the same value.
pub fn score_buffer_as_text(buff: &[u8]) -> (score: i128)
    ensures
        score == score_spec(buff@),
{
    if buff.len() == 0 {
        return 0;
    }
    let n = buff.len();
    let mut sum: u64 = 0;
    let mut b: usize = 0;
    while b < 256
        invariant
            b <= 256,
            0 < n == buff@.len(),
            sum == term_sum(buff@, b as int),
            sum <= 36000 * b,
        decreases 256 - b,
    {
        let cnt = count_byte(buff, b as u8);
        let f = letter_freq_of(b as u8);
        proof {
            lemma_byte_count_le_len(buff@, b as u8);
            assert((cnt as int) * (f as int) <= 0xffff_ffff_ffff_ffffi128 * 12700) by (nonlinear_arith)
                requires
                    0 <= cnt as int <= 0xffff_ffff_ffff_ffffi128,
                    0 <= f as int <= 12700,
            ;
        }
        let num: u128 = (cnt as u128) * (f as u128) * 100000;
        let q: u128 = num / (n as u128);
        proof {
            let ll = n as int;
            let cc = cnt as int;
            let ff = f as int;
            assert(cc * ff * 100000 <= ll * (ff * 100000)) by (nonlinear_arith)
                requires
                    0 <= cc <= ll,
                    0 <= ff,
            ;
            vstd::arithmetic::div_mod::lemma_div_is_ordered(
                cc * ff * 100000,
                ll * (ff * 100000),
                ll,
            );
            vstd::arithmetic::div_mod::lemma_div_multiples_vanish(ff * 100000, ll);
            assert(q <= 1_270_000_000);
        }
        let t = isqrt(q as u64);
        proof {
            lemma_isqrt_bounds(q as nat);
            assert(t <= 36000) by (nonlinear_arith)
                requires
                    (t as int) * (t as int) <= 1_270_000_000,
            ;
            assert(t == score_term(buff@, b as u8));
        }
        sum = sum + t;
        b += 1;
    }
    let ctl = count_controls(buff);
    (sum as i128) - 1000 * (ctl as i128)
}

/// Counts how often each byte value occurs in the buffer: the returned
/// map has a key for exactly the byte values present, each mapped to its
/// number of occurrences.
pub fn calc_char_frequencies(s: &[u8]) -> (m: HashMap<u8, u32>)
    requires
        s@.len() <= u32::MAX,
    ensures
        forall|b: u8| #[trigger] m@.contains_key(b) <==> byte_count(s@, b) > 0,
        forall|b: u8| m@.contains_key(b) ==> m@[b] == byte_count(s@, b),
{
    let mut m: HashMap<u8, u32> = HashMap::new();
    let mut i: usize = 0;
    while i < s.len()
        invariant
            i <= s@.len(),
            s@.len() <= u32::MAX,
            forall|b: u8| #[trigger] m@.contains_key(b) <==> byte_count(s@.take(i as int), b) > 0,
            forall|b: u8| m@.contains_key(b) ==> m@[b] == byte_count(s@.take(i as int), b),
        decreases s@.len() - i,
    {
        let x = s[i];
        let mut v: u32 = 0;
        if m.contains_key(&x) {
            v = *m.get(&x).unwrap();
        }
        proof {
            lemma_byte_count_le_len(s@.take(i as int), x);
        }
        m.insert(x, v + 1);
        proof {
            assert(s@.take(i + 1 as int).drop_last() =~= s@.take(i as int));
        }
        i += 1;
    }
    proof {
        assert(s@.take(s@.len() as int) =~= s@);
    }
    m
}

proof fn lemma_term_sum_le(s1: Seq<u8>, s2: Seq<u8>, n: int)
    requires
        forall|j: int| 0 <= j < n ==> #[trigger] score_term(s1, (j as u8)) <= score_term(s2, (j as u8)),
    ensures
        term_sum(s1, n) <= term_sum(s2, n),
    decreases n,
{
    if n > 0 {
        lemma_term_sum_le(s1, s2, n - 1);
    }
}

proof fn lemma_term_sum_zero(s: Seq<u8>, n: int)
    requires
        forall|j: int| 0 <= j < n ==> #[trigger] score_term(s, (j as u8)) == 0,
    ensures
        term_sum(s, n) == 0,
    decreases n,
{
    if n > 0 {
        lemma_term_sum_zero(s, n - 1);
    }
}

/// Appending a control character lowers the score by at least the
/// penalty step: the penalty grows by exactly 1000 while no similarity
/// term can grow, since the counts of all other bytes stay put, the
/// buffer gets longer, and a control character has letter frequency 0.
pub proof fn lemma_control_penalty(s: Seq<u8>, c: u8)
    requires
        is_control_byte(c),
    ensures
        score_spec(s.push(c)) <= score_spec(s) - 1000,
{
    let t = s.push(c);
    lemma_control_count_push(s, c);
    assert(letter_freq_scaled(to_lower(c)) == 0);
    if s.len() == 0 {
        assert forall|j: int| 0 <= j < 256 implies #[trigger] score_term(t, (j as u8)) == 0 by {
            let b = j as u8;
            lemma_byte_count_push(s, c, b);
            let ff = letter_freq_scaled(to_lower(b)) as nat;
            let num = byte_count(t, b) * ff * 100000;
            if b == c {
                assert(num == 0) by (nonlinear_arith)
                    requires
                        num == byte_count(t, b) * ff * 100000,
                        ff == 0,
                ;
            } else {
                assert(num == 0) by (nonlinear_arith)
                    requires
                        num == byte_count(t, b) * ff * 100000,
                        byte_count(t, b) == 0,
                ;
            }
            vstd::arithmetic::div_mod::lemma_basic_div(0, t.len() as int);
            assert(num / t.len() == 0);
            assert(score_term(t, b) == isqrt_spec(0));
            assert(isqrt_spec(0) == 0);
        }
        lemma_term_sum_zero(t, 256);
    } else {
        assert forall|j: int| 0 <= j < 256 implies #[trigger] score_term(t, (j as u8)) <= score_term(
            s,
            (j as u8),
        ) by {
            let b = j as u8;
            lemma_byte_count_push(s, c, b);
            let ff = letter_freq_scaled(to_lower(b)) as nat;
            if b == c {
                let numt = byte_count(t, b) * ff * 100000;
                let nums = byte_count(s, b) * ff * 100000;
                assert(numt == 0 && nums == 0) by (nonlinear_arith)
                    requires
                        numt == byte_count(t, b) * ff * 100000,
                        nums == byte_count(s, b) * ff * 100000,
                        ff == 0,
                ;
                vstd::arithmetic::div_mod::lemma_basic_div(0, t.len() as int);
                vstd::arithmetic::div_mod::lemma_basic_div(0, s.len() as int);
                assert(score_term(t, b) == isqrt_spec(0));
                assert(score_term(s, b) == isqrt_spec(0));
            } else {
                let num = byte_count(s, b) * ff * 100000;
                assert(byte_count(t, b) == byte_count(s, b));
                vstd::arithmetic::div_mod::lemma_div_is_ordered_by_denominator(
                    num as int,
                    s.len() as int,
                    t.len() as int,
                );
                lemma_isqrt_monotone((num / t.len()) as nat, (num / s.len()) as nat);
            }
        }
        lemma_term_sum_le(t, s, 256);
    }
}

} // verus!
