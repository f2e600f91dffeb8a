//! Key search and batch selection.
//!
//! The breaker tries every key byte in the inclusive range 1..=254 on one
//! ciphertext and ranks the candidates by plausibility score. Keys 0 and
//! 255 are deliberately left out as degenerate: 0 is the identity XOR and
//! 255 complements every bit. The selector runs the breaker over a batch
//! of hex-encoded lines and returns the single globally best decryption.
//! Ties are deterministic throughout: the smallest key wins within one
//! ciphertext, the earliest line wins across the batch.
use vstd::prelude::*;

use crate::XorError;
use crate::hex;
use crate::rank::RankedSet;
use crate::rank::WeightedData;
use crate::rank::best_index;
use crate::rank::lemma_best_index_props;
use crate::score::score_buffer_as_text;
use crate::score::score_spec;
use crate::xor::single_xor;
use crate::xor::xor_seq;

verus! {

/// The plausibility score of decrypting `ct` with the key byte `k`.
pub open spec fn key_weight(ct: Seq<u8>, k: u8) -> int {
    score_spec(xor_seq(ct, k))
}

/// The best key among the key bytes `1..n`: the smallest one whose
/// decryption of `ct` scores highest. Meaningful for `2 <= n <= 255`.
pub open spec fn best_key_below(ct: Seq<u8>, n: int) -> u8
    decreases n,
{
    if n <= 2 {
        1u8
    } else {
        let p = best_key_below(ct, n - 1);
        if key_weight(ct, ((n - 1) as u8)) > key_weight(ct, p) {
            (n - 1) as u8
        } else {
            p
        }
    }
}

/// The key the breaker ranks first for `ct`: the smallest key byte in
/// 1..=254 whose decryption scores highest.
pub open spec fn best_key(ct: Seq<u8>) -> u8 {
    best_key_below(ct, 255)
}

proof fn lemma_best_key_below_props(ct: Seq<u8>, n: int)
    requires
        2 <= n <= 255,
    ensures
        1 <= best_key_below(ct, n) < n,
        forall|k: u8| 1 <= k < n ==> #[trigger] key_weight(ct, k) <= key_weight(
            ct,
            best_key_below(ct, n),
        ),
        forall|k: u8| 1 <= k < best_key_below(ct, n) ==> #[trigger] key_weight(ct, k)
            < key_weight(ct, best_key_below(ct, n)),
    decreases n,
{
    if n > 2 {
        lemma_best_key_below_props(ct, n - 1);
        let p = best_key_below(ct, n - 1);
        let q = best_key_below(ct, n);
        assert forall|k: u8| 1 <= k < n implies #[trigger] key_weight(ct, k) <= key_weight(
            ct,
            q,
        ) by {
            if k < n - 1 {
                assert(key_weight(ct, k) <= key_weight(ct, p));
            } else {
                assert(k == (n - 1) as u8);
            }
        }
        assert forall|k: u8| 1 <= k < q implies #[trigger] key_weight(ct, k) < key_weight(
            ct,
            q,
        ) by {
            if q == (n - 1) as u8 {
                assert(key_weight(ct, k) <= key_weight(ct, p));
            }
        }
    }
}

/// The breaker's choice is sound: `best_key` lies in 1..=254, no key in
/// that range scores higher, and every smaller key scores strictly less,
/// so the choice is the deterministic first maximum.
pub proof fn lemma_best_key_props(ct: Seq<u8>)
    ensures
        1 <= best_key(ct) <= 254,
        forall|k: u8| 1 <= k <= 254 ==> #[trigger] key_weight(ct, k) <= key_weight(
            ct,
            best_key(ct),
        ),
        forall|k: u8| 1 <= k < best_key(ct) ==> #[trigger] key_weight(ct, k) < key_weight(
            ct,
            best_key(ct),
        ),
{
    lemma_best_key_below_props(ct, 255);
}

proof fn lemma_best_index_is_best_key(s: Seq<WeightedData<u8>>, ct: Seq<u8>, n: int)
    requires
        2 <= n <= 255,
        s.len() == n - 1,
        forall|j: int| 0 <= j < n - 1 ==> (#[trigger] s[j]).weight == key_weight(
            ct,
            ((j + 1) as u8),
        ),
    ensures
        best_index(s) == best_key_below(ct, n) - 1,
    decreases n,
{
    if n > 2 {
        let d = s.drop_last();
        assert(forall|j: int| 0 <= j < d.len() ==> #[trigger] d[j] == s[j]);
        lemma_best_index_is_best_key(d, ct, n - 1);
        lemma_best_key_below_props(ct, n - 1);
        assert(s.last().weight == key_weight(ct, ((n - 1) as u8)));
    }
}

/// Tries every key byte in 1..=254 on the ciphertext and returns the
/// candidates in key order, each weighted with the plausibility score of
/// its decryption. `peek` on the result gives the best candidate, with
/// the smallest such key on a tie.
pub fn break_single_xor(cipher: &[u8]) -> (b: RankedSet<u8>)
    ensures
        b@.len() == 254,
        forall|j: int| 0 <= j < 254 ==> (#[trigger] b@[j]).weight == key_weight(
            cipher@,
            ((j + 1) as u8),
        ) && b@[j].data == ((j + 1) as u8),
{
    let mut b: RankedSet<u8> = RankedSet::new();
    let mut k: usize = 1;
    while k < 255
        invariant
            1 <= k <= 255,
            b@.len() == k - 1,
            forall|j: int| 0 <= j < k - 1 ==> (#[trigger] b@[j]).weight == key_weight(
                cipher@,
                ((j + 1) as u8),
            ) && b@[j].data == ((j + 1) as u8),
        decreases 255 - k,
    {
        let candidate = single_xor(cipher, k as u8);
        let sc = score_buffer_as_text(candidate.as_slice());
        b.push(WeightedData { weight: sc, data: k as u8 });
        k += 1;
    }
    b
}

/// The best candidate for one ciphertext: the winning key byte and the
/// plausibility score of the decryption it gives.
pub fn top_candidate(cipher: &[u8]) -> (r: (u8, i128))
    ensures
        r.0 == best_key(cipher@),
        r.1 == key_weight(cipher@, best_key(cipher@)),
{
    let b = break_single_xor(cipher);
    let top = b.peek().unwrap();
    proof {
        lemma_best_index_props(b@);
        lemma_best_index_is_best_key(b@, cipher@, 255);
        lemma_best_key_below_props(cipher@, 255);
    }
    (top.data, top.weight)
}

/// The plausibility score that the breaker's best key earns on the
/// decoded form of line `i`.
pub open spec fn line_weight(lines: Seq<Vec<u8>>, i: int) -> int {
    let ct = hex::hex_decode_spec(lines[i]@);
    key_weight(ct, best_key(ct))
}

/// The winning line among the first `n`: the earliest line whose best
/// decryption scores highest. Meaningful for `0 < n <= lines.len()`.
pub open spec fn winner_below(lines: Seq<Vec<u8>>, n: int) -> int
    decreases n,
{
    if n <= 1 {
        0
    } else {
        let p = winner_below(lines, n - 1);
        if line_weight(lines, n - 1) > line_weight(lines, p) {
            n - 1
        } else {
            p
        }
    }
}

/// The line the selector picks out of the whole batch.
pub open spec fn winner_index(lines: Seq<Vec<u8>>) -> int {
    winner_below(lines, lines.len() as int)
}

proof fn lemma_winner_below_props(lines: Seq<Vec<u8>>, n: int)
    requires
        0 < n,
    ensures
        0 <= winner_below(lines, n) < n,
        forall|j: int| 0 <= j < n ==> #[trigger] line_weight(lines, j) <= line_weight(
            lines,
            winner_below(lines, n),
        ),
        forall|j: int| 0 <= j < winner_below(lines, n) ==> #[trigger] line_weight(lines, j)
            < line_weight(lines, winner_below(lines, n)),
    decreases n,
{
    if n > 1 {
        lemma_winner_below_props(lines, n - 1);
    }
}

/// The selector's choice is sound: the winning line's best decryption
/// scores at least as high as every other line's, and every earlier line
/// scores strictly less, so the choice is the deterministic first maximum.
pub proof fn lemma_winner_index_props(lines: Seq<Vec<u8>>)
    requires
        lines.len() > 0,
    ensures
        0 <= winner_index(lines) < lines.len(),
        forall|j: int| 0 <= j < lines.len() ==> #[trigger] line_weight(lines, j) <= line_weight(
            lines,
            winner_index(lines),
        ),
        forall|j: int| 0 <= j < winner_index(lines) ==> #[trigger] line_weight(lines, j)
            < line_weight(lines, winner_index(lines)),
{
    lemma_winner_below_props(lines, lines.len() as int);
}

proof fn lemma_best_index_is_winner(
    s: Seq<WeightedData<(usize, u8)>>,
    lines: Seq<Vec<u8>>,
    n: int,
)
    requires
        0 < n == s.len(),
        n <= lines.len(),
        forall|j: int| 0 <= j < n ==> (#[trigger] s[j]).weight == line_weight(lines, j),
    ensures
        best_index(s) == winner_below(lines, n),
    decreases n,
{
    if n > 1 {
        let d = s.drop_last();
        assert(forall|j: int| 0 <= j < d.len() ==> #[trigger] d[j] == s[j]);
        lemma_best_index_is_winner(d, lines, n - 1);
        lemma_winner_below_props(lines, n - 1);
        assert(s.last().weight == line_weight(lines, n - 1));
    }
}

/// The selection is the global maximum: no line of the batch, decrypted
/// with any key byte in 1..=254, scores higher than the winning line
/// decrypted with its best key.
pub proof fn lemma_selection_is_global_max(lines: Seq<Vec<u8>>)
    requires
        lines.len() > 0,
    ensures
        forall|j: int, k: u8|
            0 <= j < lines.len() && 1 <= k <= 254 ==> #[trigger] key_weight(
                hex::hex_decode_spec(lines[j]@),
                k,
            ) <= line_weight(lines, winner_index(lines)),
{
    lemma_winner_index_props(lines);
    assert forall|j: int, k: u8|
        0 <= j < lines.len() && 1 <= k <= 254 implies #[trigger] key_weight(
        hex::hex_decode_spec(lines[j]@),
        k,
    ) <= line_weight(lines, winner_index(lines)) by {
        let ct = hex::hex_decode_spec(lines[j]@);
        lemma_best_key_props(ct);
        assert(key_weight(ct, k) <= key_weight(ct, best_key(ct)));
        assert(line_weight(lines, j) <= line_weight(lines, winner_index(lines)));
    }
}

/// Index of the first line at or after `j` that is not well-formed hex;
/// the batch length when every such line is well-formed.
pub open spec fn first_invalid_line(lines: Seq<Vec<u8>>, j: int) -> int
    decreases lines.len() - j,
{
    if j < 0 || j >= lines.len() {
        lines.len() as int
    } else if !hex::valid_hex(lines[j]@) {
        j
    } else {
        first_invalid_line(lines, j + 1)
    }
}

proof fn lemma_first_invalid_line_at(lines: Seq<Vec<u8>>, j: int, i: int)
    requires
        0 <= j <= i <= lines.len(),
        forall|k: int| j <= k < i ==> hex::valid_hex((#[trigger] lines[k])@),
        i == lines.len() || !hex::valid_hex(lines[i]@),
    ensures
        first_invalid_line(lines, j) == i,
    decreases i - j,
{
    if j < i {
        lemma_first_invalid_line_at(lines, j + 1, i);
    }
}

/// Breaks every hex-encoded line of a batch and returns the single most
/// plausible decryption together with its score.
///
/// Fails with `EmptyBatch` exactly when the batch is empty, and with
/// `MalformedHex(i)` exactly when line `i` is the first line that is not
/// well-formed hex. Otherwise it returns the decryption of the winning
/// line `winner_index` under that line's best key.
pub fn detect_single_xor_cipher(ciphers: Vec<Vec<u8>>) -> (r: Result<(Vec<u8>, i128), XorError>)
    ensures
        ciphers@.len() == 0 ==> r == Err::<(Vec<u8>, i128), XorError>(XorError::EmptyBatch),
        ciphers@.len() > 0 && first_invalid_line(ciphers@, 0) < ciphers@.len() ==> r == Err::<
            (Vec<u8>, i128),
            XorError,
        >(XorError::MalformedHex(first_invalid_line(ciphers@, 0) as usize)),
        ciphers@.len() > 0 && first_invalid_line(ciphers@, 0) == ciphers@.len() ==> ({
            let w = winner_index(ciphers@);
            let ct = hex::hex_decode_spec(ciphers@[w]@);
            r matches Ok(p) && p.0@ == xor_seq(ct, best_key(ct)) && p.1 == key_weight(
                ct,
                best_key(ct),
            )
        }),
{
    if ciphers.len() == 0 {
        return Err(XorError::EmptyBatch);
    }
    let mut b: RankedSet<(usize, u8)> = RankedSet::new();
    let mut i: usize = 0;
    while i < ciphers.len()
        invariant
            i <= ciphers@.len(),
            ciphers@.len() > 0,
            forall|j: int| 0 <= j < i ==> hex::valid_hex((#[trigger] ciphers@[j])@),
            b@.len() == i,
            forall|j: int| 0 <= j < i ==> (#[trigger] b@[j]).weight == line_weight(ciphers@, j)
                && b@[j].data.0 == j && b@[j].data.1 == best_key(
                hex::hex_decode_spec((ciphers@[j])@),
            ),
        decreases ciphers@.len() - i,
    {
        let line = &ciphers[i];
        let decoded = match hex::decode_hex(line.as_slice()) {
            Ok(d) => d,
            Err(_) => {
                proof {
                    lemma_first_invalid_line_at(ciphers@, 0, i as int);
                }
                return Err(XorError::MalformedHex(i));
            },
        };
        let (key, sc) = top_candidate(decoded.as_slice());
        b.push(WeightedData { weight: sc, data: (i, key) });
        i += 1;
    }
    proof {
        lemma_first_invalid_line_at(ciphers@, 0, ciphers@.len() as int);
        lemma_best_index_props(b@);
        lemma_best_index_is_winner(b@, ciphers@, ciphers@.len() as int);
        lemma_winner_below_props(ciphers@, ciphers@.len() as int);
    }
    let top = b.peek().unwrap();
    let widx = top.data.0;
    let wkey = top.data.1;
    let best_score = top.weight;
    let wline = &ciphers[widx];
    let decoded = match hex::decode_hex(wline.as_slice()) {
        Ok(d) => d,
        Err(_) => {
            // dead branch: the loop already decoded every line
            proof {
                assert(false);
            }
            return Err(XorError::EmptyBatch);
        },
    };
    let plaintext = single_xor(decoded.as_slice(), wkey);
    Ok((plaintext, best_score))
}

} // verus!
