//! XOR primitives: single-byte XOR and fixed-length two-buffer XOR.
use vstd::prelude::*;

use crate::XorError;

verus! {

/// Every byte of `s` combined with the one key byte `k`.
pub open spec fn xor_seq(s: Seq<u8>, k: u8) -> Seq<u8> {
    Seq::new(s.len(), |i: int| s[i] ^ k)
}

/// Elementwise XOR of two sequences of equal length.
pub open spec fn fixed_xor_spec(a: Seq<u8>, b: Seq<u8>) -> Seq<u8> {
    Seq::new(a.len(), |i: int| a[i] ^ b[i])
}

/// XORs every byte of the buffer with the single key byte.
pub fn single_xor(s: &[u8], k: u8) -> (r: Vec<u8>)
    ensures
        r@ == xor_seq(s@, k),
{
    let mut out: Vec<u8> = Vec::new();
    let mut i: usize = 0;
    while i < s.len()
        invariant
            i <= s@.len(),
            out@.len() == i,
            forall|j: int| 0 <= j < i ==> out@[j] == #[trigger] s@[j] ^ k,
        decreases s@.len() - i,
    {
        out.push(s[i] ^ k);
        i += 1;
    }
    proof {
        assert(out@ =~= xor_seq(s@, k));
    }
    out
}

/// XORs two buffers elementwise. Fails with `LengthMismatch`, and returns
/// no partial result, when the buffers differ in length.
pub fn coll_xor(s: &[u8], p: &[u8]) -> (r: Result<Vec<u8>, XorError>)
    ensures
        s@.len() != p@.len() ==> r == Err::<Vec<u8>, XorError>(XorError::LengthMismatch),
        s@.len() == p@.len() ==> (r matches Ok(v) && v@ == fixed_xor_spec(s@, p@)),
{
    if s.len() != p.len() {
        return Err(XorError::LengthMismatch);
    }
    let mut out: Vec<u8> = Vec::new();
    let mut i: usize = 0;
    while i < s.len()
        invariant
            i <= s@.len(),
            s@.len() == p@.len(),
            out@.len() == i,
            forall|j: int| 0 <= j < i ==> out@[j] == #[trigger] s@[j] ^ p@[j],
        decreases s@.len() - i,
    {
        out.push(s[i] ^ p[i]);
        i += 1;
    }
    proof {
        assert(out@ =~= fixed_xor_spec(s@, p@));
    }
    Ok(out)
}

/// XOR with one key byte is an involution: applying the same key twice
/// gives the original buffer back.
pub proof fn lemma_single_xor_involution(s: Seq<u8>, k: u8)
    ensures
        xor_seq(xor_seq(s, k), k) == s,
{
    assert forall|i: int| 0 <= i < s.len() implies xor_seq(xor_seq(s, k), k)[i] == s[i] by {
        let x = s[i];
        assert((x ^ k) ^ k == x) by (bit_vector);
    }
    assert(xor_seq(xor_seq(s, k), k) =~= s);
}

} // verus!
