//! Where a run of bytes ends at its first zero byte.

use vstd::prelude::*;

verus! {

/// `position` is where the first zero byte of `bytes` stands, or the length
/// of `bytes` if none of them is zero.
pub open spec fn is_nul_index(bytes: Seq<u8>, position: int) -> bool {
    &&& 0 <= position <= bytes.len()
    &&& forall|k: int| 0 <= k < position ==> bytes[k] != 0
    &&& position < bytes.len() ==> bytes[position] == 0
}

/// The number of bytes before the first zero byte of `bytes`, or the length
/// of `bytes` if none of them is zero.
pub open spec fn nul_length(bytes: Seq<u8>) -> int
    decreases bytes.len(),
{
    if bytes.len() == 0 || bytes[0] == 0 {
        0
    } else {
        1 + nul_length(bytes.skip(1))
    }
}

/// The bytes before the first zero byte.
pub open spec fn nul_content(bytes: Seq<u8>) -> Seq<u8> {
    bytes.take(nul_length(bytes))
}

/// Some byte is zero.
pub open spec fn has_nul(bytes: Seq<u8>) -> bool {
    exists|i: int| 0 <= i < bytes.len() && bytes[i] == 0
}

/// `nul_length` is the one position that `is_nul_index` holds of.
pub proof fn lemma_nul_length(bytes: Seq<u8>)
    ensures
        is_nul_index(bytes, nul_length(bytes)),
        forall|p: int| is_nul_index(bytes, p) ==> p == nul_length(bytes),
        has_nul(bytes) <==> nul_length(bytes) < bytes.len(),
    decreases bytes.len(),
{
    if bytes.len() == 0 || bytes[0] == 0 {
    } else {
        let rest = bytes.skip(1);
        lemma_nul_length(rest);
        let n = nul_length(rest);
        assert forall|k: int| 0 <= k < 1 + n implies bytes[k] != 0 by {
            if k > 0 {
                assert(rest[k - 1] == bytes[k]);
            }
        }
        if n < rest.len() {
            assert(rest[n] == bytes[n + 1]);
        }
    }
    let found = nul_length(bytes);
    assert forall|p: int| is_nul_index(bytes, p) implies p == found by {
        if p < found {
            assert(bytes[p] == 0);
        } else if found < p {
            assert(bytes[found] == 0);
        }
    }
}

/// The position of the first zero byte among the first `limit` bytes, or
/// `limit` if none of them is zero.
pub fn bounded_len(bytes: &[u8], limit: usize) -> (r: usize)
    requires
        limit <= bytes@.len(),
    ensures
        r <= limit,
        is_nul_index(bytes@.take(limit as int), r as int),
        r == nul_length(bytes@.take(limit as int)),
{
    let mut position: usize = 0;
    while position < limit && bytes[position] != 0
        invariant
            position <= limit <= bytes@.len(),
            forall|k: int| 0 <= k < position ==> bytes@[k] != 0,
        decreases limit - position,
    {
        position += 1;
    }
    proof {
        lemma_nul_length(bytes@.take(limit as int));
    }
    position
}

} // verus!
