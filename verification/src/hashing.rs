//! Indexing hash for token strings.
//!
//! Refresh tokens and revoked access tokens are looked up by a fast
//! 64-bit hash of their text. The raw token value itself carries the
//! cryptographic entropy; the hash is an index, not a derived secret.
//! The function is FNV-1a over the character values.

use vstd::prelude::*;

verus! {

pub const FNV_OFFSET_BASIS: u64 = 0xcbf2_9ce4_8422_2325;

pub const FNV_PRIME: u64 = 0x0000_0100_0000_01b3;

pub open spec fn fnv1a_step(h: u64, c: char) -> u64 {
    vstd::wrapping::u64_specs::wrapping_mul(h ^ (c as u64), FNV_PRIME)
}

/// FNV-1a over the characters of a string, most significant first.
pub open spec fn fnv1a_hash(s: Seq<char>) -> u64
    decreases s.len(),
{
    if s.len() == 0 {
        FNV_OFFSET_BASIS
    } else {
        fnv1a_step(fnv1a_hash(s.drop_last()), s.last())
    }
}

/// Computes the indexing hash of a token string.
pub fn hash_token(s: &str) -> (r: u64)
    ensures
        r == fnv1a_hash(s@),
{
    let n: usize = s.unicode_len();
    let mut h: u64 = FNV_OFFSET_BASIS;
    let mut i: usize = 0;
    proof {
        assert(s@.take(0) =~= Seq::<char>::empty());
    }
    while i < n
        invariant
            i <= n,
            n == s@.len(),
            h == fnv1a_hash(s@.take(i as int)),
        decreases n - i,
    {
        let c = s.get_char(i);
        h = (h ^ (c as u64)).wrapping_mul(FNV_PRIME);
        proof {
            let cur = s@.take(i as int + 1);
            assert(cur.drop_last() =~= s@.take(i as int));
            assert(cur.last() == c);
        }
        i += 1;
    }
    proof {
        assert(s@.take(n as int) =~= s@);
    }
    h
}

} // verus!
