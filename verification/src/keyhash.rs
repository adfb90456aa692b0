//! The deterministic map from keys to the id space.
//!
//! A key of any length is folded into a 256-bit id by four
//! Fowler–Noll–Vo lanes over the key bytes, one differently seeded
//! fold per 64-bit quarter of the id.
use vstd::prelude::*;
use crate::codec::u64_be;
use crate::id::KEY_LEN;
use crate::id::NodeId;

verus! {

/// The FNV-1a offset basis.
pub const FNV_OFFSET: u64 = 0xcbf29ce484222325;

/// The FNV-1a prime.
pub const FNV_PRIME: u64 = 0x100000001b3;

/// One FNV-1a step: mix one byte in, then multiply modulo 2^64.
pub open spec fn fnv_step(h: u64, b: u8) -> u64 {
    vstd::wrapping::u64_specs::wrapping_mul(h ^ (b as u64), FNV_PRIME)
}

/// An FNV-1a fold of a whole byte string from the given seed.
pub open spec fn fnv_fold(seed: u64, s: Seq<u8>) -> u64
    decreases s.len(),
{
    if s.len() == 0 {
        seed
    } else {
        fnv_fold(fnv_step(seed, s[0]), s.skip(1))
    }
}

/// The id a key maps to: four seeded folds, most significant first.
pub open spec fn key_id(s: Seq<u8>) -> Seq<u8> {
    u64_be(fnv_fold(FNV_OFFSET ^ 0, s)) + u64_be(fnv_fold(FNV_OFFSET ^ 1, s)) + u64_be(
        fnv_fold(FNV_OFFSET ^ 2, s),
    ) + u64_be(fnv_fold(FNV_OFFSET ^ 3, s))
}

/// Folds the key bytes from one seed.
fn fnv_lane(seed: u64, key: &Vec<u8>) -> (r: u64)
    ensures
        r == fnv_fold(seed, key@),
{
    proof {
        assert(key@.skip(0) =~= key@);
    }
    let mut h = seed;
    let mut i: usize = 0;
    while i < key.len()
        invariant
            i <= key@.len(),
            fnv_fold(seed, key@) == fnv_fold(h, key@.skip(i as int)),
        decreases key@.len() - i,
    {
        proof {
            assert(key@.skip(i as int)[0] == key@[i as int]);
            assert(key@.skip(i as int).skip(1) =~= key@.skip(i + 1));
        }
        h = (h ^ (key[i] as u64)).wrapping_mul(FNV_PRIME);
        i = i + 1;
    }
    h
}

/// Maps a key to its id in the shared 256-bit space.
pub fn hash_key(key: &Vec<u8>) -> (r: NodeId)
    ensures
        r@ == key_id(key@),
        r.wf(),
{
    let mut bytes: Vec<u8> = Vec::new();
    let h0 = fnv_lane(FNV_OFFSET ^ 0, key);
    let h1 = fnv_lane(FNV_OFFSET ^ 1, key);
    let h2 = fnv_lane(FNV_OFFSET ^ 2, key);
    let h3 = fnv_lane(FNV_OFFSET ^ 3, key);
    crate::codec::push_u64_be(&mut bytes, h0);
    crate::codec::push_u64_be(&mut bytes, h1);
    crate::codec::push_u64_be(&mut bytes, h2);
    crate::codec::push_u64_be(&mut bytes, h3);
    proof {
        assert(bytes@ =~= key_id(key@));
        assert(bytes@.len() == KEY_LEN);
    }
    NodeId { bytes }
}

} // verus!
