//! The two 64-bit path digests used by the bundle index: seeded
//! Murmur2A-64 and FNV-1a-64. A file's full path is stored in the index only
//! as one of these hashes, so path reconstruction must recompute them.

use crate::wire::le64_at;
use vstd::prelude::*;

verus! {

pub const MURMUR_SEED: u64 = 0x1337B33F;

pub const MURMUR_M: u64 = 0xc6a4a7935bd1e995;

pub const FNV_OFFSET_BASIS: u64 = 0xcbf29ce484222325;

pub const FNV_PRIME: u64 = 0x100000001b3;

/// One mixed 8-byte block of Murmur2A-64.
pub open spec fn murmur_mix(k0: u64) -> u64 {
    let k1 = k0.wrapping_mul(MURMUR_M);
    let k2 = k1 ^ (k1 >> 47);
    k2.wrapping_mul(MURMUR_M)
}

/// The hash state after folding in the full 8-byte blocks of `key` from
/// block index `b` on, starting from state `h`.
pub open spec fn murmur_blocks(key: Seq<u8>, b: int, h: u64) -> u64
    decreases key.len() / 8 - b,
{
    if b < 0 || b >= key.len() / 8 {
        h
    } else {
        murmur_blocks(key, b + 1, (h ^ murmur_mix(le64_at(key, 8 * b))).wrapping_mul(MURMUR_M))
    }
}

/// The trailing (at most 7) bytes of `key` gathered little-endian into one
/// word: byte `j` of the tail lands at bit position `8 * j`.
pub open spec fn murmur_tail(key: Seq<u8>, j: int) -> u64
    decreases j,
{
    if j <= 0 {
        0u64
    } else {
        murmur_tail(key, j - 1) ^ (((key[(key.len() / 8) * 8 + j - 1] as u64) << (8 * (j
            - 1)) as u64) as u64)
    }
}

/// Murmur2A-64 of `key` with the index's fixed seed: the seed is xored with
/// the wrapped product of the length and the multiplier, every full 8-byte
/// little-endian block is mixed in, the tail bytes are folded, and the state
/// is finalized with two shift-xor-multiply rounds.
#[verifier::opaque]
pub open spec fn murmur64a(key: Seq<u8>) -> u64 {
    let h0 = MURMUR_SEED ^ (key.len() as u64).wrapping_mul(MURMUR_M);
    let h1 = murmur_blocks(key, 0, h0);
    let rem = key.len() % 8;
    let h2 = if rem != 0 {
        (h1 ^ murmur_tail(key, rem as int)).wrapping_mul(MURMUR_M)
    } else {
        h1
    };
    let h3 = h2 ^ (h2 >> 47);
    let h4 = h3.wrapping_mul(MURMUR_M);
    h4 ^ (h4 >> 47)
}

/// One FNV-1a-64 step: xor the byte in, multiply (wrapping) by the prime.
pub open spec fn fnv_step(h: u64, b: u8) -> u64 {
    (h ^ (b as u64)).wrapping_mul(FNV_PRIME)
}

/// The FNV-1a-64 state after folding in `key[i..]`, starting from `h`.
pub open spec fn fnv_from(key: Seq<u8>, i: int, h: u64) -> u64
    decreases key.len() - i,
{
    if i < 0 || i >= key.len() {
        h
    } else {
        fnv_from(key, i + 1, fnv_step(h, key[i]))
    }
}

/// FNV-1a-64 of `key`, from the standard offset basis.
#[verifier::opaque]
pub open spec fn fnv1a64_spec(key: Seq<u8>) -> u64 {
    fnv_from(key, 0, FNV_OFFSET_BASIS)
}

/// Seeded Murmur2A-64 digest of `key`.
#[verifier::rlimit(50)]
pub fn murmur_hash64a(key: &[u8]) -> (r: u64)
    ensures
        r == murmur64a(key@),
{
    let len = key.len();
    let m: u64 = MURMUR_M;
    let mut h: u64 = MURMUR_SEED ^ (len as u64).wrapping_mul(m);
    let ghost h0 = h;

    let n_blocks = len / 8;
    let mut b: usize = 0;
    while b < n_blocks
        invariant
            len == key@.len(),
            m == MURMUR_M,
            n_blocks == len / 8,
            b <= n_blocks,
            murmur_blocks(key@, b as int, h) == murmur_blocks(key@, 0, h0),
        decreases n_blocks - b,
    {
        assert(b * 8 + 8 <= len) by {
            vstd::arithmetic::div_mod::lemma_fundamental_div_mod(len as int, 8);
        }
        let ghost prev_b = b as int;
        let ghost prev_h = h;
        let k0 = crate::wire::read_u64(key, b * 8);
        let k1 = k0.wrapping_mul(m);
        let k2 = k1 ^ (k1 >> 47u64);
        let k3 = k2.wrapping_mul(m);
        h = (h ^ k3).wrapping_mul(m);
        b = b + 1;
        proof {
            assert(m == MURMUR_M);
            assert(k0 == le64_at(key@, 8 * prev_b));
            assert(k3 == murmur_mix(le64_at(key@, 8 * prev_b)));
            assert(murmur_blocks(key@, prev_b, prev_h) == murmur_blocks(key@, b as int, h));
        }
    }

    let rem = len % 8;
    if rem > 0 {
        let base = n_blocks * 8;
        assert(base + rem == len) by {
            vstd::arithmetic::div_mod::lemma_fundamental_div_mod(len as int, 8);
        }
        let mut k: u64 = 0;
        let mut j: usize = 0;
        while j < rem
            invariant
                len == key@.len(),
                m == MURMUR_M,
                n_blocks == len / 8,
                rem == len % 8,
                base == n_blocks * 8,
                base + rem == len,
                j <= rem,
                k == murmur_tail(key@, j as int),
            decreases rem - j,
        {
            let byte = key[base + j];
            k = k ^ ((byte as u64) << ((8 * j) as u64));
            j = j + 1;
        }
        h = (h ^ k).wrapping_mul(m);
    }

    h = h ^ (h >> 47u64);
    h = h.wrapping_mul(m);
    h = h ^ (h >> 47u64);
    proof {
        reveal(murmur64a);
    }
    h
}

/// FNV-1a-64 digest of `key`.
pub fn fnv1a64(key: &[u8]) -> (r: u64)
    ensures
        r == fnv1a64_spec(key@),
{
    let len = key.len();
    let mut hash: u64 = FNV_OFFSET_BASIS;
    let mut i: usize = 0;
    while i < len
        invariant
            len == key@.len(),
            i <= len,
            fnv_from(key@, i as int, hash) == fnv_from(key@, 0, FNV_OFFSET_BASIS),
        decreases len - i,
    {
        hash = (hash ^ (key[i] as u64)).wrapping_mul(FNV_PRIME);
        i = i + 1;
    }
    proof {
        reveal(fnv1a64_spec);
    }
    hash
}

} // verus!
