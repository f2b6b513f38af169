//! The hash family the perfect-hash table is built on: a 64-bit seed turns
//! a byte-string key into a triple `(g, f1, f2)` — `g` selects the bucket,
//! `f1` and `f2` feed the displacement — and `displace` folds a bucket's
//! displacement pair into a slot. Everything here is a pure function of its
//! arguments, which is what makes two builds over the same keys agree.

use vstd::prelude::*;

verus! {

/// The 64-bit seed a whole table is hashed under.
pub type HashKey = u64;

/// The basis the byte mixer starts from.
pub const HASH_BASIS: u64 = 0xcbf29ce484222325;

/// The multiplier of the byte mixer.
pub const HASH_PRIME: u64 = 0x100000001b3;

/// The per-key triple: `g` selects the bucket, `f1` and `f2` feed the
/// displacement.
#[derive(Clone, Copy, PartialEq, Eq, Structural, Debug)]
pub struct Hashes {
    pub g: u32,
    pub f1: u32,
    pub f2: u32,
}

/// One mixing step: fold the byte in, then multiply, wrapping.
pub open spec fn mix_step(h: u64, b: u8) -> u64 {
    vstd::wrapping::u64_specs::wrapping_mul(h ^ (b as u64), HASH_PRIME)
}

/// The 64-bit hash of the bytes `s` starting from state `h`.
pub open spec fn hash_bytes(s: Seq<u8>, h: u64) -> u64
    decreases s.len(),
{
    if s.len() == 0 {
        h
    } else {
        hash_bytes(s.skip(1), mix_step(h, s[0]))
    }
}

/// The finalizing scrambler: three shift-xor-multiply rounds.
pub open spec fn scramble(z: u64) -> u64 {
    let a = vstd::wrapping::u64_specs::wrapping_mul(z ^ (z >> 33), 0xff51afd7ed558ccd);
    let b = vstd::wrapping::u64_specs::wrapping_mul(a ^ (a >> 33), 0xc4ceb9fe1a85ec53);
    b ^ (b >> 33)
}

/// The triple a key hashes to under a seed: the primary hash gives `g`,
/// its scramble gives `f1` and `f2`.
pub open spec fn spec_hashes(key: Seq<u8>, seed: u64) -> Hashes {
    let h1 = hash_bytes(key, seed ^ HASH_BASIS);
    let h2 = scramble(h1);
    Hashes { g: (h1 >> 32) as u32, f1: (h2 & 0xffffffff) as u32, f2: (h2 >> 32) as u32 }
}

/// The slot a triple lands in before the modulus: `(d1 ^ f1) + (d2 ^ f2)`,
/// wrapping.
pub open spec fn spec_displace(f1: u32, f2: u32, d1: u32, d2: u32) -> u32 {
    vstd::wrapping::u32_specs::wrapping_add(d1 ^ f1, d2 ^ f2)
}

/// Hash one key under a seed.
pub fn hash(key: &Vec<u8>, seed: u64) -> (r: Hashes)
    ensures
        r == spec_hashes(key@, seed),
{
    let mut h: u64 = seed ^ HASH_BASIS;
    let mut i: usize = 0;
    proof {
        assert(key@.skip(0) =~= key@);
    }
    while i < key.len()
        invariant
            i <= key@.len(),
            hash_bytes(key@, seed ^ HASH_BASIS) == hash_bytes(key@.skip(i as int), h),
        decreases key@.len() - i,
    {
        proof {
            assert(key@.skip(i as int).skip(1) =~= key@.skip(i as int + 1));
            assert(key@.skip(i as int)[0] == key@[i as int]);
        }
        h = (h ^ (key[i] as u64)).wrapping_mul(HASH_PRIME);
        i = i + 1;
    }
    proof {
        assert(key@.skip(key@.len() as int) =~= Seq::<u8>::empty());
    }
    let h2 = scramble_exec(h);
    proof {
        assert((h >> 32) < 0x100000000u64) by (bit_vector);
        assert((h2 & 0xffffffff) < 0x100000000u64) by (bit_vector);
        assert((h2 >> 32) < 0x100000000u64) by (bit_vector);
    }
    Hashes { g: (h >> 32) as u32, f1: (h2 & 0xffffffff) as u32, f2: (h2 >> 32) as u32 }
}

/// The finalizing scrambler.
fn scramble_exec(z: u64) -> (r: u64)
    ensures
        r == scramble(z),
{
    let a = (z ^ (z >> 33)).wrapping_mul(0xff51afd7ed558ccd);
    let b = (a ^ (a >> 33)).wrapping_mul(0xc4ceb9fe1a85ec53);
    b ^ (b >> 33)
}

/// Fold a displacement pair into a triple's slot value.
pub fn displace(f1: u32, f2: u32, d1: u32, d2: u32) -> (r: u32)
    ensures
        r == spec_displace(f1, f2, d1, d2),
{
    (d1 ^ f1).wrapping_add(d2 ^ f2)
}

} // verus!
