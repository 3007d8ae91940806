//! Deterministic, seedable pseudo-random engine: a 256-bit
//! xor-shift-rotate generator whose four state words are seeded by
//! repeated applications of a splitting hash.  Every draw is pinned
//! bit-for-bit by the spec functions below, so two engines seeded alike
//! produce identical streams.

use vstd::prelude::*;

verus! {

/// Rotate a 64-bit word left by `k` bits, `1 <= k <= 63`.
pub open spec fn rotl64(x: u64, k: u64) -> u64 {
    (x << k) | (x >> (64 - k))
}

/// State advance of the splitting hash: add the odd increment.
pub open spec fn sm_advance(x: u64) -> u64 {
    x.wrapping_add(0x9e3779b97f4a7c15)
}

/// Output scramble of the splitting hash.
pub open spec fn sm_mix(z0: u64) -> u64 {
    let z1 = (z0 ^ (z0 >> 30)).wrapping_mul(0xbf58476d1ce4e5b9);
    let z2 = (z1 ^ (z1 >> 27)).wrapping_mul(0x94d049bb133111eb);
    z2 ^ (z2 >> 31)
}

/// One step of the splitting hash: advances the state in place and
/// returns the scrambled new state.
pub fn split_mix_64(x: &mut u64) -> (r: u64)
    ensures
        *final(x) == sm_advance(*old(x)),
        r == sm_mix(sm_advance(*old(x))),
{
    *x = x.wrapping_add(0x9e3779b97f4a7c15);
    let mut z: u64 = *x;
    z = (z ^ (z >> 30)).wrapping_mul(0xbf58476d1ce4e5b9);
    z = (z ^ (z >> 27)).wrapping_mul(0x94d049bb133111eb);
    z ^ (z >> 31)
}

pub struct Xoshiro256 {
    pub s0: u64,
    pub s1: u64,
    pub s2: u64,
    pub s3: u64,
}

/// The engine state produced by seeding with `seed`.
pub open spec fn seeded(seed: u64) -> Xoshiro256 {
    let x1 = sm_advance(seed);
    let x2 = sm_advance(x1);
    let x3 = sm_advance(x2);
    let x4 = sm_advance(x3);
    Xoshiro256 { s0: sm_mix(x1), s1: sm_mix(x2), s2: sm_mix(x3), s3: sm_mix(x4) }
}

/// The word returned by one step of the engine.
pub open spec fn next_value(s: Xoshiro256) -> u64 {
    rotl64(s.s1.wrapping_mul(5), 7).wrapping_mul(9)
}

/// The engine state after one step.
pub open spec fn next_state(s: Xoshiro256) -> Xoshiro256 {
    let t = s.s1 << 17;
    let s2a = s.s2 ^ s.s0;
    let s3a = s.s3 ^ s.s1;
    let s1b = s.s1 ^ s2a;
    let s0b = s.s0 ^ s3a;
    let s2b = s2a ^ t;
    let s3b = rotl64(s3a, 45);
    Xoshiro256 { s0: s0b, s1: s1b, s2: s2b, s3: s3b }
}

/// Exec counterpart of `rotl64`.
fn rotate_left_64(x: u64, k: u64) -> (r: u64)
    requires
        1 <= k <= 63,
    ensures
        r == rotl64(x, k),
{
    (x << k) | (x >> (64 - k))
}

impl Xoshiro256 {
    pub fn new(seed: u64) -> (r: Self)
        ensures
            r == seeded(seed),
    {
        let mut s: u64 = seed;
        let s0 = split_mix_64(&mut s);
        let s1 = split_mix_64(&mut s);
        let s2 = split_mix_64(&mut s);
        let s3 = split_mix_64(&mut s);
        Self { s0, s1, s2, s3 }
    }

    /// One step of the generator: returns the scrambled word and
    /// advances the four state words.
    pub fn next(&mut self) -> (r: u64)
        ensures
            r == next_value(*old(self)),
            *final(self) == next_state(*old(self)),
    {
        let result = rotate_left_64(self.s1.wrapping_mul(5), 7).wrapping_mul(9);
        let t = self.s1 << 17u64;

        self.s2 = self.s2 ^ self.s0;
        self.s3 = self.s3 ^ self.s1;
        self.s1 = self.s1 ^ self.s2;
        self.s0 = self.s0 ^ self.s3;
        self.s2 = self.s2 ^ t;
        self.s3 = rotate_left_64(self.s3, 45);

        result
    }

    /// Uniform draw from the half-open range `[lower, upper)`.
    pub fn gen_usize(&mut self, lower: usize, upper: usize) -> (r: usize)
        requires
            lower < upper,
        ensures
            lower <= r < upper,
            r == lower + next_value(*old(self)) % ((upper - lower) as u64),
            *final(self) == next_state(*old(self)),
    {
        let count = upper - lower;
        let w = self.next() % (count as u64);
        assert(w < count as u64);
        (w as usize) + lower
    }

    /// Uniform draw from the half-open range `[lower, upper)`.
    pub fn gen_i32(&mut self, lower: i32, upper: i32) -> (r: i32)
        requires
            lower < upper,
            upper - lower <= i32::MAX,
        ensures
            lower <= r < upper,
            r == lower + next_value(*old(self)) % ((upper - lower) as u64),
            *final(self) == next_state(*old(self)),
    {
        let count = upper - lower;
        let w = self.next() % (count as u64);
        assert(w < count as u64);
        (w as i32) + lower
    }

    /// The 52 fraction bits of a uniform draw in `[0, 1)`: the drawn
    /// real number equals these bits divided by 2^52.
    pub fn gen_unit_bits(&mut self) -> (r: u64)
        ensures
            r == next_value(*old(self)) & 0xf_ffff_ffff_ffff,
            r < 0x10_0000_0000_0000,
            *final(self) == next_state(*old(self)),
    {
        let w = self.next();
        let r = w & 0xf_ffff_ffff_ffff;
        assert(w & 0xf_ffff_ffff_ffff < 0x10_0000_0000_0000) by (bit_vector);
        r
    }
}

} // verus!
