//! Seedable pseudo-random number generation: a splitmix64 stream used to
//! expand a seed, and the xoshiro256** generator built on top of it. Every
//! step is a pure function of the generator state, so a fixed seed gives a
//! reproducible stream; the contracts state each step exactly.

use vstd::prelude::*;

verus! {

/// State mixer that expands one 64-bit seed into a stream of well-scrambled
/// words; used to derive the four words of a xoshiro256 state.
pub struct SplitMix64 {
    s: u64,
}

/// The successor of a splitmix64 state: the golden-ratio increment.
pub open spec fn split_mix_next_state(s: u64) -> u64 {
    s.wrapping_add(0x9e3779b97f4a7c15)
}

/// The word that a splitmix64 state (after stepping) is scrambled into.
pub open spec fn split_mix_output(s: u64) -> u64 {
    let z1 = (s ^ (s >> 30)).wrapping_mul(0xbf58476d1ce4e5b9);
    let z2 = (z1 ^ (z1 >> 27)).wrapping_mul(0x94d049bb133111eb);
    z2 ^ (z2 >> 31)
}

impl SplitMix64 {
    pub closed spec fn state(&self) -> u64 {
        self.s
    }

    pub fn new(seed: u64) -> (r: Self)
        ensures
            r.state() == seed,
    {
        Self { s: seed }
    }

    pub fn next_u64(&mut self) -> (r: u64)
        ensures
            final(self).state() == split_mix_next_state(old(self).state()),
            r == split_mix_output(split_mix_next_state(old(self).state())),
    {
        self.s = self.s.wrapping_add(0x9e3779b97f4a7c15);
        let mut z = self.s;
        z = (z ^ (z >> 30)).wrapping_mul(0xbf58476d1ce4e5b9);
        z = (z ^ (z >> 27)).wrapping_mul(0x94d049bb133111eb);
        z ^ (z >> 31)
    }
}

/// Left rotation of a 64-bit word by `k` bits, `0 < k < 64`.
pub open spec fn rotl64(x: u64, k: u64) -> u64
    recommends
        0 < k < 64,
{
    (x << k) | (x >> (64 - k) as u64)
}

/// The word a xoshiro256** state is scrambled into.
pub open spec fn xoshiro_output(s: [u64; 4]) -> u64 {
    rotl64(s[1].wrapping_mul(5), 7).wrapping_mul(9)
}

/// The successor of a xoshiro256** state.
pub open spec fn xoshiro_next_state(s: [u64; 4]) -> [u64; 4] {
    let t = s[1] << 17;
    let s2a = s[2] ^ s[0];
    let s3a = s[3] ^ s[1];
    let s1b = s[1] ^ s2a;
    let s0b = s[0] ^ s3a;
    let s2b = s2a ^ t;
    let s3b = rotl64(s3a, 45);
    [s0b, s1b, s2b, s3b]
}

/// xoshiro256** pseudo-random generator. The state is seeded through
/// splitmix64, and each draw is the exact function of the previous state
/// given by `xoshiro_next_state` / `xoshiro_output`.
pub struct Xoshiro256 {
    s: [u64; 4],
}

impl Xoshiro256 {
    pub closed spec fn state(&self) -> [u64; 4] {
        self.s
    }

    /// The four state words that seeding with `seed` produces: four
    /// successive splitmix64 outputs.
    pub open spec fn seeded_state(seed: u64) -> [u64; 4] {
        let s0 = split_mix_next_state(seed);
        let s1 = split_mix_next_state(s0);
        let s2 = split_mix_next_state(s1);
        let s3 = split_mix_next_state(s2);
        [
            split_mix_output(s0),
            split_mix_output(s1),
            split_mix_output(s2),
            split_mix_output(s3),
        ]
    }

    pub fn new(seed: u64) -> (r: Self)
        ensures
            r.state() == Self::seeded_state(seed),
    {
        let mut split_mix_64 = SplitMix64::new(seed);
        let w0 = split_mix_64.next_u64();
        let w1 = split_mix_64.next_u64();
        let w2 = split_mix_64.next_u64();
        let w3 = split_mix_64.next_u64();
        Self { s: [w0, w1, w2, w3] }
    }

    pub fn next_u64(&mut self) -> (r: u64)
        ensures
            r == xoshiro_output(old(self).state()),
            final(self).state() == xoshiro_next_state(old(self).state()),
    {
        let s1x5: u64 = self.s[1].wrapping_mul(5);
        let result: u64 = ((s1x5 << 7) | (s1x5 >> 57)).wrapping_mul(9);
        let t: u64 = self.s[1] << 17;

        self.s[2] = self.s[2] ^ self.s[0];
        self.s[3] = self.s[3] ^ self.s[1];
        self.s[1] = self.s[1] ^ self.s[2];
        self.s[0] = self.s[0] ^ self.s[3];
        self.s[2] = self.s[2] ^ t;
        self.s[3] = (self.s[3] << 45) | (self.s[3] >> 19);

        result
    }

    /// Uniform-style draw in `[lower, upper)`: the next word reduced into the
    /// range, which must be non-empty.
    pub fn gen_usize(&mut self, lower: usize, upper: usize) -> (r: usize)
        requires
            lower < upper,
        ensures
            lower <= r < upper,
            r == lower + xoshiro_output(old(self).state()) as int % (upper - lower),
            final(self).state() == xoshiro_next_state(old(self).state()),
    {
        let count = upper - lower;
        (self.next_u64() % count as u64) as usize + lower
    }

    /// Uniform-style draw in `[lower, upper)` for signed bounds.
    pub fn gen_i64(&mut self, lower: i64, upper: i64) -> (r: i64)
        requires
            lower < upper,
            upper - lower <= i64::MAX,
        ensures
            lower <= r < upper,
            r == lower + xoshiro_output(old(self).state()) as int % (upper - lower),
            final(self).state() == xoshiro_next_state(old(self).state()),
    {
        let count = upper - lower;
        (self.next_u64() % count as u64) as i64 + lower
    }
}

} // verus!
