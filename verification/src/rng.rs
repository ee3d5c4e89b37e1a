//! The deterministic random generator that drives candidate tie-breaking.
//!
//! This is the xoshiro128+ algorithm of Blackman and Vigna, with the
//! splitmix64 fallback for an all-zero seed.  A run's generator is seeded
//! from the run's darkness budget, so identical inputs replay identical
//! stochastic paths.
use vstd::prelude::*;

use vstd::wrapping::{u32_specs, u64_specs};

verus! {

/// State of the xoshiro128+ generator: four 32-bit words.
#[derive(Clone, Copy, PartialEq, Eq, Structural, Debug)]
pub struct Xoshiro128Plus {
    pub s0: u32,
    pub s1: u32,
    pub s2: u32,
    pub s3: u32,
}

/// Rotate a 32-bit word left by 11 bits.
pub open spec fn rotl11(x: u32) -> u32 {
    (x << 11u32) | (x >> 21u32)
}

/// The value a generator in state `s` emits next.
pub open spec fn rng_output(s: Xoshiro128Plus) -> u32 {
    u32_specs::wrapping_add(s.s0, s.s3)
}

/// The state a generator in state `s` steps to.
pub open spec fn rng_step(s: Xoshiro128Plus) -> Xoshiro128Plus {
    let t = s.s1 << 9u32;
    let s2a = s.s2 ^ s.s0;
    let s3a = s.s3 ^ s.s1;
    (Xoshiro128Plus { s0: s.s0 ^ s3a, s1: s.s1 ^ s2a, s2: s2a ^ t, s3: rotl11(s3a) })
}

/// One step of the splitmix64 generator: the new state and the mixed output.
pub open spec fn splitmix_step(x: u64) -> (u64, u64) {
    let x1 = u64_specs::wrapping_add(x, 0x9e3779b97f4a7c15);
    let z1 = u64_specs::wrapping_mul(x1 ^ (x1 >> 30u64), 0xbf58476d1ce4e5b9);
    let z2 = u64_specs::wrapping_mul(z1 ^ (z1 >> 27u64), 0x94d049bb133111eb);
    (x1, z2 ^ (z2 >> 31u64))
}

/// The generator state seeded from a darkness budget: the budget's bytes,
/// little endian, fill the first half of the 16-byte seed.  An all-zero seed
/// is replaced by two splitmix64 outputs, as the seeding convention demands.
pub open spec fn seed_state(d: u64) -> Xoshiro128Plus {
    if d == 0 {
        let (x1, z1) = splitmix_step(0);
        let (x2, z2) = splitmix_step(x1);
        (Xoshiro128Plus {
            s0: (z1 & 0xFFFF_FFFF) as u32,
            s1: (z1 >> 32u64) as u32,
            s2: (z2 & 0xFFFF_FFFF) as u32,
            s3: (z2 >> 32u64) as u32,
        })
    } else {
        (Xoshiro128Plus {
            s0: (d & 0xFFFF_FFFF) as u32,
            s1: (d >> 32u64) as u32,
            s2: 0,
            s3: 0,
        })
    }
}

impl Xoshiro128Plus {
    /// Seeds a generator from a run's darkness budget.
    pub fn from_darkness(d: u64) -> (r: Xoshiro128Plus)
        ensures
            r == seed_state(d),
    {
        if d == 0 {
            let x1: u64 = 0u64.wrapping_add(0x9e3779b97f4a7c15);
            let z1a: u64 = (x1 ^ (x1 >> 30)).wrapping_mul(0xbf58476d1ce4e5b9);
            let z1b: u64 = (z1a ^ (z1a >> 27)).wrapping_mul(0x94d049bb133111eb);
            let z1: u64 = z1b ^ (z1b >> 31);
            let x2: u64 = x1.wrapping_add(0x9e3779b97f4a7c15);
            let z2a: u64 = (x2 ^ (x2 >> 30)).wrapping_mul(0xbf58476d1ce4e5b9);
            let z2b: u64 = (z2a ^ (z2a >> 27)).wrapping_mul(0x94d049bb133111eb);
            let z2: u64 = z2b ^ (z2b >> 31);
            Xoshiro128Plus {
                s0: (z1 & 0xFFFF_FFFF) as u32,
                s1: (z1 >> 32) as u32,
                s2: (z2 & 0xFFFF_FFFF) as u32,
                s3: (z2 >> 32) as u32,
            }
        } else {
            Xoshiro128Plus {
                s0: (d & 0xFFFF_FFFF) as u32,
                s1: (d >> 32) as u32,
                s2: 0,
                s3: 0,
            }
        }
    }

    /// Emits the next value and advances the state.
    pub fn next_u32(&mut self) -> (r: u32)
        ensures
            r == rng_output(*old(self)),
            *final(self) == rng_step(*old(self)),
    {
        let result = self.s0.wrapping_add(self.s3);
        let t = self.s1 << 9;
        self.s2 = self.s2 ^ self.s0;
        self.s3 = self.s3 ^ self.s1;
        self.s1 = self.s1 ^ self.s2;
        self.s0 = self.s0 ^ self.s3;
        self.s2 = self.s2 ^ t;
        self.s3 = (self.s3 << 11) | (self.s3 >> 21);
        result
    }
}

} // verus!
