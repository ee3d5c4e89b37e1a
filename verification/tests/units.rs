//! Unit checks of the fixed-point building blocks.
use stringart::math::{isqrt_u128, iroot5_u128};
use stringart::transfer::{build_linear_table, linear_light_value};
use stringart::canvas::{blend, build_half_table, darken_by_thread};
use stringart::rng::Xoshiro128Plus;
use stringart::planner::tie_weight;
use stringart::raster::GrayRaster;
use stringart::atomicf32::AtomicF32;
use stringart::default_iter_limit;

use rand_xoshiro::rand_core::{RngCore, SeedableRng};

#[test]
fn isqrt_exact() {
    assert_eq!(isqrt_u128(0), 0);
    assert_eq!(isqrt_u128(1), 1);
    assert_eq!(isqrt_u128(3), 1);
    assert_eq!(isqrt_u128(4), 2);
    assert_eq!(isqrt_u128(999_999), 999);
    assert_eq!(isqrt_u128(1_000_000), 1000);
    assert_eq!(isqrt_u128((1u128 << 80) - 1), (1u64 << 40) - 1);
}

#[test]
fn iroot5_exact() {
    assert_eq!(iroot5_u128(0), 0);
    assert_eq!(iroot5_u128(1), 1);
    assert_eq!(iroot5_u128(31), 1);
    assert_eq!(iroot5_u128(32), 2);
    assert_eq!(iroot5_u128(1u128 << 80), 1 << 16);
    assert_eq!(iroot5_u128((1u128 << 80) - 1), (1 << 16) - 1);
}

#[test]
fn linear_light_endpoints_and_midpoints() {
    assert_eq!(linear_light_value(0), 0);
    assert_eq!(linear_light_value(1), 0);
    assert_eq!(linear_light_value(64), 2374);
    assert_eq!(linear_light_value(128), 12533);
    assert_eq!(linear_light_value(200), 36580);
    assert_eq!(linear_light_value(255), 65536);
}

#[test]
fn linear_table_matches_values() {
    let t = build_linear_table();
    assert_eq!(t.len(), 256);
    for v in 0..256usize {
        assert_eq!(t[v], linear_light_value(v as u8));
    }
    for v in 1..256usize {
        assert!(t[v] >= t[v - 1]);
    }
}

#[test]
fn half_table_values() {
    let t = build_half_table();
    assert_eq!(t.len(), 256);
    assert_eq!(t[0], 65536);
    assert_eq!(t[1], 65358);
    assert_eq!(t[8], 64121);
    assert_eq!(t[128], 46214);
    assert_eq!(t[255], 32664);
    for c in 1..256usize {
        assert!(t[c] <= t[c - 1]);
    }
}

#[test]
fn blend_values() {
    let t = build_half_table();
    assert_eq!(blend(255, 255, &t), 127);
    assert_eq!(blend(200, 255, &t), 99);
    assert_eq!(blend(10, 0, &t), 10);
    assert_eq!(blend(0, 255, &t), 0);
}

#[test]
fn darkening_is_bounded_and_monotone() {
    // Full-coverage passes darken strictly while brightness remains, and
    // never overshoot below full dark.
    let t = build_half_table();
    let mut x: u8 = 255;
    let expected = [127u8, 63, 31, 15, 7, 3, 1, 0, 0, 0];
    for e in expected {
        let next = blend(x, 255, &t);
        assert!(next <= x);
        if x > 1 {
            assert!(next < x);
            assert!(next > 0);
        }
        assert_eq!(next, e);
        x = next;
    }
}

#[test]
fn tie_weight_values() {
    // u = 1/2 favored: exponent 2, so (1/2)^2 = 1/4 of 2^32.
    assert_eq!(tie_weight(1 << 31, false), 1 << 30);
    // u = 1/2 discouraged: exponent 8, so (1/2)^8 = 2^24.
    assert_eq!(tie_weight(1 << 31, true), 1 << 24);
    assert_eq!(tie_weight(0, false), 0);
    assert_eq!(tie_weight(0, true), 0);
    assert_eq!(tie_weight(4_000_000_000, false), 4_000_000_000);
}

#[test]
fn tie_weight_discouraged_never_heavier() {
    let mut u: u32 = 12345;
    for _ in 0..200 {
        u = u.wrapping_mul(1664525).wrapping_add(1013904223);
        assert!(tie_weight(u, true) <= tie_weight(u, false));
    }
}

#[test]
fn rng_matches_reference_generator() {
    for d in [1u64, 5, 0xDEAD_BEEF, u64::MAX, 1 << 40] {
        let mut mine = Xoshiro128Plus::from_darkness(d);
        let mut seed = [0u8; 16];
        seed[..8].copy_from_slice(&d.to_le_bytes());
        let mut theirs = rand_xoshiro::Xoshiro128Plus::from_seed(seed);
        for _ in 0..50 {
            assert_eq!(mine.next_u32(), theirs.next_u32());
        }
    }
}

#[test]
fn rng_zero_seed_matches_reference_generator() {
    let mut mine = Xoshiro128Plus::from_darkness(0);
    let mut theirs = rand_xoshiro::Xoshiro128Plus::from_seed([0u8; 16]);
    for _ in 0..50 {
        assert_eq!(mine.next_u32(), theirs.next_u32());
    }
}

#[test]
fn raster_round_trip() {
    let data: Vec<u8> = (0..12u8).collect();
    let r = GrayRaster::from_data(4, 3, data.clone()).unwrap();
    assert_eq!(r.width(), 4);
    assert_eq!(r.height(), 3);
    assert_eq!(r.get_pixel(2, 1), 6);
    let mut c = r.duplicate();
    c.set_pixel(2, 1, 99);
    assert_eq!(c.get_pixel(2, 1), 99);
    assert_eq!(r.get_pixel(2, 1), 6);
    assert_eq!(c.len(), 12);
    assert_eq!(GrayRaster::from_data(4, 4, data).is_none(), true);
}

#[test]
fn atomic_accumulator_bits() {
    let a = AtomicF32::new();
    assert_eq!(a.load_bits(), 0);
    assert_eq!(f32::from_bits(a.load_bits()), 0.0);
    // The caller-side compare-and-swap retry loop that adds a float.
    let add = 1.5f32;
    loop {
        let bits = a.load_bits();
        let new = (f32::from_bits(bits) + add).to_bits();
        if a.compare_exchange_bits(bits, new).is_ok() {
            break;
        }
    }
    assert_eq!(f32::from_bits(a.load_bits()), 1.5);
    // A failed exchange reports the differing value it found; a successful
    // one reports exactly the expected value.
    let found = a.compare_exchange_bits(0, 42).unwrap_err();
    assert_eq!(found, 1.5f32.to_bits());
    assert_ne!(found, 0);
    let prev = a.compare_exchange_bits(1.5f32.to_bits(), 42).unwrap();
    assert_eq!(prev, 1.5f32.to_bits());
    assert_eq!(a.load_bits(), 42);
}

#[test]
fn darken_by_thread_touches_only_the_line() {
    let t = build_half_table();
    let mut canvas = GrayRaster::from_data(8, 8, vec![200u8; 64]).unwrap();
    darken_by_thread(&mut canvas, 0, 0, 7, 7, &t);
    assert_eq!(canvas.width(), 8);
    assert_eq!(canvas.height(), 8);
    // Pixels on the segment darken; pixels far from it stay as they were.
    assert!(canvas.get_pixel(0, 0) < 200);
    assert!(canvas.get_pixel(7, 7) < 200);
    assert_eq!(canvas.get_pixel(7, 0), 200);
    assert_eq!(canvas.get_pixel(0, 7), 200);
    // Darkening the same segment again darkens further, never brightens.
    let mid_before = canvas.get_pixel(3, 3);
    darken_by_thread(&mut canvas, 0, 0, 7, 7, &t);
    assert!(canvas.get_pixel(3, 3) <= mid_before);
    assert!(canvas.get_pixel(3, 3) < 200);
}

#[test]
fn default_iteration_cap() {
    assert_eq!(default_iter_limit(), 512);
}
