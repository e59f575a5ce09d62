use perlin_favicon::fixed::{div_nn, isqrt64, rem_nn};
use perlin_favicon::noise::{fade, grad, lerp, octave_noise, perlin_noise};
use perlin_favicon::perm::generate_perm_table;
use perlin_favicon::rng::{HalfSource, Lcg, UnitRandom};

struct ZeroSource {}

impl UnitRandom for ZeroSource {
    fn next_unit(&mut self) -> i64 {
        0
    }
}

#[test]
fn fixed_point_helpers() {
    assert_eq!(div_nn(7, 2), 3);
    assert_eq!(rem_nn(7, 2), 1);
    assert_eq!(isqrt64(0), 0);
    assert_eq!(isqrt64(15), 3);
    assert_eq!(isqrt64(16), 4);
    assert_eq!(isqrt64(u64::MAX), 4294967295);
}

#[test]
fn perm_table_is_permutation() {
    let mut rng = Lcg::new(12345);
    let t = generate_perm_table(&mut rng);
    assert_eq!(t.data.len(), 512);
    let mut counts = [0usize; 256];
    for i in 0..256 {
        counts[t.data[i] as usize] += 1;
    }
    for c in counts.iter() {
        assert_eq!(*c, 1);
    }
}

#[test]
fn perm_table_with_zero_draws_is_cyclic_shift() {
    let mut rng = ZeroSource {};
    let t = generate_perm_table(&mut rng);
    for i in 0..256usize {
        assert_eq!(t.data[i] as usize, (i + 1) % 256);
        assert_eq!(t.data[i + 256], t.data[i]);
    }
}

#[test]
fn perm_table_upper_half_duplicates_lower() {
    let mut rng = Lcg::new(987654321);
    let t = generate_perm_table(&mut rng);
    for i in 256..512 {
        assert_eq!(t.data[i], t.data[i - 256]);
    }
}

#[test]
fn fade_fixes_endpoints_and_midpoint() {
    assert_eq!(fade(0), 0);
    assert_eq!(fade(65536), 65536);
    assert_eq!(fade(32768), 32768);
    assert_eq!(fade(16384), 6784);
}

#[test]
fn fade_is_monotone_on_sample_grid() {
    let mut prev: i64 = fade(0);
    let mut t: i64 = 0;
    while t <= 65536 {
        let cur = fade(t);
        assert!(cur >= prev);
        assert!((0..=65536).contains(&cur));
        prev = cur;
        t += 256;
    }
}

#[test]
fn lerp_interpolates_between_endpoints() {
    assert_eq!(lerp(0, 65536, 32768), 32768);
    assert_eq!(lerp(65536, 0, 32768), 32768);
    assert_eq!(lerp(10, 20, 0), 10);
    assert_eq!(lerp(10, 20, 65536), 20);
    assert_eq!(lerp(20, 10, 65536), 10);
}

#[test]
fn grad_selects_diagonals() {
    assert_eq!(grad(0, 3, 4), 7);
    assert_eq!(grad(1, 3, 4), 1);
    assert_eq!(grad(2, 3, 4), -1);
    assert_eq!(grad(3, 3, 4), -7);
    assert_eq!(grad(7, 3, 4), -7);
}

#[test]
fn perlin_output_stays_in_range() {
    let mut rng = Lcg::new(42);
    let t = generate_perm_table(&mut rng);
    for i in -200..200i64 {
        let v = perlin_noise(i * 12345, i * 54321, &t);
        assert!((-65540..=65540).contains(&v));
    }
}

#[test]
fn perlin_accepts_negative_coordinates() {
    let mut rng = HalfSource {};
    let t = generate_perm_table(&mut rng);
    assert_eq!(perlin_noise(-32768, 98304, &t), 0);
    assert_eq!(perlin_noise(-98304, -32768, &t), -32768);
    assert_eq!(octave_noise(-500000, 700000, 3, 32768, &t), -4052);
}

#[test]
fn perlin_exact_sample_with_half_draw_table() {
    let mut rng = HalfSource {};
    let t = generate_perm_table(&mut rng);
    assert_eq!(perlin_noise(32768, 98304, &t), -16384);
}

#[test]
fn octave_noise_is_deterministic() {
    let mut rng = Lcg::new(7);
    let t = generate_perm_table(&mut rng);
    let a = octave_noise(1234567, 7654321, 3, 32768, &t);
    let b = octave_noise(1234567, 7654321, 3, 32768, &t);
    assert_eq!(a, b);
    assert!((-65540..=65540).contains(&a));
}

#[test]
fn octave_noise_zero_on_grid_points() {
    let mut rng = HalfSource {};
    let t = generate_perm_table(&mut rng);
    assert_eq!(octave_noise(32768000, 32768000, 3, 32768, &t), 0);
}
