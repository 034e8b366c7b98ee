//! The arithmetic of the library against that of the processor.
use truce_sample_loader::{Double, Single};

/// A small deterministic source of bit patterns.
struct Patterns(u64);

impl Patterns {
    fn next(&mut self) -> u64 {
        self.0 = self.0.wrapping_mul(6364136223846793005).wrapping_add(1442695040888963407);
        let x = self.0 ^ (self.0 >> 29);
        x.wrapping_mul(0xbf58476d1ce4e5b9) ^ (x >> 32)
    }
}

fn singles() -> Vec<f32> {
    let mut v = vec![
        0.0, -0.0, 1.0, -1.0, 0.5, 1.5, 3.0, 1e-45, -1e-45, 1.1754944e-38, 1.1754942e-38,
        f32::MAX, f32::MIN, f32::INFINITY, f32::NEG_INFINITY, f32::NAN, 16777216.0, 16777215.0,
        0.1, 0.2, 0.3, 3.4e38, 1e-20, 1e20,
    ];
    let mut p = Patterns(1);
    for _ in 0..220 {
        v.push(f32::from_bits(p.next() as u32));
    }
    // Numbers close in size, where additions cancel.
    for _ in 0..220 {
        let bits = (p.next() as u32 & 0x807f_ffff) | ((120 + (p.next() % 16) as u32) << 23);
        v.push(f32::from_bits(bits));
    }
    v
}

fn doubles() -> Vec<f64> {
    let mut v = vec![
        0.0, -0.0, 1.0, -1.0, 0.5, 1.5, 2.5, 0.49999999999999994, 5e-324, -5e-324,
        2.2250738585072014e-308, 2.225073858507201e-308, f64::MAX, f64::MIN, f64::INFINITY,
        f64::NEG_INFINITY, f64::NAN, 9007199254740992.0, 9007199254740991.0, 44100.0, 48000.0,
        96000.0, 1e300, 1e-300, 1.8446744073709552e19, 1.844674407370955e19, 9.223372036854776e18,
        3.4028235677973366e38, 3.4028235677973362e38, 7.006492321624085e-46, 7.0064923216240854e-46,
    ];
    let mut p = Patterns(2);
    for _ in 0..220 {
        v.push(f64::from_bits(p.next()));
    }
    for _ in 0..220 {
        let bits = (p.next() & 0x800f_ffff_ffff_ffff) | ((1000 + p.next() % 80) << 52);
        v.push(f64::from_bits(bits));
    }
    v
}

fn same_single(got: Single, want: f32) -> bool {
    let g = f32::from_bits(got.to_bits());
    (g.is_nan() && want.is_nan()) || got.to_bits() == want.to_bits()
}

fn same_double(got: Double, want: f64) -> bool {
    let g = f64::from_bits(got.to_bits());
    (g.is_nan() && want.is_nan()) || got.to_bits() == want.to_bits()
}

#[test]
fn single_arithmetic_matches_the_processor() {
    let values = singles();
    for &a in &values {
        for &b in &values {
            let x = Single::from_bits(a.to_bits());
            let y = Single::from_bits(b.to_bits());
            assert!(same_single(x.plus(y), a + b), "{a:e} + {b:e}");
            assert!(same_single(x.minus(y), a - b), "{a:e} - {b:e}");
            assert!(same_single(x.times(y), a * b), "{a:e} * {b:e}");
        }
    }
}

#[test]
fn double_arithmetic_matches_the_processor() {
    let values = doubles();
    for &a in &values {
        for &b in &values {
            let x = Double::from_bits(a.to_bits());
            let y = Double::from_bits(b.to_bits());
            assert!(same_double(x.minus(y), a - b), "{a:e} - {b:e}");
            assert!(same_double(x.times(y), a * b), "{a:e} * {b:e}");
            assert!(same_double(x.over(y), a / b), "{a:e} / {b:e}");
            assert_eq!(x.equals(y), a == b, "{a:e} == {b:e}");
        }
    }
}

#[test]
fn conversions_match_the_processor() {
    for a in doubles() {
        let x = Double::from_bits(a.to_bits());
        assert!(same_single(x.to_single(), a as f32), "{a:e} as single");
        assert_eq!(x.floor_index(), a.floor() as usize, "floor of {a:e}");
        assert_eq!(x.rounded_length(), a.round().max(1.0) as usize, "length of {a:e}");
    }
    for n in [0u64, 1, 2, 480, 48_000, u32::MAX as u64, (1 << 53) - 1, 1 << 53, (1 << 53) + 1,
        (1 << 53) + 3, u64::MAX, u64::MAX - 1024]
    {
        assert!(same_double(Double::from_whole(n), n as f64), "{n}");
    }
}

#[test]
fn whole_numbers_are_exact() {
    for n in [0u64, 1, 3, 44_100, 48_000, u64::from(u32::MAX), (1 << 53) - 1] {
        assert_eq!(Double::from_whole(n).to_bits(), (n as f64).to_bits());
        assert_eq!(f64::from_bits(Double::from_whole(n).to_bits()) as u64, n);
    }
    assert_eq!(Double::from_whole(48_000).to_bits(), 0x40e7_7000_0000_0000);
    // Two to the 53 plus one is rounded to even.
    assert_eq!(Double::from_whole((1 << 53) + 1).to_bits(), 9_007_199_254_740_992f64.to_bits());
}

#[test]
fn results_are_rounded_to_nearest() {
    let third = Double::from_whole(1).over(Double::from_whole(3));
    assert_eq!(third.to_bits(), 0x3fd5_5555_5555_5555);
    assert_eq!(third.to_single().to_bits(), 0x3eaa_aaab);
    let sum = Single::from_bits(0.1f32.to_bits()).plus(Single::from_bits(0.2f32.to_bits()));
    assert_eq!(sum.to_bits(), 0x3e99_999a);
    assert_eq!(Single::scaled(true, 3, 0, 1).to_bits(), (-1.5f32).to_bits());
    assert_eq!(Single::scaled(false, u32::MAX, 0, 32).to_bits(), 1f32.to_bits());
}

#[test]
fn numbers_of_the_format_are_kept() {
    let (zero, one) = (Single::from_bits(0), Single::from_bits(1f32.to_bits()));
    for x in singles() {
        if !x.is_nan() {
            let y = Single::from_bits(x.to_bits());
            assert_eq!(y.times(one).to_bits(), x.to_bits());
            assert_eq!(y.minus(zero).to_bits(), x.to_bits());
        }
    }
}
