use ascii_world::float::{Double, Single};

/// Encodings with every exponent, the borders between them, and odd mantissas.
fn singles() -> Vec<u32> {
    let mut out = vec![0, 1, 2, 0x007f_ffff, 0x0080_0000, 0x0080_0001, 0x7f7f_ffff, 0x7f80_0000];
    out.push(0x7fc0_0000);
    let mut seed = 12345u32;
    for e in (0..255u32).step_by(6) {
        seed = seed.wrapping_mul(1664525).wrapping_add(1013904223);
        out.push((e << 23) | (seed >> 9));
        out.push((e << 23) | 0x7f_ffff);
    }
    for v in [0.5f32, 1.0, 1.5, 2.5, 127.5, 128.0, 254.5, 255.0, 255.5, 4294967296.0] {
        out.push(v.to_bits());
        out.push((v + v * f32::EPSILON).to_bits());
    }
    let all: Vec<u32> = out.iter().map(|b| b | 0x8000_0000).collect();
    out.extend(all);
    out
}

fn doubles() -> Vec<u64> {
    let mut out = vec![
        0,
        1,
        0x000f_ffff_ffff_ffff,
        0x0010_0000_0000_0000,
        0x7fef_ffff_ffff_ffff,
        0x7ff0_0000_0000_0000,
        0x7ff8_0000_0000_0000,
    ];
    let mut seed = 99u64;
    for e in (0..2047u64).step_by(60) {
        seed = seed.wrapping_mul(6364136223846793005).wrapping_add(1442695040888963407);
        out.push((e << 52) | (seed >> 12));
    }
    for v in [0.299f64, 0.587, 0.114, 1.0, 2.0, 255.0, 1e-9, 1e9, 3.5, 0.1] {
        out.push(v.to_bits());
    }
    let all: Vec<u64> = out.iter().map(|b| b | (1 << 63)).collect();
    out.extend(all);
    out
}

fn same_single(ours: Single, theirs: f32, what: &str, a: u32, b: u32) {
    let v = f32::from_bits(ours.bits);
    assert!(
        v.to_bits() == theirs.to_bits() || (v.is_nan() && theirs.is_nan()),
        "{what} of {a:#x} and {b:#x}: {v} for {theirs}"
    );
}

fn same_double(ours: Double, theirs: f64, what: &str, a: u64, b: u64) {
    let v = f64::from_bits(ours.bits);
    assert!(
        v.to_bits() == theirs.to_bits() || (v.is_nan() && theirs.is_nan()),
        "{what} of {a:#x} and {b:#x}: {v} for {theirs}"
    );
}

#[test]
fn single_arithmetic_is_that_of_the_machine() {
    for a in singles() {
        for b in singles() {
            let (x, y) = (Single { bits: a }, Single { bits: b });
            let (p, q) = (f32::from_bits(a), f32::from_bits(b));
            same_single(x.plus(y), p + q, "sum", a, b);
            same_single(x.minus(y), p - q, "difference", a, b);
            same_single(x.times(y), p * q, "product", a, b);
            same_single(x.over(y), p / q, "quotient", a, b);
            assert_eq!(x.less(y), p < q);
            assert_eq!(x.at_most(y), p <= q);
        }
    }
}

#[test]
fn single_functions_are_those_of_the_machine() {
    for a in singles() {
        let (x, p) = (Single { bits: a }, f32::from_bits(a));
        same_single(x.root(), p.sqrt(), "root", a, a);
        same_single(x.floor(), p.floor(), "floor", a, a);
        same_single(x.ceil(), p.ceil(), "ceiling", a, a);
        same_double(x.to_double(), p as f64, "widening", a as u64, 0);
        assert_eq!(x.to_u8(), p as u8);
        assert_eq!(x.to_u32(), p as u32);
        assert_eq!(x.to_u64(), p as u64);
        assert_eq!(x.to_i64(), p as i64);
        assert_eq!(x.nearest_u64(), p.round() as u64, "rounding {p}");
        assert_eq!(x.is_finite(), p.is_finite());
        assert_eq!(x.is_nan(), p.is_nan());
    }
}

#[test]
fn singles_rank_in_their_total_order() {
    let mut all = singles();
    all.sort_by(|a, b| f32::from_bits(*a).total_cmp(&f32::from_bits(*b)));
    all.dedup();
    for pair in all.windows(2) {
        let (a, b) = (Single { bits: pair[0] }, Single { bits: pair[1] });
        assert!(a.total_rank() < b.total_rank());
    }
}

#[test]
fn smaller_and_larger_ignore_what_is_no_number() {
    let nan = Single { bits: 0x7fc0_0000 };
    let two = Single { bits: 2.0f32.to_bits() };
    let one = Single { bits: 1.0f32.to_bits() };
    assert_eq!(nan.max(two), two);
    assert_eq!(two.max(nan), two);
    assert_eq!(nan.min(two), two);
    assert_eq!(one.max(two), two);
    assert_eq!(one.min(two), one);
}

#[test]
fn double_arithmetic_is_that_of_the_machine() {
    for a in doubles() {
        for b in doubles() {
            let (x, y) = (Double { bits: a }, Double { bits: b });
            let (p, q) = (f64::from_bits(a), f64::from_bits(b));
            same_double(x.plus(y), p + q, "sum", a, b);
            same_double(x.minus(y), p - q, "difference", a, b);
            same_double(x.times(y), p * q, "product", a, b);
            same_double(x.over(y), p / q, "quotient", a, b);
            assert_eq!(x.less(y), p < q);
            assert_eq!(x.at_most(y), p <= q);
        }
    }
}

#[test]
fn double_conversions_are_those_of_the_machine() {
    for a in doubles() {
        let (x, p) = (Double { bits: a }, f64::from_bits(a));
        same_single(x.to_single(), p as f32, "narrowing", a as u32, 0);
        assert_eq!(x.to_u32(), p as u32);
        assert_eq!(x.to_u64(), p as u64);
        assert_eq!(x.is_finite(), p.is_finite());
    }
}

#[test]
fn whole_numbers_become_the_nearest_floats() {
    let mut all = vec![0u64, 1, 2, 3, 255, u32::MAX as u64, u64::MAX, u64::MAX - 1, 1 << 63];
    for shift in 20..64 {
        all.push(1 << shift);
        all.push((1 << shift) + 1);
        all.push((1 << shift) - 1);
        all.push((1 << shift) + (1 << (shift - 20)) + 1);
    }
    for n in all {
        assert_eq!(Single::from_u64(n).bits, (n as f32).to_bits(), "{n}");
        assert_eq!(Double::from_u64(n).bits, (n as f64).to_bits(), "{n}");
    }
}
