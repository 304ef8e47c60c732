//! The arithmetic on bit patterns against that of the machine.

use approx::Format;

const SINGLES: [f32; 40] = [
    0.0,
    -0.0,
    1.0,
    -1.0,
    1.5,
    2.0,
    3.0,
    0.1,
    0.2,
    0.3,
    1.0000001,
    0.99999994,
    16777216.0,
    16777218.0,
    33554432.0,
    1e-45,
    -1e-45,
    3e-45,
    1e-40,
    1e-41,
    1.1754942e-38,
    1.17549435e-38,
    2.3509887e-38,
    f32::MIN_POSITIVE,
    f32::EPSILON,
    f32::MAX,
    -f32::MAX,
    1.7014118e38,
    3.4028233e38,
    1e38,
    1e20,
    1e-20,
    123456.79,
    -0.000123,
    8388608.0,
    8388609.0,
    0.5,
    f32::INFINITY,
    f32::NEG_INFINITY,
    f32::NAN,
];

const DOUBLES: [f64; 38] = [
    0.0,
    -0.0,
    1.0,
    -1.0,
    1.5,
    2.0,
    3.0,
    0.1,
    0.2,
    0.3,
    1.0000000000000002,
    0.9999999999999999,
    9007199254740992.0,
    9007199254740994.0,
    18014398509481984.0,
    5e-324,
    -5e-324,
    1.5e-323,
    1e-310,
    2.225073858507201e-308,
    2.2250738585072014e-308,
    4.450147717014403e-308,
    f64::MIN_POSITIVE,
    f64::EPSILON,
    f64::MAX,
    -f64::MAX,
    8.98846567431158e307,
    1e308,
    1e200,
    1e-200,
    1e160,
    1e-160,
    123456.789,
    -0.000123,
    0.5,
    f64::INFINITY,
    f64::NEG_INFINITY,
    f64::NAN,
];

struct Lcg(u64);

impl Lcg {
    fn next(&mut self) -> u64 {
        self.0 = self
            .0
            .wrapping_mul(6364136223846793005)
            .wrapping_add(1442695040888963407);
        let x = self.0;
        (x ^ (x >> 29)).rotate_left(17)
    }
}

fn same32(ours: u64, theirs: f32) -> bool {
    let ours = f32::from_bits(ours as u32);
    if theirs.is_nan() {
        ours.is_nan()
    } else {
        ours.to_bits() == theirs.to_bits()
    }
}

fn same64(ours: u64, theirs: f64) -> bool {
    let ours = f64::from_bits(ours);
    if theirs.is_nan() {
        ours.is_nan()
    } else {
        ours.to_bits() == theirs.to_bits()
    }
}

fn check32(a: f32, b: f32) {
    let fmt = Format::binary32();
    let (x, y) = (a.to_bits() as u64, b.to_bits() as u64);
    assert!(
        same32(fmt.abs_diff_bits(x, y), (a - b).abs()),
        "|{a:e} - {b:e}|"
    );
    assert!(same32(fmt.mul_bits(x, y), a * b), "{a:e} * {b:e}");
    assert_eq!(fmt.eq_bits(x, y), a == b, "{a:e} == {b:e}");
    assert_eq!(fmt.le_bits(x, y), a <= b, "{a:e} <= {b:e}");
    assert_eq!(fmt.gt_bits(x, y), a > b, "{a:e} > {b:e}");
}

fn check64(a: f64, b: f64) {
    let fmt = Format::binary64();
    let (x, y) = (a.to_bits(), b.to_bits());
    assert!(
        same64(fmt.abs_diff_bits(x, y), (a - b).abs()),
        "|{a:e} - {b:e}|"
    );
    assert!(same64(fmt.mul_bits(x, y), a * b), "{a:e} * {b:e}");
    assert_eq!(fmt.eq_bits(x, y), a == b, "{a:e} == {b:e}");
    assert_eq!(fmt.le_bits(x, y), a <= b, "{a:e} <= {b:e}");
    assert_eq!(fmt.gt_bits(x, y), a > b, "{a:e} > {b:e}");
}

#[test]
fn single_arithmetic_on_chosen_numbers() {
    for &a in SINGLES.iter() {
        for &b in SINGLES.iter() {
            check32(a, b);
        }
    }
}

#[test]
fn double_arithmetic_on_chosen_numbers() {
    for &a in DOUBLES.iter() {
        for &b in DOUBLES.iter() {
            check64(a, b);
        }
    }
}

#[test]
fn single_arithmetic_on_arbitrary_patterns() {
    let mut rng = Lcg(0x32);
    for _ in 0..200_000 {
        let a = f32::from_bits(rng.next() as u32);
        let b = f32::from_bits(rng.next() as u32);
        check32(a, b);
    }
}

#[test]
fn double_arithmetic_on_arbitrary_patterns() {
    let mut rng = Lcg(0x64);
    for _ in 0..200_000 {
        let a = f64::from_bits(rng.next());
        let b = f64::from_bits(rng.next());
        check64(a, b);
    }
}

#[test]
fn single_arithmetic_on_neighbours() {
    // Numbers a few steps and a few binades apart: the cases where rounding,
    // cancellation and ties decide.
    let mut rng = Lcg(0x3232);
    for _ in 0..200_000 {
        let base = rng.next() as u32 & 0x7fff_ffff;
        let step = (rng.next() % 64) as u32;
        let lift = ((rng.next() % 30) as u32) << 23;
        let flip = (rng.next() as u32) & 0x8000_0000;
        let a = f32::from_bits(base);
        let b = f32::from_bits((base.wrapping_add(step).wrapping_add(lift) & 0x7fff_ffff) ^ flip);
        check32(a, b);
        check32(b, a);
    }
}

#[test]
fn double_arithmetic_on_neighbours() {
    let mut rng = Lcg(0x6464);
    for _ in 0..200_000 {
        let base = rng.next() & 0x7fff_ffff_ffff_ffff;
        let step = rng.next() % 64;
        let lift = (rng.next() % 60) << 52;
        let flip = rng.next() & 0x8000_0000_0000_0000;
        let a = f64::from_bits(base);
        let b = f64::from_bits(
            (base.wrapping_add(step).wrapping_add(lift) & 0x7fff_ffff_ffff_ffff) ^ flip,
        );
        check64(a, b);
        check64(b, a);
    }
}

#[test]
fn single_products_in_the_subnormal_range() {
    let mut rng = Lcg(0x5b);
    for _ in 0..200_000 {
        // One factor small, one near one: products that land among the
        // subnormals and on the way up out of them.
        let small = f32::from_bits((rng.next() % 0x0400_0000) as u32);
        let near_one = f32::from_bits(0x3e00_0000 + (rng.next() % 0x0300_0000) as u32);
        check32(small, near_one);
        let tiny = f32::from_bits(0x1e00_0000 + (rng.next() % 0x0300_0000) as u32);
        let tiny2 = f32::from_bits(0x1e00_0000 + (rng.next() % 0x0300_0000) as u32);
        check32(tiny, tiny2);
    }
}

#[test]
fn double_products_in_the_subnormal_range() {
    let mut rng = Lcg(0x5c);
    for _ in 0..200_000 {
        let small = f64::from_bits(rng.next() % 0x0080_0000_0000_0000);
        let near_one = f64::from_bits(0x3fc0_0000_0000_0000 + rng.next() % 0x0060_0000_0000_0000);
        check64(small, near_one);
        let tiny = f64::from_bits(0x1fc0_0000_0000_0000 + rng.next() % 0x0060_0000_0000_0000);
        let tiny2 = f64::from_bits(0x1fc0_0000_0000_0000 + rng.next() % 0x0060_0000_0000_0000);
        check64(tiny, tiny2);
    }
}

#[test]
fn rounding_exact_values() {
    let single = Format::binary32();
    // Small whole numbers of units are subnormals, and exact.
    assert_eq!(single.round_to_bits(3, 0), 3);
    assert_eq!(single.round_to_bits(0, 17), 0);
    // 2^24 + 1 lies halfway between two numbers: the even one is taken.
    assert_eq!(f32::from_bits(single.round_to_bits((1 << 24) + 1, 149) as u32), 16777216.0);
    // 2^24 + 3 is halfway too, and the even neighbour is the one above.
    assert_eq!(f32::from_bits(single.round_to_bits((1 << 24) + 3, 149) as u32), 16777220.0);
    // Halves of a unit: a half goes to zero, three halves go to two.
    assert_eq!(single.round_to_bits(1, -1), 0);
    assert_eq!(single.round_to_bits(3, -1), 2);
    assert_eq!(single.round_to_bits(5, -2), 1);
    // One is 2^149 units.
    assert_eq!(single.round_to_bits(1, 149), 1.0f32.to_bits() as u64);
    // The largest finite number, and the first that is too large.
    assert_eq!(single.round_to_bits((1 << 24) - 1, 253 - 23 + 23), f32::MAX.to_bits() as u64);
    assert_eq!(single.round_to_bits(1, 277), f32::INFINITY.to_bits() as u64);
    assert_eq!(single.round_to_bits((1 << 25) - 1, 252), f32::INFINITY.to_bits() as u64);

    let double = Format::binary64();
    assert_eq!(double.round_to_bits(1, 1074), 1.0f64.to_bits());
    assert_eq!(double.round_to_bits(1, -1), 0);
    assert_eq!(double.round_to_bits(3, -1), 2);
    assert_eq!(double.round_to_bits((1 << 53) + 1, 1074), 9007199254740992.0f64.to_bits());
    assert_eq!(double.round_to_bits(1, 2098), f64::INFINITY.to_bits());
}

#[test]
fn parts_of_a_pattern() {
    let single = Format::binary32();
    assert_eq!(single.hidden_bit(), 1 << 23);
    assert_eq!(single.sign_bit(), 1 << 31);
    assert_eq!(single.infinity(), f32::INFINITY.to_bits() as u64);
    assert_eq!(single.unit_exponent(), 149);
    assert!(f32::from_bits(single.nan() as u32).is_nan());
    assert_eq!(single.clear_sign((-1.5f32).to_bits() as u64), 1.5f32.to_bits() as u64);
    assert!(single.is_negative((-0.0f32).to_bits() as u64));
    assert!(!single.is_negative(0));
    assert!(single.is_nan(f32::NAN.to_bits() as u64));
    assert!(!single.is_nan(f32::INFINITY.to_bits() as u64));
    assert!(single.is_infinite(f32::NEG_INFINITY.to_bits() as u64));
    assert!(!single.is_infinite(f32::MAX.to_bits() as u64));
    // 1.5 is the significand 3 * 2^22 on the scale of one.
    assert_eq!(single.decode(1.5f32.to_bits() as u64), (3 << 22, 126));
    assert_eq!(single.decode(5), (5, 0));
    assert_eq!(single.decode(f32::MIN_POSITIVE.to_bits() as u64), (1 << 23, 0));

    let double = Format::binary64();
    assert_eq!(double.hidden_bit(), 1 << 52);
    assert_eq!(double.sign_bit(), 1 << 63);
    assert_eq!(double.infinity(), f64::INFINITY.to_bits());
    assert_eq!(double.unit_exponent(), 1074);
    assert!(f64::from_bits(double.nan()).is_nan());
    assert_eq!(double.decode(1.5f64.to_bits()), (3 << 51, 1022));
}

#[test]
fn half_precision_by_hand() {
    // Five bits of exponent and ten of fraction: one is 0x3c00, the least
    // subnormal is 2^-24 and the largest finite number is 0x7bff.
    let half = Format {
        frac_bits: 10,
        exp_bits: 5,
    };
    assert_eq!(half.hidden_bit(), 0x0400);
    assert_eq!(half.sign_bit(), 0x8000);
    assert_eq!(half.infinity(), 0x7c00);
    assert_eq!(half.nan(), 0x7e00);
    assert_eq!(half.unit_exponent(), 24);

    assert_eq!(half.mul_bits(0x3c00, 0x3c00), 0x3c00);
    assert_eq!(half.mul_bits(0x4000, 0x4000), 0x4400);
    assert_eq!(half.mul_bits(0x4000, 0xc000), 0xc400);
    assert_eq!(half.mul_bits(0x7bff, 0x4000), 0x7c00);
    assert_eq!(half.mul_bits(0xfbff, 0x4000), 0xfc00);
    // Half a unit is a tie and goes to zero; one and a half go to two.
    assert_eq!(half.mul_bits(0x0001, 0x3800), 0x0000);
    assert_eq!(half.mul_bits(0x0003, 0x3800), 0x0002);
    assert_eq!(half.mul_bits(0x0001, 0x3a00), 0x0001);
    assert_eq!(half.mul_bits(0x8001, 0x3800), 0x8000);
    assert_eq!(half.mul_bits(0x7c00, 0x0000), half.nan());
    assert_eq!(half.mul_bits(0x7c00, 0xbc00), 0xfc00);

    assert_eq!(half.abs_diff_bits(0x4000, 0x3c00), 0x3c00);
    assert_eq!(half.abs_diff_bits(0x3c00, 0xbc00), 0x4000);
    assert_eq!(half.abs_diff_bits(0x0001, 0x8001), 0x0002);
    assert_eq!(half.abs_diff_bits(0x7bff, 0xfbff), 0x7c00);
    assert_eq!(half.abs_diff_bits(0x7bff, 0x0001), 0x7bff);
    // 1 - 2^-11 is a number of the format; 1 - 2^-12 is a tie, which goes to
    // the even neighbour, one; 1 - 2^-13 is nearest to one.
    assert_eq!(half.abs_diff_bits(0x3c00, 0x1000), 0x3bff);
    assert_eq!(half.abs_diff_bits(0x3c00, 0x0c00), 0x3c00);
    assert_eq!(half.abs_diff_bits(0x3c00, 0x0800), 0x3c00);
    assert_eq!(half.abs_diff_bits(0x7c00, 0x7c00), half.nan());
    assert_eq!(half.abs_diff_bits(0x7c00, 0xfc00), 0x7c00);

    // One and its neighbour are 2^-10 apart.
    assert!(half.abs_diff_eq_bits(0x3c00, 0x3c01, 0x1400));
    assert!(!half.abs_diff_eq_bits(0x3c00, 0x3c01, 0x13ff));
    assert!(half.relative_eq_bits(0x3c00, 0x3c01, 0x0000, 0x1400));
    assert!(!half.relative_eq_bits(0x3c00, 0x3c02, 0x0000, 0x1400));
    assert!(half.relative_eq_bits(0x0000, 0x8000, 0x0000, 0x0000));
    assert!(!half.relative_eq_bits(0x7e00, 0x7e00, 0x7c00, 0x7c00));
    assert!(half.relative_eq_bits(0xfc00, 0xfc00, 0x0000, 0x0000));
    assert!(!half.relative_eq_bits(0xfc00, 0x7c00, 0x7c00, 0x7c00));
}
