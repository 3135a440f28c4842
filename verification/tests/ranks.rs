use zoxide::rank::Rank;

fn rank(value: f64) -> Rank {
    Rank::from_bits(value.to_bits())
}

fn value(rank: Rank) -> f64 {
    f64::from_bits(rank.to_bits())
}

/// Whether a result is the expected number, or neither is a number.
fn same(result: Rank, expected: f64) -> bool {
    if expected.is_nan() {
        value(result).is_nan()
    } else {
        result.to_bits() == expected.to_bits()
    }
}

struct Numbers {
    state: u64,
}

impl Numbers {
    fn next(&mut self) -> u64 {
        self.state ^= self.state << 13;
        self.state ^= self.state >> 7;
        self.state ^= self.state << 17;
        self.state
    }

    /// Numbers of all kinds: any pattern, nearby exponents, and small counts.
    fn number(&mut self) -> f64 {
        let bits = self.next();
        match self.next() % 4 {
            0 => f64::from_bits(bits),
            1 => f64::from_bits((bits & 0x800f_ffff_ffff_ffff) | ((1000 + bits % 60) << 52)),
            2 => (bits % 1000) as f64 / 8.0,
            _ => f64::from_bits(bits & 0x800f_ffff_ffff_ffff),
        }
    }
}

const SPECIAL: [f64; 14] = [
    0.0,
    -0.0,
    1.0,
    -1.0,
    f64::INFINITY,
    f64::NEG_INFINITY,
    f64::NAN,
    f64::MAX,
    f64::MIN,
    f64::MIN_POSITIVE,
    5e-324,
    -5e-324,
    2.2250738585072009e-308,
    0.9,
];

fn check(a: f64, b: f64) {
    assert!(same(rank(a).plus(rank(b)), a + b), "{a:e} + {b:e}");
    assert!(same(rank(a).times(rank(b)), a * b), "{a:e} * {b:e}");
    assert!(same(rank(a).over(rank(b)), a / b), "{a:e} / {b:e}");
    assert_eq!(rank(a).exceeds(rank(b)), a > b, "{a:e} > {b:e}");
    assert_eq!(rank(a).total_not_after(rank(b)), a.total_cmp(&b).is_le(), "{a:e} <= {b:e}");
}

#[test]
fn special_numbers_agree_with_the_hardware() {
    for a in SPECIAL {
        for b in SPECIAL {
            check(a, b);
        }
    }
}

#[test]
fn random_numbers_agree_with_the_hardware() {
    let mut numbers = Numbers { state: 0x9e37_79b9_7f4a_7c15 };
    for _ in 0..20000 {
        let a = numbers.number();
        let b = numbers.number();
        check(a, b);
    }
}

#[test]
fn ranks_are_clamped_at_zero() {
    assert_eq!(rank(-1.0).at_least_zero().to_bits(), 0);
    assert_eq!(rank(f64::NAN).at_least_zero().to_bits(), 0);
    assert_eq!(value(rank(2.5).at_least_zero()), 2.5);
    assert_eq!(value(rank(f64::INFINITY).at_least_zero()), f64::INFINITY);
}

#[test]
fn a_sum_that_is_not_a_number_is_canonical() {
    let sum = rank(f64::INFINITY).plus(rank(f64::NEG_INFINITY));
    assert_eq!(sum.to_bits(), 0x7ff8_0000_0000_0000);
    let sum = rank(f64::from_bits(0xfff0_0000_0000_0001)).plus(rank(1.0));
    assert_eq!(sum.to_bits(), 0x7ff8_0000_0000_0000);
}
