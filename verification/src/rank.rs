//! Ranks: IEEE 754 binary64 numbers, held as their bit patterns, with
//! correctly rounded arithmetic.
//!
//! The value of a finite number is a whole multiple of the smallest positive
//! number, 2^-1074. All values below are counted in that unit, so that every
//! statement about them is one about integers.

use vstd::arithmetic::power2::{
    lemma_pow2_adds, lemma_pow2_pos, lemma_pow2_strictly_increases, lemma_pow2_unfold, pow2,
};
use vstd::prelude::*;

verus! {

/// The bit of the sign.
pub const SIGN: u64 = 0x8000_0000_0000_0000;

/// The magnitude of infinity. Smaller magnitudes are finite, larger ones are
/// not numbers.
pub const INFINITY: u64 = 0x7ff0_0000_0000_0000;

/// The distance of the magnitudes of a number and of its double.
pub const BINADE: u64 = 0x0010_0000_0000_0000;

/// The magnitude of the canonical pattern that is not a number.
pub const NOT_A_NUMBER: u64 = 0x7ff8_0000_0000_0000;

/// The value of a magnitude. Infinity counts as the number that would follow
/// the largest finite one.
pub open spec fn units(magnitude: int) -> int {
    if magnitude < BINADE {
        magnitude
    } else {
        (BINADE + magnitude % (BINADE as int)) * pow2((magnitude / (BINADE as int) - 1) as nat)
    }
}

/// Whether `magnitude` is the one nearest to the quotient `num / den`, of two
/// equally near ones the even one.
pub open spec fn is_nearest(magnitude: int, num: int, den: int) -> bool {
    &&& 0 <= magnitude <= INFINITY
    &&& magnitude > 0 ==> {
        let middle = (units(magnitude - 1) + units(magnitude)) * den;
        2 * num > middle || 2 * num == middle && magnitude % 2 == 0
    }
    &&& magnitude < INFINITY ==> {
        let middle = (units(magnitude) + units(magnitude + 1)) * den;
        2 * num < middle || 2 * num == middle && magnitude % 2 == 0
    }
}

/// The quotient `num / den`, rounded to the nearest magnitude.
pub open spec fn rounded(num: int, den: int) -> u64 {
    choose|magnitude: u64| is_nearest(magnitude as int, num, den)
}

/// `count * BINADE + mantissa` is the magnitude of `mantissa * 2^count`.
pub proof fn lemma_units_of_parts(count: nat, mantissa: int)
    requires
        0 <= mantissa <= 2 * BINADE,
        count == 0 || BINADE <= mantissa,
    ensures
        units(count * BINADE + mantissa) == mantissa * pow2(count),
{
    let h = BINADE as int;
    let magnitude = count * h + mantissa;
    vstd::arithmetic::power2::lemma2_to64();
    if mantissa < h {
        assert(mantissa * 1 == mantissa);
    } else if mantissa < 2 * h {
        assert(magnitude == (count + 1) * h + (mantissa - h)) by (nonlinear_arith)
            requires
                magnitude == count * h + mantissa,
        ;
        vstd::arithmetic::div_mod::lemma_fundamental_div_mod_converse(
            magnitude,
            h,
            count as int + 1,
            mantissa - h,
        );
    } else {
        assert(magnitude == (count + 2) * h + 0) by (nonlinear_arith)
            requires
                magnitude == count * h + mantissa,
                mantissa == 2 * h,
        ;
        vstd::arithmetic::div_mod::lemma_fundamental_div_mod_converse(magnitude, h, count as int + 2, 0);
        lemma_pow2_unfold(count + 1);
        assert(h * pow2(count + 1) == mantissa * pow2(count)) by (nonlinear_arith)
            requires
                pow2(count + 1) == 2 * pow2(count),
                mantissa == 2 * h,
        ;
    }
}

/// The parts of a magnitude, and the value of the next one.
pub proof fn lemma_units_step(magnitude: int)
    requires
        0 <= magnitude,
    ensures
        0 <= units(magnitude) < units(magnitude + 1),
{
    let h = BINADE as int;
    let (count, mantissa) = if magnitude < h {
        (0nat, magnitude)
    } else {
        ((magnitude / h - 1) as nat, h + magnitude % h)
    };
    assert(magnitude == count * h + mantissa) by {
        if magnitude >= h {
            vstd::arithmetic::div_mod::lemma_fundamental_div_mod(magnitude, h);
            assert(magnitude == (magnitude / h - 1) * h + (h + magnitude % h)) by (nonlinear_arith)
                requires
                    magnitude == h * (magnitude / h) + magnitude % h,
            ;
            assert(magnitude / h >= 1);
        }
    }
    lemma_units_of_parts(count, mantissa);
    lemma_units_of_parts(count, mantissa + 1);
    lemma_pow2_pos(count);
    assert(0 <= mantissa * pow2(count) < (mantissa + 1) * pow2(count)) by (nonlinear_arith)
        requires
            pow2(count) > 0,
            mantissa >= 0,
    ;
}

pub proof fn lemma_units_increase(a: int, b: int)
    requires
        0 <= a < b,
    ensures
        0 <= units(a) < units(b),
    decreases b - a,
{
    lemma_units_step(b - 1);
    if a < b - 1 {
        lemma_units_increase(a, b - 1);
    }
}

/// Rounding is a function: no two magnitudes are both nearest.
pub proof fn lemma_nearest_unique(a: int, b: int, num: int, den: int)
    requires
        den > 0,
        is_nearest(a, num, den),
        is_nearest(b, num, den),
    ensures
        a == b,
{
    if a < b {
        lemma_nearest_ordered(a, b, num, den);
    } else if b < a {
        lemma_nearest_ordered(b, a, num, den);
    }
}

proof fn lemma_nearest_ordered(a: int, b: int, num: int, den: int)
    requires
        den > 0,
        a < b,
        is_nearest(a, num, den),
    ensures
        !is_nearest(b, num, den),
{
    lemma_units_step(a);
    lemma_units_step(b - 1);
    let low = units(a) + units(a + 1);
    let high = units(b - 1) + units(b);
    if a + 1 < b {
        lemma_units_increase(a, b - 1);
        lemma_units_increase(a + 1, b);
        assert(low * den < high * den) by (nonlinear_arith)
            requires
                low < high,
                den > 0,
        ;
    }
}

/// A quotient between two neighbours is rounded to the nearer one.
proof fn lemma_between_neighbours(below: int, num: int, den: int, up: bool)
    requires
        den > 0,
        0 <= below < INFINITY,
        units(below) * den <= num <= units(below + 1) * den,
        up ==> {
            let middle = (units(below) + units(below + 1)) * den;
            2 * num > middle || 2 * num == middle && below % 2 == 1
        },
        !up ==> {
            let middle = (units(below) + units(below + 1)) * den;
            2 * num < middle || 2 * num == middle && below % 2 == 0
        },
    ensures
        is_nearest(
            if up {
                below + 1
            } else {
                below
            },
            num,
            den,
        ),
{
    lemma_units_step(below);
    lemma_units_step(below + 1);
    if up {
        let high = units(below + 1) + units(below + 2);
        assert(2 * num < high * den) by (nonlinear_arith)
            requires
                num <= units(below + 1) * den,
                high > 2 * units(below + 1),
                den > 0,
        ;
    } else if below > 0 {
        lemma_units_step(below - 1);
        let low = units(below - 1) + units(below);
        assert(2 * num > low * den) by (nonlinear_arith)
            requires
                num >= units(below) * den,
                low < 2 * units(below),
                den > 0,
        ;
    }
}

/// 2 to the power `n`.
fn power_of_two(n: u32) -> (p: u128)
    requires
        n < 128,
    ensures
        p == pow2(n as nat),
{
    let mut p: u128 = 1;
    let mut i: u32 = 0;
    proof {
        vstd::arithmetic::power2::lemma2_to64();
    }
    while i < n
        invariant
            i <= n < 128,
            p == pow2(i as nat),
        decreases n - i,
    {
        proof {
            lemma_pow2_unfold((i + 1) as nat);
            lemma_pow2_below(i as nat + 1, 127);
            lemma_pow2_127();
        }
        p = p * 2;
        i += 1;
    }
    p
}

proof fn lemma_pow2_below(a: nat, b: nat)
    requires
        a <= b,
    ensures
        0 < pow2(a) <= pow2(b),
{
    lemma_pow2_pos(a);
    if a < b {
        lemma_pow2_strictly_increases(a, b);
    }
}

proof fn lemma_pow2_127()
    ensures
        pow2(127) == 0x8000_0000_0000_0000_0000_0000_0000_0000int,
        pow2(128) == 0x1_0000_0000_0000_0000_0000_0000_0000_0000int,
        pow2(52) == BINADE,
        pow2(53) == 2 * BINADE,
        pow2(54) == 4 * BINADE,
{
    vstd::arithmetic::power2::lemma2_to64();
    vstd::arithmetic::power2::lemma2_to64_rest();
    lemma_pow2_adds(63, 64);
    lemma_pow2_unfold(128);
    assert(pow2(127) == 0x8000_0000_0000_0000int * 0x1_0000_0000_0000_0000int);
}

/// The number of binary digits of `x`.
fn bit_length(x: u128) -> (length: u32)
    requires
        x > 0,
    ensures
        1 <= length <= 128,
        pow2((length - 1) as nat) <= x < pow2(length as nat),
{
    let mut length: u32 = 1;
    let mut rest: u128 = x;
    proof {
        vstd::arithmetic::power2::lemma2_to64();
        lemma_pow2_127();
        assert(x == x * pow2(0));
        assert(x < (x + 1) * pow2(0));
    }
    while rest > 1
        invariant
            rest >= 1,
            1 <= length,
            rest * pow2((length - 1) as nat) <= x < (rest + 1) * pow2((length - 1) as nat),
            pow2(127) == 0x8000_0000_0000_0000_0000_0000_0000_0000int,
            length <= 128,
        decreases rest,
    {
        proof {
            let p = pow2((length - 1) as nat);
            let half = rest as int / 2;
            lemma_pow2_unfold(length as nat);
            lemma_pow2_pos((length - 1) as nat);
            if length == 128 {
                assert(rest * p >= 2 * p) by (nonlinear_arith)
                    requires
                        rest >= 2,
                        p > 0,
                ;
            }
            assert(half * (2 * p) <= rest * p) by (nonlinear_arith)
                requires
                    2 * half <= rest,
                    p > 0,
            ;
            assert((rest + 1) * p <= (half + 1) * (2 * p)) by (nonlinear_arith)
                requires
                    rest + 1 <= 2 * half + 2,
                    p > 0,
            ;
        }
        rest = rest / 2;
        length += 1;
    }
    proof {
        let p = pow2((length - 1) as nat);
        lemma_pow2_unfold(length as nat);
        assert(rest * p == p) by (nonlinear_arith)
            requires
                rest == 1,
        ;
        assert((rest + 1) * p == 2 * p) by (nonlinear_arith)
            requires
                rest == 1,
        ;
    }
    length
}

/// The size of 2^e above and below one.
spec fn above(e: int) -> int {
    if e >= 0 {
        pow2(e as nat) as int
    } else {
        1
    }
}

spec fn below(e: int) -> int {
    if e < 0 {
        pow2((-e) as nat) as int
    } else {
        1
    }
}

/// `num / den` lies in `[digits * 2^e, (digits + 1) * 2^e)`, and `inexact`
/// tells whether it differs from the lower end.
spec fn brackets(digits: int, e: int, inexact: bool, num: int, den: int) -> bool {
    let p = above(e) * den;
    let n = num * below(e);
    &&& digits * p <= n < (digits + 1) * p
    &&& inexact == (digits * p < n)
}

/// `2^count` as a multiple of `2^e`, with both sides of one cleared of
/// fractions.
proof fn lemma_scale(count: nat, shift: nat, e: int, den: int)
    requires
        count == shift + e,
    ensures
        pow2(count) * den * below(e) == pow2(shift) * (above(e) * den),
        below(e) > 0,
        above(e) > 0,
{
    let s = pow2(shift) as int;
    let t = pow2(count) as int;
    if e >= 0 {
        lemma_pow2_adds(shift, e as nat);
        lemma_pow2_pos(e as nat);
        let a = above(e);
        assert(t * den * 1 == s * (a * den)) by (nonlinear_arith)
            requires
                t == s * a,
        ;
    } else {
        lemma_pow2_adds(count, (-e) as nat);
        lemma_pow2_pos((-e) as nat);
        let b = below(e);
        assert(t * den * b == s * (1 * den)) by (nonlinear_arith)
            requires
                s == t * b,
        ;
    }
}

/// Cutting `shift` binary digits off, and which way the rest rounds.
proof fn lemma_cut(
    digits: int,
    e: int,
    inexact: bool,
    num: int,
    den: int,
    count: nat,
    shift: nat,
    kept: int,
    bit: int,
    low: int,
)
    requires
        den > 0,
        shift > 0,
        count == shift + e,
        brackets(digits, e, inexact, num, den),
        digits == (2 * kept + bit) * pow2((shift - 1) as nat) + low,
        0 <= low < pow2((shift - 1) as nat),
        bit == 0 || bit == 1,
        0 <= kept < 2 * BINADE,
        count == 0 || BINADE <= kept,
        count * BINADE + kept < INFINITY,
    ensures
        is_nearest(
            count * BINADE + kept + (if bit == 1 && (low != 0 || inexact || kept % 2 == 1) {
                1int
            } else {
                0
            }),
            num,
            den,
        ),
{
    let up = bit == 1 && (low != 0 || inexact || kept % 2 == 1);
    let half = pow2((shift - 1) as nat) as int;
    let s = pow2(shift) as int;
    let t = pow2(count) as int;
    let p = above(e) * den;
    let b = below(e);
    let n = num * b;
    lemma_pow2_unfold(shift);
    lemma_scale(count, shift, e, den);
    lemma_units_of_parts(count, kept);
    lemma_units_of_parts(count, kept + 1);
    let magnitude = count * BINADE + kept;
    assert(units(magnitude) == kept * t);
    assert(units(magnitude + 1) == (kept + 1) * t);
    assert(p > 0) by (nonlinear_arith)
        requires
            p == above(e) * den,
            above(e) > 0,
            den > 0,
    ;
    let tail = bit * half + low;
    assert(digits == kept * s + tail) by (nonlinear_arith)
        requires
            digits == (2 * kept + bit) * half + low,
            tail == bit * half + low,
            s == 2 * half,
    ;
    assert(0 <= tail < s) by (nonlinear_arith)
        requires
            tail == bit * half + low,
            bit == 0 || bit == 1,
            0 <= low < half,
            s == 2 * half,
    ;
    // Both neighbours and their middle, multiplied by `b`.
    assert(kept * t * den * b == kept * s * p) by (nonlinear_arith)
        requires
            t * den * b == s * p,
    ;
    assert((kept + 1) * t * den * b == (kept + 1) * s * p) by (nonlinear_arith)
        requires
            t * den * b == s * p,
    ;
    assert((kept * t + (kept + 1) * t) * den * b == (2 * kept + 1) * s * p) by (nonlinear_arith)
        requires
            t * den * b == s * p,
    ;
    assert(kept * s * p <= digits * p) by (nonlinear_arith)
        requires
            digits == kept * s + tail,
            tail >= 0,
            p > 0,
    ;
    assert((digits + 1) * p <= (kept + 1) * s * p) by (nonlinear_arith)
        requires
            digits == kept * s + tail,
            tail + 1 <= s,
            p > 0,
    ;
    lemma_drop_factor(kept * t * den, num, b);
    lemma_drop_factor(num, (kept + 1) * t * den, b);
    let middle = (kept * t + (kept + 1) * t) * den;
    assert((2 * num) * b == 2 * n) by (nonlinear_arith)
        requires
            n == num * b,
    ;
    if bit == 0 {
        assert(2 * ((digits + 1) * p) <= (2 * kept + 1) * s * p) by (nonlinear_arith)
            requires
                digits == kept * s + tail,
                2 * (tail + 1) <= s,
                p > 0,
        ;
        lemma_drop_factor_strict(2 * num, middle, b);
    } else if low != 0 {
        assert(2 * (digits * p) > (2 * kept + 1) * s * p) by (nonlinear_arith)
            requires
                digits == kept * s + tail,
                2 * tail > s,
                p > 0,
        ;
        lemma_drop_factor_strict(middle, 2 * num, b);
    } else {
        assert(2 * (digits * p) == (2 * kept + 1) * s * p) by (nonlinear_arith)
            requires
                digits == kept * s + tail,
                2 * tail == s,
        ;
        if inexact {
            lemma_drop_factor_strict(middle, 2 * num, b);
        } else {
            lemma_drop_factor(middle, 2 * num, b);
            lemma_drop_factor(2 * num, middle, b);
        }
    }
    assert(magnitude % 2 == kept % 2) by {
        assert(magnitude == 2 * (count * (BINADE / 2)) + kept) by (nonlinear_arith)
            requires
                magnitude == count * BINADE + kept,
                BINADE == 0x0010_0000_0000_0000,
        ;
    }
    lemma_between_neighbours(magnitude, num, den, up);
}

proof fn lemma_drop_factor(x: int, y: int, b: int)
    requires
        b > 0,
        x * b <= y * b,
    ensures
        x <= y,
{
    assert(x <= y) by (nonlinear_arith)
        requires
            b > 0,
            x * b <= y * b,
    ;
}

proof fn lemma_drop_factor_strict(x: int, y: int, b: int)
    requires
        b > 0,
        x * b < y * b,
    ensures
        x < y,
{
    assert(x < y) by (nonlinear_arith)
        requires
            b > 0,
            x * b < y * b,
    ;
}

/// The magnitude nearest to `num / den`, given its leading binary digits.
fn nearest(
    digits: u128,
    e: i32,
    inexact: bool,
    Ghost(num): Ghost<int>,
    Ghost(den): Ghost<int>,
) -> (magnitude: u64)
    requires
        den > 0,
        digits > 0,
        -4000 < e < 4000,
        brackets(digits as int, e as int, inexact, num, den),
        inexact ==> digits >= 4 * BINADE,
    ensures
        is_nearest(magnitude as int, num, den),
{
    let length = bit_length(digits);
    proof {
        lemma_pow2_127();
        if inexact && length < 55 {
            lemma_pow2_below(length as nat, 54);
        }
    }
    let excess = length as i32 + e - 53;
    let count: i32 = if excess > 0 {
        excess
    } else {
        0
    };
    let shift: i32 = count - e;
    if count > 2045 {
        proof {
            lemma_overflow(digits as int, e as int, inexact, num, den, length as nat);
        }
        return INFINITY;
    }
    if shift <= 0 {
        let scale = power_of_two((-shift) as u32);
        proof {
            lemma_exact_fits(digits as int, length as nat, count as nat, shift as int, scale as int);
        }
        let mantissa = digits * scale;
        proof {
            lemma_exact(
                digits as int,
                e as int,
                num,
                den,
                count as nat,
                (-shift) as nat,
                mantissa as int,
            );
        }
        return count as u64 * BINADE + mantissa as u64;
    }
    if shift > length as i32 {
        proof {
            lemma_underflow(digits as int, e as int, inexact, num, den, length as nat);
        }
        return 0;
    }
    let half = power_of_two((shift - 1) as u32);
    proof {
        lemma_pow2_pos((shift - 1) as nat);
    }
    let doubled = digits / half;
    let low = digits % half;
    let kept = doubled / 2;
    let bit = doubled % 2;
    proof {
        vstd::arithmetic::div_mod::lemma_fundamental_div_mod(digits as int, half as int);
        assert(digits == (2 * kept + bit) * half + low) by (nonlinear_arith)
            requires
                digits == half * doubled + low,
                doubled == 2 * kept + bit,
        ;
        lemma_kept_range(
            digits as int,
            length as nat,
            count as nat,
            shift as nat,
            kept as int,
            bit as int,
            low as int,
        );
        lemma_cut(
            digits as int,
            e as int,
            inexact,
            num,
            den,
            count as nat,
            shift as nat,
            kept as int,
            bit as int,
            low as int,
        );
    }
    let magnitude = count as u64 * BINADE + kept as u64;
    if bit == 1 && (low != 0 || inexact || kept % 2 == 1) {
        magnitude + 1
    } else {
        magnitude
    }
}

proof fn lemma_overflow(digits: int, e: int, inexact: bool, num: int, den: int, length: nat)
    requires
        den > 0,
        1 <= length <= 128,
        pow2((length - 1) as nat) <= digits,
        brackets(digits, e, inexact, num, den),
        length + e - 53 > 2045,
    ensures
        is_nearest(INFINITY as int, num, den),
{
    let t = pow2(2046) as int;
    lemma_pow2_127();
    lemma_units_of_parts(2046, BINADE as int);
    assert(units(INFINITY as int) == BINADE * t);
    lemma_units_step(INFINITY - 1);
    lemma_pow2_adds((length - 1) as nat, e as nat);
    lemma_pow2_adds(52, 2046);
    lemma_pow2_below(2098, (length - 1 + e) as nat);
    lemma_pow2_pos(e as nat);
    let p = pow2((length - 1) as nat) as int;
    let a = above(e);
    assert(num >= BINADE * t * den) by (nonlinear_arith)
        requires
            digits * (a * den) <= num * 1,
            p <= digits,
            p * a >= BINADE * t,
            a > 0,
            den > 0,
    ;
    let low = units(INFINITY - 1) + units(INFINITY as int);
    assert(2 * num > low * den) by (nonlinear_arith)
        requires
            num >= BINADE * t * den,
            low < 2 * (BINADE * t),
            den > 0,
    ;
}

proof fn lemma_exact_fits(digits: int, length: nat, count: nat, shift: int, scale: int)
    requires
        1 <= length <= 128,
        pow2((length - 1) as nat) <= digits < pow2(length),
        shift <= 0,
        scale == pow2((-shift) as nat),
        count > 0 ==> shift == length - 53,
        count == 0 ==> length - shift <= 53,
    ensures
        digits * scale <= 2 * BINADE,
        count > 0 ==> BINADE <= digits * scale,
        digits * scale >= 0,
{
    let n = (-shift) as nat;
    lemma_pow2_127();
    lemma_pow2_pos(n);
    lemma_pow2_adds(length, n);
    lemma_pow2_below(length + n, 53);
    let p = pow2(length) as int;
    assert(0 <= digits * scale <= p * scale) by (nonlinear_arith)
        requires
            0 <= digits < p,
            scale > 0,
    ;
    lemma_pow2_pos((length - 1) as nat);
    if count > 0 {
        lemma_pow2_adds((length - 1) as nat, n);
        let q = pow2((length - 1) as nat) as int;
        assert(q * scale <= digits * scale) by (nonlinear_arith)
            requires
                q <= digits,
                scale > 0,
        ;
    }
}

proof fn lemma_exact(
    digits: int,
    e: int,
    num: int,
    den: int,
    count: nat,
    scale: nat,
    mantissa: int,
)
    requires
        den > 0,
        e == count + scale,
        brackets(digits, e, false, num, den),
        mantissa == digits * pow2(scale),
        0 <= mantissa <= 2 * BINADE,
        count == 0 || BINADE <= mantissa,
        count <= 2045,
    ensures
        is_nearest(count * BINADE + mantissa, num, den),
        count * BINADE + mantissa <= INFINITY,
{
    let magnitude = count * BINADE + mantissa;
    let s = pow2(scale) as int;
    let t = pow2(count) as int;
    lemma_pow2_adds(count, scale);
    lemma_units_of_parts(count, mantissa);
    assert(num == units(magnitude) * den) by (nonlinear_arith)
        requires
            num * 1 == digits * (above(e) * den),
            above(e) == t * s,
            units(magnitude) == (digits * s) * t,
    ;
    lemma_units_step(magnitude);
    let high = units(magnitude) + units(magnitude + 1);
    assert(2 * num < high * den) by (nonlinear_arith)
        requires
            num == units(magnitude) * den,
            high > 2 * units(magnitude),
            den > 0,
    ;
    if magnitude > 0 {
        lemma_units_step(magnitude - 1);
        let low = units(magnitude - 1) + units(magnitude);
        assert(2 * num > low * den) by (nonlinear_arith)
            requires
                num == units(magnitude) * den,
                low < 2 * units(magnitude),
                den > 0,
        ;
    }
}

proof fn lemma_underflow(digits: int, e: int, inexact: bool, num: int, den: int, length: nat)
    requires
        den > 0,
        1 <= length <= 128,
        0 < digits < pow2(length),
        brackets(digits, e, inexact, num, den),
        -e > length,
    ensures
        is_nearest(0, num, den),
{
    let b = below(e);
    lemma_pow2_below(length + 1, (-e) as nat);
    lemma_pow2_unfold(length + 1);
    let p = pow2(length) as int;
    assert(2 * num < den) by (nonlinear_arith)
        requires
            num * b < (digits + 1) * (1 * den),
            digits + 1 <= p,
            2 * p <= b,
            den > 0,
            p > 0,
    ;
    assert(units(0) + units(1) == 1);
    assert(1 * den == den);
}

proof fn lemma_kept_range(
    digits: int,
    length: nat,
    count: nat,
    shift: nat,
    kept: int,
    bit: int,
    low: int,
)
    requires
        1 <= length <= 128,
        pow2((length - 1) as nat) <= digits < pow2(length),
        1 <= shift <= length,
        digits == (2 * kept + bit) * pow2((shift - 1) as nat) + low,
        0 <= low < pow2((shift - 1) as nat),
        bit == 0 || bit == 1,
        kept >= 0,
        count <= 2045,
        length - shift <= 53,
        count > 0 ==> length - shift == 53,
    ensures
        kept < 2 * BINADE,
        count > 0 ==> BINADE <= kept,
        count * BINADE + kept < INFINITY,
{
    let half = pow2((shift - 1) as nat) as int;
    let s = pow2(shift) as int;
    lemma_pow2_127();
    lemma_pow2_unfold(shift);
    lemma_pow2_adds(shift, (length - shift) as nat);
    lemma_pow2_below((length - shift) as nat, 53);
    lemma_pow2_pos(shift);
    let w = pow2((length - shift) as nat) as int;
    assert(kept * s <= digits) by (nonlinear_arith)
        requires
            digits == (2 * kept + bit) * half + low,
            s == 2 * half,
            bit >= 0,
            low >= 0,
            half > 0,
    ;
    assert(kept < w) by (nonlinear_arith)
        requires
            kept * s < s * w,
            s > 0,
    ;
    if count > 0 {
        lemma_pow2_adds(shift, 52);
        assert(digits < (kept + 1) * s) by (nonlinear_arith)
            requires
                digits == (2 * kept + bit) * half + low,
                s == 2 * half,
                bit == 0 || bit == 1,
                low < half,
                half > 0,
        ;
        assert(kept + 1 > BINADE) by (nonlinear_arith)
            requires
                s * BINADE < (kept + 1) * s,
                s > 0,
        ;
    }
}

/// A rank: a binary64 number.
#[derive(Clone, Copy, Debug, PartialEq, Eq, Structural)]
pub struct Rank {
    /// The bit pattern.
    pub bits: u64,
}

/// The bit patterns of the constants that ranks are computed with.
pub const QUARTER: u64 = 0x3fd0_0000_0000_0000;

pub const HALF: u64 = 0x3fe0_0000_0000_0000;

pub const NINE_TENTHS: u64 = 0x3fec_cccc_cccc_cccd;

pub const ONE: u64 = 0x3ff0_0000_0000_0000;

pub const TWO: u64 = 0x4000_0000_0000_0000;

pub const FOUR: u64 = 0x4010_0000_0000_0000;

/// The scale of a value that is counted in units of 2^-1074.
pub open spec fn unit_scale() -> int {
    pow2(1074) as int
}

/// The number with this sign and magnitude.
pub open spec fn signed(negative: bool, magnitude: u64) -> Rank {
    Rank {
        bits: if negative {
            (SIGN + magnitude) as u64
        } else {
            magnitude
        },
    }
}

impl Rank {
    pub open spec fn negative(self) -> bool {
        self.bits >= SIGN
    }

    pub open spec fn magnitude(self) -> int {
        if self.negative() {
            self.bits - SIGN
        } else {
            self.bits as int
        }
    }

    pub open spec fn is_nan(self) -> bool {
        self.magnitude() > INFINITY
    }

    pub open spec fn is_infinite(self) -> bool {
        self.magnitude() == INFINITY
    }

    /// The value, in units of 2^-1074.
    pub open spec fn value(self) -> int {
        if self.negative() {
            -units(self.magnitude())
        } else {
            units(self.magnitude())
        }
    }

    /// The rounded sum. Of two opposite infinities there is none; a sum of
    /// zero is negative only if both summands are.
    pub open spec fn sum(self, other: Rank) -> Rank {
        let exact = self.value() + other.value();
        if self.is_nan() || other.is_nan() {
            signed(false, NOT_A_NUMBER)
        } else if self.is_infinite() && other.is_infinite() && self.negative()
            != other.negative() {
            signed(false, NOT_A_NUMBER)
        } else if self.is_infinite() {
            self
        } else if other.is_infinite() {
            other
        } else if exact == 0 {
            signed(self.negative() && other.negative(), 0)
        } else if exact > 0 {
            signed(false, rounded(exact, 1))
        } else {
            signed(true, rounded(-exact, 1))
        }
    }

    /// The rounded product. Of zero and infinity there is none.
    pub open spec fn product(self, other: Rank) -> Rank {
        let negative = self.negative() != other.negative();
        let zero = self.magnitude() == 0 || other.magnitude() == 0;
        if self.is_nan() || other.is_nan() {
            signed(false, NOT_A_NUMBER)
        } else if self.is_infinite() || other.is_infinite() {
            if zero {
                signed(false, NOT_A_NUMBER)
            } else {
                signed(negative, INFINITY)
            }
        } else if zero {
            signed(negative, 0)
        } else {
            signed(
                negative,
                rounded(units(self.magnitude()) * units(other.magnitude()), unit_scale()),
            )
        }
    }

    /// The rounded quotient. Of two zeros or two infinities there is none.
    pub open spec fn quotient(self, other: Rank) -> Rank {
        let negative = self.negative() != other.negative();
        if self.is_nan() || other.is_nan() {
            signed(false, NOT_A_NUMBER)
        } else if self.is_infinite() {
            if other.is_infinite() {
                signed(false, NOT_A_NUMBER)
            } else {
                signed(negative, INFINITY)
            }
        } else if other.is_infinite() {
            signed(negative, 0)
        } else if other.magnitude() == 0 {
            if self.magnitude() == 0 {
                signed(false, NOT_A_NUMBER)
            } else {
                signed(negative, INFINITY)
            }
        } else if self.magnitude() == 0 {
            signed(negative, 0)
        } else {
            signed(
                negative,
                rounded(units(self.magnitude()) * unit_scale(), units(other.magnitude())),
            )
        }
    }

    /// Whether this number is the greater one. Nothing is greater or less
    /// than what is not a number.
    pub open spec fn greater(self, other: Rank) -> bool {
        !self.is_nan() && !other.is_nan() && self.value() > other.value()
    }

    /// The greater of this number and zero.
    pub open spec fn clamped(self) -> Rank {
        if self.greater(signed(false, 0)) {
            self
        } else {
            signed(false, 0)
        }
    }

    /// The position in the total order of all patterns: negative ones come
    /// before positive ones, negative zero before zero, and what is not a
    /// number at the two ends.
    pub open spec fn total_position(self) -> int {
        if self.negative() {
            -1 - self.magnitude()
        } else {
            self.magnitude()
        }
    }

    /// The number with this bit pattern.
    pub fn from_bits(bits: u64) -> (rank: Rank)
        ensures
            rank.bits == bits,
    {
        Rank { bits }
    }

    /// The bit pattern of this number.
    pub fn to_bits(self) -> (bits: u64)
        ensures
            bits == self.bits,
    {
        self.bits
    }

    fn is_negative(self) -> (negative: bool)
        ensures
            negative == self.negative(),
    {
        self.bits >= SIGN
    }

    fn without_sign(self) -> (magnitude: u64)
        ensures
            magnitude == self.magnitude(),
            magnitude < SIGN,
    {
        if self.bits >= SIGN {
            self.bits - SIGN
        } else {
            self.bits
        }
    }

    fn with_sign(negative: bool, magnitude: u64) -> (rank: Rank)
        requires
            magnitude < SIGN,
        ensures
            rank == signed(negative, magnitude),
    {
        Rank {
            bits: if negative {
                SIGN + magnitude
            } else {
                magnitude
            },
        }
    }

    /// Whether this number is greater than `other`.
    pub fn exceeds(self, other: Rank) -> (greater: bool)
        ensures
            greater == self.greater(other),
    {
        let a = self.without_sign();
        let b = other.without_sign();
        if a > INFINITY || b > INFINITY {
            return false;
        }
        proof {
            assert(units(0) == 0);
            if a > 0 {
                lemma_units_increase(0, a as int);
            }
            if b > 0 {
                lemma_units_increase(0, b as int);
            }
            if a < b {
                lemma_units_increase(a as int, b as int);
            }
            if b < a {
                lemma_units_increase(b as int, a as int);
            }
        }
        if self.is_negative() {
            other.is_negative() && b > a
        } else if other.is_negative() {
            a > 0 || b > 0
        } else {
            a > b
        }
    }

    /// The greater of this number and zero; zero where it is not a number.
    pub fn at_least_zero(self) -> (rank: Rank)
        ensures
            rank == self.clamped(),
    {
        if self.exceeds(Rank { bits: 0 }) {
            self
        } else {
            Rank { bits: 0 }
        }
    }

    /// Whether this number comes before `other`, or equals it, in the total
    /// order of all patterns.
    pub fn total_not_after(self, other: Rank) -> (leq: bool)
        ensures
            leq == (self.total_position() <= other.total_position()),
    {
        let a = self.without_sign();
        let b = other.without_sign();
        if self.is_negative() {
            !other.is_negative() || a >= b
        } else {
            !other.is_negative() && a <= b
        }
    }
}

/// The mantissa and the exponent of a finite magnitude.
fn parts(magnitude: u64) -> (r: (u64, u32))
    requires
        magnitude < INFINITY,
    ensures
        units(magnitude as int) == r.0 * pow2(r.1 as nat),
        r.0 < 2 * BINADE,
        r.1 > 0 ==> r.0 >= BINADE,
        r.1 <= 2045,
        r.0 == 0 <==> magnitude == 0,
{
    proof {
        vstd::arithmetic::power2::lemma2_to64();
        assert(magnitude * pow2(0) == magnitude);
    }
    if magnitude < BINADE {
        (magnitude, 0)
    } else {
        (BINADE + magnitude % BINADE, (magnitude / BINADE - 1) as u32)
    }
}

pub proof fn lemma_rounded(magnitude: u64, num: int, den: int)
    requires
        den > 0,
        is_nearest(magnitude as int, num, den),
    ensures
        rounded(num, den) == magnitude,
{
    let chosen = rounded(num, den);
    assert(is_nearest(chosen as int, num, den));
    lemma_nearest_unique(chosen as int, magnitude as int, num, den);
}

/// The sum of two parts with the same unit.
proof fn lemma_aligned(high: int, low: int, count: nat, digits: int, gap: nat, same_sign: bool)
    requires
        digits == (if same_sign {
            high * pow2(gap) + low
        } else if high * pow2(gap) >= low {
            high * pow2(gap) - low
        } else {
            low - high * pow2(gap)
        }),
    ensures
        ({
            let x = high * pow2((count + gap) as nat);
            let y = low * pow2(count);
            &&& same_sign ==> x + y == digits * pow2(count)
            &&& !same_sign && high * pow2(gap) >= low ==> x - y == digits * pow2(count)
            &&& !same_sign && high * pow2(gap) < low ==> y - x == digits * pow2(count)
        }),
{
    lemma_pow2_adds(count, gap);
    let c = pow2(count) as int;
    let g = pow2(gap) as int;
    assert(high * (c * g) == (high * g) * c) by (nonlinear_arith);
    assert((high * g + low) * c == (high * g) * c + low * c) by (nonlinear_arith);
    assert((high * g - low) * c == (high * g) * c - low * c) by (nonlinear_arith);
    assert((low - high * g) * c == low * c - (high * g) * c) by (nonlinear_arith);
}

proof fn lemma_brackets_exact(digits: int, count: nat)
    ensures
        brackets(digits, count as int, false, digits * pow2(count), 1),
{
    lemma_pow2_pos(count);
    let c = pow2(count) as int;
    assert(digits * (c * 1) == digits * c * 1) by (nonlinear_arith);
    assert(digits * c < (digits + 1) * (c * 1)) by (nonlinear_arith)
        requires
            c > 0,
    ;
}

/// A summand that is too small to reach the kept digits.
proof fn lemma_brackets_distant(high: int, low: int, count: nat, gap: nat, same_sign: bool)
    requires
        gap > 74,
        0 < low < 2 * BINADE,
        BINADE <= high,
    ensures
        ({
            let x = high * pow2((count + gap) as nat);
            let y = low * pow2(count);
            let e = count + gap - 20;
            &&& 0 < y < x
            &&& same_sign ==> brackets(high * pow2(20), e, true, x + y, 1)
            &&& !same_sign ==> brackets(high * pow2(20) - 1, e, true, x - y, 1)
        }),
{
    let e = (count + gap - 20) as nat;
    let c = pow2(count) as int;
    let p = pow2(e) as int;
    let k = pow2(20) as int;
    lemma_pow2_pos(count);
    lemma_pow2_pos(e);
    lemma_pow2_127();
    lemma_pow2_adds(20, e);
    lemma_pow2_adds(53, count);
    lemma_pow2_below(53 + count, e);
    lemma_pow2_pos(20);
    let y = low * c;
    assert(0 < y < p) by (nonlinear_arith)
        requires
            0 < low < 2 * BINADE,
            c > 0,
            y == low * c,
            2 * BINADE * c <= p,
    ;
    let x = high * pow2((count + gap) as nat);
    assert(x == (high * k) * p) by (nonlinear_arith)
        requires
            x == high * (k * p),
    ;
    let d = high * k;
    assert(d >= 1) by (nonlinear_arith)
        requires
            d == high * k,
            high >= 1,
            k >= 1,
    ;
    assert(p <= d * p) by (nonlinear_arith)
        requires
            d >= 1,
            p > 0,
    ;
    assert((d + 1) * (p * 1) == d * p + p) by (nonlinear_arith);
    assert((d - 1) * (p * 1) == d * p - p) by (nonlinear_arith);
    assert(d * (p * 1) == d * p) by (nonlinear_arith);
}

impl Rank {
    /// The rounded sum of two numbers.
    pub fn plus(self, other: Rank) -> (rank: Rank)
        ensures
            rank == self.sum(other),
    {
        let a = self.without_sign();
        let b = other.without_sign();
        if a > INFINITY || b > INFINITY {
            return Rank::with_sign(false, NOT_A_NUMBER);
        }
        if a == INFINITY {
            if b == INFINITY && self.is_negative() != other.is_negative() {
                return Rank::with_sign(false, NOT_A_NUMBER);
            }
            return self;
        }
        if b == INFINITY {
            return other;
        }
        let (x, x_count) = parts(a);
        let (y, y_count) = parts(b);
        if x_count >= y_count {
            finite_sum(self, x, x_count, other, y, y_count)
        } else {
            finite_sum(other, y, y_count, self, x, x_count)
        }
    }

    /// The rounded product of two numbers.
    pub fn times(self, other: Rank) -> (rank: Rank)
        ensures
            rank == self.product(other),
    {
        let a = self.without_sign();
        let b = other.without_sign();
        let negative = self.is_negative() != other.is_negative();
        if a > INFINITY || b > INFINITY {
            return Rank::with_sign(false, NOT_A_NUMBER);
        }
        let zero = a == 0 || b == 0;
        if a == INFINITY || b == INFINITY {
            if zero {
                return Rank::with_sign(false, NOT_A_NUMBER);
            }
            return Rank::with_sign(negative, INFINITY);
        }
        if zero {
            return Rank::with_sign(negative, 0);
        }
        let (x, x_count) = parts(a);
        let (y, y_count) = parts(b);
        assert(0 < x * y <= 0xffff_ffff_ffff_ffff_ffff_ffff_ffff) by (nonlinear_arith)
            requires
                0 < x < 2 * BINADE,
                0 < y < 2 * BINADE,
        ;
        let digits: u128 = (x as u128) * (y as u128);
        let e: i32 = x_count as i32 + y_count as i32 - 1074;
        let ghost num = units(a as int) * units(b as int);
        let ghost den = unit_scale();
        proof {
            lemma_brackets_product(
                x as int,
                x_count as nat,
                y as int,
                y_count as nat,
                e as int,
            );
            lemma_pow2_pos(1074);
        }
        let magnitude = nearest(digits, e, false, Ghost(num), Ghost(den));
        proof {
            lemma_rounded(magnitude, num, den);
        }
        Rank::with_sign(negative, magnitude)
    }

    /// The rounded quotient of two numbers.
    pub fn over(self, other: Rank) -> (rank: Rank)
        ensures
            rank == self.quotient(other),
    {
        let a = self.without_sign();
        let b = other.without_sign();
        let negative = self.is_negative() != other.is_negative();
        if a > INFINITY || b > INFINITY {
            return Rank::with_sign(false, NOT_A_NUMBER);
        }
        if a == INFINITY {
            if b == INFINITY {
                return Rank::with_sign(false, NOT_A_NUMBER);
            }
            return Rank::with_sign(negative, INFINITY);
        }
        if b == INFINITY {
            return Rank::with_sign(negative, 0);
        }
        if b == 0 {
            if a == 0 {
                return Rank::with_sign(false, NOT_A_NUMBER);
            }
            return Rank::with_sign(negative, INFINITY);
        }
        if a == 0 {
            return Rank::with_sign(negative, 0);
        }
        let (x, x_count) = parts(a);
        let (y, y_count) = parts(b);
        let length = bit_length(x as u128);
        proof {
            lemma_pow2_127();
            if length > 53 {
                lemma_pow2_below(53, (length - 1) as nat);
            }
        }
        let widen: u32 = 127 - length;
        let scale = power_of_two(widen);
        proof {
            lemma_widened(x as int, length as nat, scale as int);
        }
        let wide: u128 = (x as u128) * scale;
        let digits: u128 = wide / (y as u128);
        let inexact = wide % (y as u128) != 0;
        let e: i32 = x_count as i32 - y_count as i32 + 1074 - widen as i32;
        let ghost num = units(a as int) * unit_scale();
        let ghost den = units(b as int);
        proof {
            lemma_brackets_quotient(
                x as int,
                x_count as nat,
                y as int,
                y_count as nat,
                widen as nat,
                wide as int,
                e as int,
            );
        }
        let magnitude = nearest(digits, e, inexact, Ghost(num), Ghost(den));
        proof {
            lemma_rounded(magnitude, num, den);
        }
        Rank::with_sign(negative, magnitude)
    }
}

/// The rounded sum of two finite numbers, given by their parts, the one with
/// the larger exponent first.
fn finite_sum(
    first: Rank,
    high: u64,
    high_count: u32,
    second: Rank,
    low: u64,
    low_count: u32,
) -> (rank: Rank)
    requires
        first.magnitude() < INFINITY,
        second.magnitude() < INFINITY,
        units(first.magnitude()) == high * pow2(high_count as nat),
        units(second.magnitude()) == low * pow2(low_count as nat),
        high < 2 * BINADE,
        low < 2 * BINADE,
        high_count > 0 ==> high >= BINADE,
        low_count <= high_count <= 2045,
    ensures
        rank == first.sum(second),
        rank == second.sum(first),
{
    let same_sign = first.is_negative() == second.is_negative();
    let gap: u32 = high_count - low_count;
    let ghost exact = first.value() + second.value();
    let ghost size = if exact >= 0 {
        exact
    } else {
        -exact
    };
    if gap <= 74 {
        let scale = power_of_two(gap);
        proof {
            lemma_pow2_127();
            lemma_pow2_below(gap as nat, 74);
            lemma_pow2_adds(53, 74);
            assert(high * scale <= 2 * BINADE * pow2(74)) by (nonlinear_arith)
                requires
                    0 <= high < 2 * BINADE,
                    0 <= scale <= pow2(74),
            ;
        }
        let wide: u128 = (high as u128) * scale;
        let swapped = !same_sign && wide < low as u128;
        let digits: u128 = if same_sign {
            wide + low as u128
        } else if swapped {
            low as u128 - wide
        } else {
            wide - low as u128
        };
        let negative = if swapped {
            second.is_negative()
        } else {
            first.is_negative()
        };
        proof {
            lemma_aligned(
                high as int,
                low as int,
                low_count as nat,
                digits as int,
                gap as nat,
                same_sign,
            );
            lemma_pow2_pos(low_count as nat);
            lemma_brackets_exact(digits as int, low_count as nat);
            let c = pow2(low_count as nat) as int;
            assert(size == digits * c);
            if digits == 0 {
                assert(digits * c == 0) by (nonlinear_arith)
                    requires
                        digits == 0,
                ;
            } else {
                assert(digits * c > 0) by (nonlinear_arith)
                    requires
                        digits > 0,
                        c > 0,
                ;
            }
        }
        if digits == 0 {
            return Rank::with_sign(first.is_negative() && second.is_negative(), 0);
        }
        let magnitude = nearest(digits, low_count as i32, false, Ghost(size), Ghost(1));
        proof {
            lemma_rounded(magnitude, size, 1);
        }
        Rank::with_sign(negative, magnitude)
    } else if low == 0 {
        proof {
            lemma_brackets_exact(high as int, high_count as nat);
            lemma_pow2_pos(high_count as nat);
            let c = pow2(high_count as nat) as int;
            assert(high * c > 0) by (nonlinear_arith)
                requires
                    high > 0,
                    c > 0,
            ;
            let d = pow2(low_count as nat) as int;
            assert(0 * d == 0) by (nonlinear_arith);
        }
        let magnitude = nearest(
            high as u128,
            high_count as i32,
            false,
            Ghost(size),
            Ghost(1),
        );
        proof {
            lemma_rounded(magnitude, size, 1);
        }
        Rank::with_sign(first.is_negative(), magnitude)
    } else {
        let scale = power_of_two(20);
        proof {
            vstd::arithmetic::power2::lemma2_to64();
            lemma_brackets_distant(
                high as int,
                low as int,
                low_count as nat,
                gap as nat,
                same_sign,
            );
            assert(4 * BINADE < high * scale < 0x1_0000_0000_0000_0000_0000) by (nonlinear_arith)
                requires
                    BINADE <= high < 2 * BINADE,
                    scale == 0x10_0000,
            ;
        }
        let wide: u128 = (high as u128) * scale;
        let digits = if same_sign {
            wide
        } else {
            wide - 1
        };
        let magnitude = nearest(
            digits,
            high_count as i32 - 20,
            true,
            Ghost(size),
            Ghost(1),
        );
        proof {
            lemma_rounded(magnitude, size, 1);
        }
        Rank::with_sign(first.is_negative(), magnitude)
    }
}

proof fn lemma_brackets_product(x: int, x_count: nat, y: int, y_count: nat, e: int)
    requires
        e == x_count + y_count - 1074,
    ensures
        brackets(
            x * y,
            e,
            false,
            (x * pow2(x_count)) * (y * pow2(y_count)),
            unit_scale(),
        ),
{
    let a = pow2(x_count) as int;
    let b = pow2(y_count) as int;
    let num = (x * a) * (y * b);
    lemma_pow2_adds(x_count, y_count);
    lemma_pow2_pos(1074);
    lemma_pow2_pos(x_count + y_count);
    let u = unit_scale();
    let p = above(e) * u;
    let n = num * below(e);
    assert(num == (x * y) * (a * b)) by (nonlinear_arith)
        requires
            num == (x * a) * (y * b),
    ;
    if e >= 0 {
        lemma_pow2_adds(e as nat, 1074);
        assert(n == (x * y) * p);
    } else {
        lemma_pow2_adds((-e) as nat, x_count + y_count);
        let d = below(e);
        assert(n == (x * y) * u) by (nonlinear_arith)
            requires
                n == ((x * y) * (a * b)) * d,
                u == d * (a * b),
        ;
        assert(1 * u == u);
    }
    assert(p > 0);
    assert((x * y) * p < (x * y + 1) * p) by (nonlinear_arith)
        requires
            p > 0,
    ;
}

proof fn lemma_widened(x: int, length: nat, scale: int)
    requires
        1 <= length <= 53,
        pow2((length - 1) as nat) <= x < pow2(length),
        scale == pow2((127 - length) as nat),
    ensures
        pow2(126) <= x * scale < pow2(127),
{
    lemma_pow2_adds((length - 1) as nat, (127 - length) as nat);
    lemma_pow2_adds(length, (127 - length) as nat);
    lemma_pow2_pos((127 - length) as nat);
    let p = pow2((length - 1) as nat) as int;
    let q = pow2(length) as int;
    assert(p * scale <= x * scale < q * scale) by (nonlinear_arith)
        requires
            p <= x < q,
            scale > 0,
    ;
}

proof fn lemma_brackets_quotient(
    x: int,
    x_count: nat,
    y: int,
    y_count: nat,
    widen: nat,
    wide: int,
    e: int,
)
    requires
        0 < y < 2 * BINADE,
        wide == x * pow2(widen),
        pow2(126) <= wide,
        e == x_count - y_count + 1074 - widen,
        widen <= 126,
    ensures
        brackets(
            wide / y,
            e,
            wide % y != 0,
            (x * pow2(x_count)) * unit_scale(),
            y * pow2(y_count),
        ),
        y * pow2(y_count) > 0,
        wide / y >= 4 * BINADE,
{
    let a = pow2(x_count) as int;
    let b = pow2(y_count) as int;
    let w = pow2(widen) as int;
    let u = unit_scale();
    let num = (x * a) * u;
    let den = y * b;
    let p = above(e) * den;
    let n = num * below(e);
    lemma_pow2_pos(y_count);
    lemma_pow2_adds(x_count, 1074);
    assert(den > 0) by (nonlinear_arith)
        requires
            den == y * b,
            y > 0,
            b > 0,
    ;
    assert(num == x * (a * u)) by (nonlinear_arith)
        requires
            num == (x * a) * u,
    ;
    // Both sides of the quotient, with a common factor.
    let t = if e >= 0 {
        above(e) * b
    } else {
        b
    };
    assert(p == y * t && n == wide * t && t > 0) by {
        if e >= 0 {
            lemma_pow2_adds(e as nat, y_count);
            lemma_pow2_adds(e as nat + y_count, widen);
            lemma_pow2_pos(e as nat + y_count);
            let c = above(e);
            assert(c * (y * b) == y * (c * b)) by (nonlinear_arith);
            assert(x * (a * u) == (x * w) * t) by (nonlinear_arith)
                requires
                    a * u == t * w,
            ;
            assert(n == num * 1);
            assert(p == c * (y * b));
            assert(t > 0);
        } else {
            lemma_pow2_adds(x_count + 1074, (-e) as nat);
            lemma_pow2_adds(widen, y_count);
            let d = below(e);
            assert((x * (a * u)) * d == (x * w) * b) by (nonlinear_arith)
                requires
                    (a * u) * d == w * b,
            ;
        }
    }
    let digits = wide / y;
    let rest = wide % y;
    vstd::arithmetic::div_mod::lemma_fundamental_div_mod(wide, y);
    assert(digits * p + rest * t == n) by (nonlinear_arith)
        requires
            p == y * t,
            n == wide * t,
            wide == y * digits + rest,
    ;
    assert(0 <= rest * t < p) by (nonlinear_arith)
        requires
            0 <= rest < y,
            t > 0,
            p == y * t,
    ;
    assert((digits + 1) * p == digits * p + p) by (nonlinear_arith);
    if rest != 0 {
        assert(rest * t > 0) by (nonlinear_arith)
            requires
                rest > 0,
                t > 0,
        ;
    } else {
        assert(rest * t == 0) by (nonlinear_arith)
            requires
                rest == 0,
        ;
    }
    lemma_pow2_127();
    lemma_pow2_adds(54, 72);
    lemma_pow2_below(53, 72);
    assert(digits >= 4 * BINADE) by (nonlinear_arith)
        requires
            wide == y * digits + rest,
            0 <= rest < y,
            0 < y < 2 * BINADE,
            wide >= (4 * BINADE) * pow2(72),
            pow2(72) >= 2 * BINADE,
    ;
}

/// A quotient that is not below the value of `below` has a nearest magnitude.
proof fn lemma_nearest_from(below: int, num: int, den: int) -> (magnitude: int)
    requires
        den > 0,
        0 <= below <= INFINITY,
        units(below) * den <= num,
    ensures
        is_nearest(magnitude, num, den),
    decreases INFINITY - below,
{
    if below == INFINITY {
        lemma_units_step(below - 1);
        let low = units(below - 1) + units(below);
        assert(2 * num > low * den) by (nonlinear_arith)
            requires
                num >= units(below) * den,
                low < 2 * units(below),
                den > 0,
        ;
        below
    } else if units(below + 1) * den <= num {
        lemma_nearest_from(below + 1, num, den)
    } else {
        let middle = (units(below) + units(below + 1)) * den;
        let up = 2 * num > middle || 2 * num == middle && below % 2 == 1;
        lemma_between_neighbours(below, num, den, up);
        if up {
            below + 1
        } else {
            below
        }
    }
}

/// Every quotient that is not negative has a nearest magnitude.
pub proof fn lemma_rounded_is_nearest(num: int, den: int)
    requires
        den > 0,
        num >= 0,
    ensures
        is_nearest(rounded(num, den) as int, num, den),
{
    assert(units(0) * den == 0) by (nonlinear_arith)
        requires
            units(0) == 0,
    ;
    let magnitude = lemma_nearest_from(0, num, den);
    assert(is_nearest((magnitude as u64) as int, num, den));
}

/// A sum that is not a number is the canonical one.
pub proof fn lemma_sum_is_canonical(a: Rank, b: Rank)
    ensures
        a.sum(b).is_nan() ==> a.sum(b).bits == NOT_A_NUMBER,
{
    let exact = a.value() + b.value();
    if exact > 0 {
        lemma_rounded_is_nearest(exact, 1);
    } else if exact < 0 {
        lemma_rounded_is_nearest(-exact, 1);
    }
}

/// Adding to negative zero gives a number back, and what is not a number
/// becomes the canonical one.
pub proof fn lemma_negative_zero_is_neutral(x: Rank)
    ensures
        signed(true, 0).sum(x) == (if x.is_nan() {
            signed(false, NOT_A_NUMBER)
        } else {
            x
        }),
{
    let zero = signed(true, 0);
    assert(zero.value() == 0);
    let magnitude = x.magnitude();
    if 0 < magnitude < INFINITY {
        lemma_units_step(magnitude - 1);
        lemma_units_step(magnitude);
        let value = units(magnitude);
        assert(is_nearest(magnitude, value, 1));
        lemma_rounded(magnitude as u64, value, 1);
    }
}

} // verus!
