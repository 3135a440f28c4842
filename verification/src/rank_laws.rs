//! How far computed ranks are from the exact numbers, and where they are
//! exact.

use vstd::arithmetic::power2::{
    lemma_pow2_adds, lemma_pow2_pos, lemma_pow2_strictly_increases, lemma_pow2_unfold, pow2,
};
use vstd::prelude::*;

use crate::rank::{is_nearest, lemma_rounded, lemma_rounded_is_nearest, lemma_units_increase};
use crate::rank::{lemma_units_of_parts, lemma_units_step, rounded, unit_scale, units, Rank, BINADE};
use crate::rank::{signed, FOUR, HALF, INFINITY, NINE_TENTHS, ONE, QUARTER, SIGN, TWO};

verus! {

/// The distance of two numbers.
pub open spec fn gap(a: int, b: int) -> int {
    if a >= b {
        a - b
    } else {
        b - a
    }
}

/// Whether `a` differs from `b` by at most `count` parts in 2^53 of `b`.
pub open spec fn is_close(a: int, b: int, count: int) -> bool {
    gap(a, b) * 0x20_0000_0000_0000 <= count * b
}

/// Whether a rank is a number that is neither negative nor infinite.
pub open spec fn is_plain(rank: Rank) -> bool {
    rank.bits < INFINITY
}

/// Rounding keeps the order: a quotient is not rounded past a number.
pub proof fn lemma_rounding_order(magnitude: int, bound: int, num: int, den: int)
    requires
        den > 0,
        is_nearest(magnitude, num, den),
        0 <= bound <= INFINITY,
    ensures
        num >= units(bound) * den ==> magnitude >= bound,
        num <= units(bound) * den ==> magnitude <= bound,
{
    if magnitude < bound {
        lemma_units_step(magnitude);
        if magnitude + 1 < bound {
            lemma_units_increase(magnitude + 1, bound);
        }
        let middle = units(magnitude) + units(magnitude + 1);
        assert(middle * den < 2 * (units(bound) * den)) by (nonlinear_arith)
            requires
                middle < 2 * units(bound),
                den > 0,
        ;
    }
    if magnitude > bound {
        lemma_units_step(magnitude - 1);
        if bound < magnitude - 1 {
            lemma_units_increase(bound, magnitude - 1);
        }
        let middle = units(magnitude - 1) + units(magnitude);
        assert(middle * den > 2 * (units(bound) * den)) by (nonlinear_arith)
            requires
                middle > 2 * units(bound),
                den > 0,
        ;
    }
}

/// The distance of a number that is not tiny to its neighbours.
proof fn lemma_spacing(magnitude: int)
    requires
        BINADE <= magnitude,
    ensures
        (units(magnitude + 1) - units(magnitude)) * BINADE <= units(magnitude),
        (units(magnitude) - units(magnitude - 1)) * BINADE <= units(magnitude),
{
    let h = BINADE as int;
    let count = (magnitude / h - 1) as nat;
    let mantissa = h + magnitude % h;
    vstd::arithmetic::div_mod::lemma_fundamental_div_mod(magnitude, h);
    assert(magnitude / h >= 1);
    assert(magnitude == count * h + mantissa) by (nonlinear_arith)
        requires
            magnitude == h * (magnitude / h) + magnitude % h,
            count == magnitude / h - 1,
            mantissa == h + magnitude % h,
    ;
    let p = pow2(count) as int;
    lemma_units_of_parts(count, mantissa);
    lemma_units_of_parts(count, mantissa + 1);
    lemma_pow2_pos(count);
    assert((mantissa + 1) * p - mantissa * p == p) by (nonlinear_arith);
    assert(p * h <= mantissa * p) by (nonlinear_arith)
        requires
            h <= mantissa,
            p > 0,
    ;
    if mantissa > h || count == 0 {
        lemma_units_of_parts(count, mantissa - 1);
        assert(mantissa * p - (mantissa - 1) * p == p) by (nonlinear_arith);
    } else {
        let q = pow2((count - 1) as nat) as int;
        lemma_pow2_unfold(count);
        lemma_pow2_pos((count - 1) as nat);
        lemma_units_of_parts((count - 1) as nat, 2 * h - 1);
        assert((count - 1) * h + (2 * h - 1) == magnitude - 1) by (nonlinear_arith)
            requires
                magnitude == count * h + h,
        ;
        assert(mantissa * p - (2 * h - 1) * q == q) by (nonlinear_arith)
            requires
                mantissa == h,
                p == 2 * q,
        ;
    }
}

/// A quotient that is rounded to a number that is neither tiny nor infinite is
/// close to that number.
pub proof fn rounding_is_close(magnitude: int, num: int, den: int)
    requires
        den > 0,
        is_nearest(magnitude, num, den),
        BINADE <= magnitude < INFINITY,
    ensures
        is_close(num, units(magnitude) * den, 1),
{
    lemma_spacing(magnitude);
    let u = units(magnitude);
    let up = units(magnitude + 1) - u;
    let down = u - units(magnitude - 1);
    let h = BINADE as int;
    assert(2 * num <= 2 * (u * den) + up * den) by (nonlinear_arith)
        requires
            2 * num <= (u + (u + up)) * den,
    ;
    assert(2 * num >= 2 * (u * den) - down * den) by (nonlinear_arith)
        requires
            2 * num >= ((u - down) + u) * den,
    ;
    assert((up * den) * h <= u * den) by (nonlinear_arith)
        requires
            up * h <= u,
            den > 0,
    ;
    assert((down * den) * h <= u * den) by (nonlinear_arith)
        requires
            down * h <= u,
            den > 0,
    ;
}

/// Whether a rank is a number that is not infinite.
pub open spec fn is_finite(rank: Rank) -> bool {
    !rank.is_nan() && !rank.is_infinite()
}

/// A positive whole value that is rounded to a finite number is close to it.
proof fn lemma_rounded_sum(exact: int)
    requires
        exact > 0,
        rounded(exact, 1) < INFINITY,
    ensures
        is_nearest(rounded(exact, 1) as int, exact, 1),
        units(rounded(exact, 1) as int) > 0,
        is_close(exact, units(rounded(exact, 1) as int), 1),
{
    let m = rounded(exact, 1) as int;
    lemma_rounded_is_nearest(exact, 1);
    lemma_rounding_order(m, 1, exact, 1);
    lemma_units_increase(0, m);
    if m >= BINADE {
        rounding_is_close(m, exact, 1);
        assert(units(m) * 1 == units(m));
    } else {
        vstd::arithmetic::power2::lemma2_to64();
        assert(units(m + 1) == m + 1) by {
            if m + 1 == BINADE {
                lemma_units_of_parts(0, BINADE as int);
            }
        }
        assert(exact == units(m));
    }
}

/// A sum has the sign of the exact sum, and is close to it.
pub proof fn sums_are_close(a: Rank, b: Rank)
    requires
        is_finite(a),
        is_finite(b),
        is_finite(a.sum(b)),
    ensures
        ({
            let exact = a.value() + b.value();
            let sum = a.sum(b).value();
            &&& exact == 0 <==> sum == 0
            &&& exact > 0 ==> sum > 0 && is_close(exact, sum, 1)
            &&& exact < 0 ==> sum < 0 && is_close(-exact, -sum, 1)
        }),
{
    let exact = a.value() + b.value();
    let positive = if exact < 0 {
        -exact
    } else {
        exact
    };
    if positive > 0 {
        lemma_rounded_is_nearest(positive, 1);
        lemma_rounded_sum(positive);
    }
}

/// The sum of two numbers that are not negative is not below either of them.
pub proof fn sums_do_not_shrink(a: Rank, b: Rank)
    requires
        is_plain(a) || a.value() == 0,
        is_plain(b),
        is_finite(a.sum(b)),
    ensures
        a.sum(b).value() >= a.value(),
        a.sum(b).value() >= b.value(),
        is_plain(a.sum(b)) || a.sum(b).value() == 0,
{
    lemma_zero_value(a);
    if a.magnitude() > 0 {
        lemma_units_increase(0, a.magnitude());
    }
    if b.magnitude() > 0 {
        lemma_units_increase(0, b.magnitude());
    }
    let exact = a.value() + b.value();
    if exact > 0 {
        let m = rounded(exact, 1) as int;
        lemma_rounded_is_nearest(exact, 1);
        lemma_rounding_order(m, a.magnitude(), exact, 1);
        lemma_rounding_order(m, b.magnitude(), exact, 1);
        if a.magnitude() < m {
            lemma_units_increase(a.magnitude(), m);
        }
        if b.magnitude() < m {
            lemma_units_increase(b.magnitude(), m);
        }
    }
}

/// Zero is the only magnitude with the value zero.
proof fn lemma_zero_value(a: Rank)
    ensures
        a.value() == 0 <==> a.magnitude() == 0,
{
    if a.magnitude() > 0 {
        lemma_units_increase(0, a.magnitude());
    }
}

/// Being close is passed on, with the parts added up and one for what is left
/// over.
proof fn lemma_close_chain(a: int, b: int, c: int, j: int, k: int)
    requires
        0 <= j <= 100,
        0 <= k <= 100,
        c >= 0,
        is_close(a, b, j),
        is_close(b, c, k),
    ensures
        is_close(a, c, j + k + 1),
{
    let d = b - c;
    let e: int = 0x20_0000_0000_0000;
    assert(d * e <= k * c);
    assert((j * d) * e <= (j * k) * c) by (nonlinear_arith)
        requires
            d * e <= k * c,
            0 <= j,
    ;
    assert((j * k) * c <= e * c) by (nonlinear_arith)
        requires
            0 <= j <= 100,
            0 <= k <= 100,
            c >= 0,
            e == 0x20_0000_0000_0000,
    ;
    assert(j * d <= c) by (nonlinear_arith)
        requires
            (j * d) * e <= e * c,
            e > 0,
    ;
    assert(j * b == j * c + j * d) by (nonlinear_arith)
        requires
            b == c + d,
    ;
    assert((j + k + 1) * c == j * c + k * c + c) by (nonlinear_arith);
}

/// Being close is kept when both numbers are multiplied.
proof fn lemma_close_times(a: int, b: int, k: int, x: int)
    requires
        x >= 0,
        is_close(a, b, k),
    ensures
        is_close(a * x, b * x, k),
{
    let e: int = 0x20_0000_0000_0000;
    if a >= b {
        assert(a * x >= b * x && (a * x - b * x) * e <= k * (b * x)) by (nonlinear_arith)
            requires
                (a - b) * e <= k * b,
                a >= b,
                x >= 0,
        ;
    } else {
        assert(a * x <= b * x && (b * x - a * x) * e <= k * (b * x)) by (nonlinear_arith)
            requires
                (b - a) * e <= k * b,
                a < b,
                x >= 0,
        ;
    }
}

/// Being close is kept when a common factor is taken out.
proof fn lemma_close_over(a: int, b: int, k: int, x: int)
    requires
        x > 0,
        is_close(a * x, b * x, k),
    ensures
        is_close(a, b, k),
{
    let e: int = 0x20_0000_0000_0000;
    if a >= b {
        assert(a * x >= b * x) by (nonlinear_arith)
            requires
                a >= b,
                x > 0,
        ;
        assert((a - b) * e <= k * b) by (nonlinear_arith)
            requires
                (a * x - b * x) * e <= k * (b * x),
                x > 0,
        ;
    } else {
        assert(a * x < b * x) by (nonlinear_arith)
            requires
                a < b,
                x > 0,
        ;
        assert((b - a) * e <= k * b) by (nonlinear_arith)
            requires
                (b * x - a * x) * e <= k * (b * x),
                x > 0,
        ;
    }
}

/// The constants: one has the value of the scale, and nine tenths is close to
/// nine tenths of it.
proof fn lemma_constants()
    ensures
        units(ONE as int) == unit_scale(),
        unit_scale() > 0,
        is_close(9 * unit_scale(), 10 * units(NINE_TENTHS as int), 1),
        pow2(1073) <= units(NINE_TENTHS as int) <= unit_scale(),
        units(BINADE as int) == BINADE,
        BINADE == pow2(52),
        units(0x7e70_0000_0000_0000) == pow2(2074),
        units(ONE - 1) * 0x20_0000_0000_0000 == unit_scale() * 0x1f_ffff_ffff_ffff,
{
    let h = BINADE as int;
    vstd::arithmetic::power2::lemma2_to64();
    vstd::arithmetic::power2::lemma2_to64_rest();
    lemma_units_of_parts(0, h);
    lemma_units_of_parts(1022, h);
    assert(1022 * h + h == ONE);
    lemma_pow2_adds(52, 1022);
    lemma_pow2_pos(1074);
    let q = pow2(1021) as int;
    lemma_pow2_pos(1021);
    lemma_units_of_parts(1021, 0x1c_cccc_cccc_cccd);
    assert(1021 * h + 0x1c_cccc_cccc_cccd == NINE_TENTHS);
    lemma_pow2_adds(53, 1021);
    lemma_pow2_adds(52, 1021);
    lemma_units_of_parts(1021, 2 * h - 1);
    assert(1021 * h + (2 * h - 1) == ONE - 1);
    lemma_units_of_parts(2022, h);
    assert(2022 * h + h == 0x7e70_0000_0000_0000);
    lemma_pow2_adds(52, 2022);
    assert(h * pow2(2022) == pow2(2074)) by (nonlinear_arith)
        requires
            pow2(2074) == pow2(52) * pow2(2022),
            h == pow2(52),
    ;
}

/// What ranks are multiplied with where the total exceeds a limit is close to
/// nine tenths of the limit divided by the total.
proof fn lemma_factor(max: Rank, total: Rank)
    requires
        is_plain(max),
        ONE <= max.bits < total.bits,
        total.bits <= 0x7e70_0000_0000_0000,
    ensures
        ({
            let factor = (Rank { bits: NINE_TENTHS }).product(max).quotient(total);
            &&& BINADE <= factor.bits <= ONE
            &&& is_close(
                9 * max.value() * unit_scale(),
                10 * total.value() * factor.value(),
                5,
            )
        }),
{
    let c = units(NINE_TENTHS as int);
    let s = unit_scale();
    let m = max.value();
    let t = total.value();
    lemma_constants();
    lemma_units_increase(0, max.bits as int);
    lemma_units_increase(max.bits as int, total.bits as int);
    if ONE < max.bits {
        lemma_units_increase(ONE as int, max.bits as int);
    }
    if total.bits < 0x7e70_0000_0000_0000 {
        lemma_units_increase(total.bits as int, 0x7e70_0000_0000_0000);
    }
    let portion = (Rank { bits: NINE_TENTHS }).product(max);
    let pm = rounded(c * m, s) as int;
    assert(c * m >= c * s && c * m <= m * s && c * m >= 0) by (nonlinear_arith)
        requires
            m >= s,
            0 <= c <= s,
            s > 0,
    ;
    lemma_rounded_is_nearest(c * m, s);
    lemma_rounding_order(pm, NINE_TENTHS as int, c * m, s);
    lemma_rounding_order(pm, max.bits as int, c * m, s);
    assert(portion.bits == pm);
    rounding_is_close(pm, c * m, s);
    let p = portion.value();
    assert(p == units(pm));
    assert(p >= c) by {
        if pm > NINE_TENTHS {
            lemma_units_increase(NINE_TENTHS as int, pm);
        }
    }
    assert(p <= m) by {
        if pm < max.bits {
            lemma_units_increase(pm, max.bits as int);
        }
    }
    let factor = portion.quotient(total);
    let fm = rounded(p * s, t) as int;
    assert(p * s >= 0 && p * s <= s * t) by (nonlinear_arith)
        requires
            0 <= p <= t,
            s > 0,
    ;
    lemma_rounded_is_nearest(p * s, t);
    assert(p * s >= BINADE * t) by {
        let a = pow2(1073) as int;
        let b = pow2(2074) as int;
        lemma_pow2_adds(1073, 1074);
        lemma_pow2_adds(52, 2074);
        lemma_pow2_strictly_increases(2126, 2147);
        assert(p * s >= a * s) by (nonlinear_arith)
            requires
                p >= a,
                s > 0,
        ;
        assert(BINADE * t <= BINADE * b) by (nonlinear_arith)
            requires
                t <= b,
        ;
    }
    lemma_rounding_order(fm, BINADE as int, p * s, t);
    lemma_rounding_order(fm, ONE as int, p * s, t);
    assert(factor.bits == fm);
    rounding_is_close(fm, p * s, t);
    let f = factor.value();
    assert(f == units(fm));
    lemma_units_increase(0, fm);
    // From 9 * m * s over 10 * c * m and 10 * p * s to 10 * t * f.
    lemma_close_times(9 * s, 10 * c, 1, m);
    assert((9 * s) * m == 9 * m * s) by (nonlinear_arith);
    lemma_close_times(c * m, p * s, 1, 10);
    assert((10 * c) * m == (c * m) * 10) by (nonlinear_arith);
    assert((p * s) * 10 >= 0);
    lemma_close_chain(9 * m * s, (c * m) * 10, (p * s) * 10, 1, 1);
    lemma_close_times(p * s, f * t, 1, 10);
    assert(f * t >= 0) by (nonlinear_arith)
        requires
            f >= 0,
            t >= 0,
    ;
    lemma_close_chain(9 * m * s, (p * s) * 10, (f * t) * 10, 3, 1);
    assert((f * t) * 10 == 10 * t * f) by (nonlinear_arith);
}

/// A rank that is scaled down is close to the exact result, and where it is tiny,
/// close to within the smallest number. Which side of one the exact result lies
/// on decides, but where that is as close to one as ranks are computed.
pub proof fn scaled_ranks_are_close(rank: Rank, max: Rank, total: Rank)
    requires
        is_plain(rank),
        is_plain(max),
        ONE <= max.bits < total.bits,
        total.bits <= 0x7e70_0000_0000_0000,
    ensures
        ({
            let result = rank.product(
                (Rank { bits: NINE_TENTHS }).product(max).quotient(total),
            );
            let exact = 9 * max.value() * rank.value();
            let one = 10 * total.value() * unit_scale();
            &&& is_plain(result)
            &&& gap(exact, 10 * total.value() * result.value()) * 0x20_0000_0000_0000 <= 70
                * total.value() * result.value() + 11 * total.value() * 0x20_0000_0000_0000
            &&& result.bits >= ONE ==> is_close(exact, 10 * total.value() * result.value(), 7)
            &&& exact * 0x20_0000_0000_0000 >= one * 0x20_0000_0000_0007 ==> result.bits >= ONE
            &&& exact * 0x20_0000_0000_0000 <= one * 0x1f_ffff_ffff_fff9 ==> result.bits < ONE
        }),
{
    let s = unit_scale();
    let r = rank.value();
    let m = max.value();
    let t = total.value();
    let factor = (Rank { bits: NINE_TENTHS }).product(max).quotient(total);
    let f = factor.value();
    let result = rank.product(factor);
    let e: int = 0x20_0000_0000_0000;
    lemma_factor(max, total);
    lemma_constants();
    lemma_units_increase(0, total.bits as int);
    lemma_units_increase(0, factor.bits as int);
    assert(f <= s) by {
        if factor.bits < ONE {
            lemma_units_increase(factor.bits as int, ONE as int);
        }
    }
    let ten = 10 * t;
    let x = 9 * m;
    if rank.bits == 0 {
        assert(result.bits == 0);
        assert(x * r == 0) by (nonlinear_arith)
            requires
                r == 0,
        ;
        assert(ten * 0 == 0 && 70 * t * 0 == 0);
        assert(ten * s > 0) by (nonlinear_arith)
            requires
                ten > 0,
                s > 0,
        ;
    } else {
        lemma_units_increase(0, rank.bits as int);
        let n = rounded(r * f, s) as int;
        assert(0 <= r * f <= r * s) by (nonlinear_arith)
            requires
                r >= 0,
                0 <= f <= s,
        ;
        lemma_rounded_is_nearest(r * f, s);
        lemma_rounding_order(n, rank.bits as int, r * f, s);
        lemma_rounding_order(n, ONE as int, r * f, s);
        lemma_rounding_order(n, ONE - 1, r * f, s);
        assert(result.bits == n);
        let y = result.value();
        assert(y == units(n));
        if n >= BINADE {
            rounding_is_close(n, r * f, s);
            lemma_units_increase(0, n);
            lemma_close_times(x * s, ten * f, 5, r);
            lemma_close_times(r * f, y * s, 1, ten);
            assert((ten * f) * r == (r * f) * ten) by (nonlinear_arith);
            assert((y * s) * ten >= 0) by (nonlinear_arith)
                requires
                    y >= 0,
                    s >= 0,
                    ten >= 0,
            ;
            lemma_close_chain((x * s) * r, (r * f) * ten, (y * s) * ten, 5, 1);
            assert((x * s) * r == (x * r) * s) by (nonlinear_arith);
            assert((y * s) * ten == (ten * y) * s) by (nonlinear_arith);
            lemma_close_over(x * r, ten * y, 7, s);
            assert(7 * (ten * y) == 70 * t * y) by (nonlinear_arith)
                requires
                    ten == 10 * t,
            ;
        } else {
            lemma_tiny(x * r, r * f, s, t, n, x, r, f);
        }
        lemma_clear_cases(r, f, s, x, ten, units(ONE - 1));
    }
}

/// A tiny rank that was scaled down differs from the exact result by little more
/// than the smallest number.
proof fn lemma_tiny(xr: int, rf: int, s: int, t: int, y: int, x: int, r: int, f: int)
    requires
        xr == x * r,
        rf == r * f,
        s > 0,
        t > 0,
        r > 0,
        f > 0,
        0 <= y < BINADE,
        is_nearest(y, rf, s),
        is_close(x * s, 10 * t * f, 5),
    ensures
        gap(xr, 10 * t * y) * 0x20_0000_0000_0000 <= 70 * t * y + 11 * t * 0x20_0000_0000_0000,
{
    let e: int = 0x20_0000_0000_0000;
    vstd::arithmetic::power2::lemma2_to64();
    assert(units(y + 1) == y + 1) by {
        if y + 1 == BINADE {
            lemma_units_of_parts(0, BINADE as int);
        }
    }
    let ys = y * s;
    assert(rf <= ys + s) by (nonlinear_arith)
        requires
            2 * rf <= (y + (y + 1)) * s,
            ys == y * s,
            s > 0,
    ;
    assert(rf > 0) by (nonlinear_arith)
        requires
            rf == r * f,
            r > 0,
            f > 0,
    ;
    assert(ys >= 0) by (nonlinear_arith)
        requires
            ys == y * s,
            y >= 0,
            s > 0,
    ;
    assert(rf >= ys - s) by {
        if y > 0 {
            assert(rf >= ys - s) by (nonlinear_arith)
                requires
                    2 * rf >= ((y - 1) + y) * s,
                    ys == y * s,
                    s > 0,
            ;
        }
    }
    let a = x * s;
    let b = 10 * t * f;
    assert(gap(a, b) * e <= 5 * b);
    lemma_close_times(a, b, 5, r);
    let p = xr * s;
    let q = t * rf;
    assert(a * r == p) by (nonlinear_arith)
        requires
            a == x * s,
            xr == x * r,
            p == xr * s,
    ;
    assert(b * r == 10 * q) by (nonlinear_arith)
        requires
            b == 10 * t * f,
            rf == r * f,
            q == t * rf,
    ;
    assert(gap(p, 10 * q) * e <= 50 * q);
    let ty = t * y;
    let tys = t * ys;
    let ts = t * s;
    assert(tys == ty * s) by (nonlinear_arith)
        requires
            tys == t * ys,
            ys == y * s,
            ty == t * y,
    ;
    assert(q <= tys + ts && q >= tys - ts) by (nonlinear_arith)
        requires
            q == t * rf,
            rf <= ys + s,
            rf >= ys - s,
            tys == t * ys,
            ts == t * s,
            t > 0,
    ;
    assert(ts > 0 && tys >= 0) by (nonlinear_arith)
        requires
            ts == t * s,
            tys == t * ys,
            t > 0,
            s > 0,
            ys >= 0,
    ;
    assert(gap(p, 10 * tys) * e <= 70 * tys + 11 * ts * e);
    assert(p - 10 * tys == (xr - 10 * ty) * s) by (nonlinear_arith)
        requires
            p == xr * s,
            tys == ty * s,
    ;
    let d = xr - 10 * ty;
    let bound = 70 * ty + 11 * t * e;
    assert(70 * tys + 11 * ts * e == bound * s) by (nonlinear_arith)
        requires
            tys == ty * s,
            ts == t * s,
            bound == 70 * ty + 11 * t * e,
    ;
    assert(d * e <= bound && -d * e <= bound) by (nonlinear_arith)
        requires
            (d * s) * e <= bound * s,
            -(d * s) * e <= bound * s,
            s > 0,
    ;
    assert(10 * t * y == 10 * ty && 70 * t * y == 70 * ty) by (nonlinear_arith)
        requires
            ty == t * y,
    ;
}

/// A factor that is close to `x / ten` brings what is clearly above one to one
/// at least, and what is clearly below it to the number before one at most.
proof fn lemma_clear_cases(r: int, f: int, s: int, x: int, ten: int, before: int)
    requires
        r > 0,
        f > 0,
        s > 0,
        ten > 0,
        is_close(x * s, ten * f, 5),
        before * 0x20_0000_0000_0000 == s * 0x1f_ffff_ffff_ffff,
    ensures
        (x * r) * 0x20_0000_0000_0000 >= (ten * s) * 0x20_0000_0000_0007 ==> r * f >= s * s,
        (x * r) * 0x20_0000_0000_0000 <= (ten * s) * 0x1f_ffff_ffff_fff9 ==> r * f <= before * s,
{
    let e: int = 0x20_0000_0000_0000;
    let a = x * s;
    let b = ten * f;
    assert((a - b) * e <= 5 * b && (b - a) * e <= 5 * b);
    assert(a * e <= b * (e + 5) && a * e >= b * (e - 5));
    assert((a * r) * e <= (b * r) * (e + 5) && (a * r) * e >= (b * r) * (e - 5)) by (
    nonlinear_arith)
        requires
            a * e <= b * (e + 5),
            a * e >= b * (e - 5),
            r > 0,
    ;
    assert(a * r == (x * r) * s) by (nonlinear_arith)
        requires
            a == x * s,
    ;
    assert(b * r == ten * (r * f)) by (nonlinear_arith)
        requires
            b == ten * f,
    ;
    let rf = r * f;
    let xr = x * r;
    let ts = ten * s;
    if xr * e >= ts * (e + 7) {
        assert((xr * s) * e >= (ts * s) * (e + 7)) by (nonlinear_arith)
            requires
                xr * e >= ts * (e + 7),
                s > 0,
        ;
        assert(ts * s == ten * (s * s)) by (nonlinear_arith)
            requires
                ts == ten * s,
        ;
        let ss = s * s;
        assert(ss > 0) by (nonlinear_arith)
            requires
                s > 0,
                ss == s * s,
        ;
        assert(rf >= ss) by (nonlinear_arith)
            requires
                (ten * ss) * (e + 7) <= (ten * rf) * (e + 5),
                ten > 0,
                ss > 0,
                e > 0,
        ;
    }
    if xr * e <= ts * (e - 7) {
        assert((xr * s) * e <= (ts * s) * (e - 7)) by (nonlinear_arith)
            requires
                xr * e <= ts * (e - 7),
                s > 0,
        ;
        assert(ts * s == ten * (s * s)) by (nonlinear_arith)
            requires
                ts == ten * s,
        ;
        let ss = s * s;
        assert(ss > 0) by (nonlinear_arith)
            requires
                s > 0,
                ss == s * s,
        ;
        assert((ten * rf) * (e - 5) <= (ten * ss) * (e - 7));
        assert(rf * (e - 5) <= ss * (e - 7)) by (nonlinear_arith)
            requires
                (ten * rf) * (e - 5) <= (ten * ss) * (e - 7),
                ten > 0,
        ;
        assert((before * s) * e == ss * (e - 1)) by (nonlinear_arith)
            requires
                before * e == s * (e - 1),
                ss == s * s,
        ;
        let bs = before * s;
        // rf * e * (e - 5) <= ss * e * (e - 7) <= ss * (e - 1) * (e - 5).
        assert(rf * e * (e - 5) <= ss * e * (e - 7)) by (nonlinear_arith)
            requires
                rf * (e - 5) <= ss * (e - 7),
                e > 0,
        ;
        assert(e * (e - 7) <= (e - 1) * (e - 5));
        assert(ss * e * (e - 7) <= ss * (e - 1) * (e - 5)) by (nonlinear_arith)
            requires
                e * (e - 7) <= (e - 1) * (e - 5),
                ss > 0,
        ;
        assert(ss * (e - 1) * (e - 5) == bs * e * (e - 5)) by (nonlinear_arith)
            requires
                bs * e == ss * (e - 1),
        ;
        assert(rf <= bs) by (nonlinear_arith)
            requires
                rf * e * (e - 5) <= bs * e * (e - 5),
                e == 0x20_0000_0000_0000,
        ;
    }
}

/// A number that needs no rounding is not changed by it.
proof fn lemma_exact(magnitude: int, den: int)
    requires
        0 <= magnitude < INFINITY,
        den > 0,
    ensures
        rounded(units(magnitude) * den, den) == magnitude,
{
    let u = units(magnitude);
    lemma_units_step(magnitude);
    assert(2 * (u * den) < (u + units(magnitude + 1)) * den) by (nonlinear_arith)
        requires
            u < units(magnitude + 1),
            den > 0,
    ;
    if magnitude > 0 {
        lemma_units_step(magnitude - 1);
        assert(2 * (u * den) > (units(magnitude - 1) + u) * den) by (nonlinear_arith)
            requires
                u > units(magnitude - 1),
                den > 0,
        ;
    }
    lemma_rounded(magnitude as u64, u * den, den);
}

/// The next binade holds the doubles.
proof fn lemma_double(magnitude: int)
    requires
        BINADE <= magnitude,
    ensures
        units(magnitude + BINADE) == 2 * units(magnitude),
{
    let h = BINADE as int;
    let count = (magnitude / h - 1) as nat;
    let mantissa = h + magnitude % h;
    vstd::arithmetic::div_mod::lemma_fundamental_div_mod(magnitude, h);
    assert(magnitude / h >= 1);
    assert(magnitude == count * h + mantissa && magnitude + h == (count + 1) * h + mantissa) by (
    nonlinear_arith)
        requires
            magnitude == h * (magnitude / h) + magnitude % h,
            count == magnitude / h - 1,
            mantissa == h + magnitude % h,
    ;
    lemma_units_of_parts(count, mantissa);
    lemma_units_of_parts(count + 1, mantissa);
    lemma_pow2_unfold(count + 1);
    assert(mantissa * pow2(count + 1) == 2 * (mantissa * pow2(count))) by (nonlinear_arith)
        requires
            pow2(count + 1) == 2 * pow2(count),
    ;
}

/// Multiplying by four, two, a half or a quarter is exact, but for numbers that
/// are so large or so small that the result is out of range.
pub proof fn powers_of_two_scale_exactly(rank: Rank)
    requires
        rank.bits == 0 || 3 * BINADE <= rank.bits < INFINITY - 2 * BINADE,
    ensures
        rank.product(Rank { bits: FOUR }).value() == 4 * rank.value(),
        rank.product(Rank { bits: TWO }).value() == 2 * rank.value(),
        2 * rank.product(Rank { bits: HALF }).value() == rank.value(),
        4 * rank.product(Rank { bits: QUARTER }).value() == rank.value(),
{
    if rank.bits > 0 {
        let m = rank.bits as int;
        let h = BINADE as int;
        let u = units(m);
        let s = unit_scale();
        lemma_constants();
        lemma_double(QUARTER as int);
        lemma_double(HALF as int);
        lemma_double(ONE as int);
        lemma_double(TWO as int);
        lemma_double(m);
        lemma_double(m + h);
        lemma_double(m - h);
        lemma_double(m - 2 * h);
        let half = units(HALF as int);
        let quarter = units(QUARTER as int);
        assert(u * (4 * s) == (4 * u) * s) by (nonlinear_arith);
        assert(u * (2 * s) == (2 * u) * s) by (nonlinear_arith);
        assert(u * half == units(m - h) * s) by (nonlinear_arith)
            requires
                u == 2 * units(m - h),
                s == 2 * half,
        ;
        assert(u * quarter == units(m - 2 * h) * s) by (nonlinear_arith)
            requires
                u == 4 * units(m - 2 * h),
                s == 4 * quarter,
        ;
        lemma_exact(m + 2 * h, s);
        lemma_exact(m + h, s);
        lemma_exact(m - h, s);
        lemma_exact(m - 2 * h, s);
    }
}

/// In the total order of numbers, smaller values come first.
pub proof fn positions_follow_values(a: Rank, b: Rank)
    requires
        !a.is_nan(),
        !b.is_nan(),
    ensures
        a.total_position() <= b.total_position() ==> a.value() <= b.value(),
        a.value() < b.value() ==> a.total_position() < b.total_position(),
{
    let x = a.magnitude();
    let y = b.magnitude();
    if x > 0 {
        lemma_units_increase(0, x);
    }
    if y > 0 {
        lemma_units_increase(0, y);
    }
    if x < y {
        lemma_units_increase(x, y);
    } else if y < x {
        lemma_units_increase(y, x);
    }
}

/// No number is nearer to a quotient than the one that it is rounded to.
proof fn lemma_none_is_nearer(magnitude: int, other: int, num: int, den: int)
    requires
        den > 0,
        is_nearest(magnitude, num, den),
        0 <= other <= INFINITY,
    ensures
        gap(num, units(magnitude) * den) <= gap(num, units(other) * den),
{
    let u = units(magnitude);
    let v = units(other);
    if other > magnitude {
        lemma_units_step(magnitude);
        if magnitude + 1 < other {
            lemma_units_increase(magnitude + 1, other);
        }
        let next = units(magnitude + 1);
        assert(u * den + next * den == (u + next) * den) by (nonlinear_arith);
        assert(u * den <= next * den <= v * den) by (nonlinear_arith)
            requires
                u <= next <= v,
                den > 0,
        ;
    } else if other < magnitude {
        lemma_units_step(magnitude - 1);
        if other < magnitude - 1 {
            lemma_units_increase(other, magnitude - 1);
        }
        let next = units(magnitude - 1);
        assert(next * den + u * den == (next + u) * den) by (nonlinear_arith);
        assert(v * den <= next * den <= u * den) by (nonlinear_arith)
            requires
                v <= next <= u,
                den > 0,
        ;
    }
}

/// A quotient that is rounded is at least as near as any number of either sign.
proof fn lemma_signed_nearest(negative: bool, num: int, den: int, other: Rank)
    requires
        den > 0,
        num >= 0,
        is_finite(other),
    ensures
        ({
            let exact = if negative {
                -num
            } else {
                num
            };
            gap(exact, signed(negative, rounded(num, den)).value() * den) <= gap(
                exact,
                other.value() * den,
            )
        }),
{
    let m = rounded(num, den) as int;
    lemma_rounded_is_nearest(num, den);
    lemma_none_is_nearer(m, other.magnitude(), num, den);
    lemma_none_is_nearer(m, 0, num, den);
    let u = units(m);
    let v = units(other.magnitude());
    if other.magnitude() > 0 {
        lemma_units_increase(0, other.magnitude());
    }
    assert(0 * den == 0);
    assert((-u) * den == -(u * den)) by (nonlinear_arith);
    assert((-v) * den == -(v * den)) by (nonlinear_arith);
    assert(v * den >= 0) by (nonlinear_arith)
        requires
            v >= 0,
            den > 0,
    ;
}

/// A sum is correctly rounded: no finite number is nearer to the exact sum.
pub proof fn no_number_is_nearer_to_a_sum(a: Rank, b: Rank, other: Rank)
    requires
        is_finite(a),
        is_finite(b),
        is_finite(other),
    ensures
        gap(a.value() + b.value(), a.sum(b).value()) <= gap(a.value() + b.value(), other.value()),
{
    let exact = a.value() + b.value();
    if exact > 0 {
        lemma_signed_nearest(false, exact, 1, other);
    } else if exact < 0 {
        lemma_signed_nearest(true, -exact, 1, other);
    } else {
        assert(a.sum(b).value() == 0);
    }
}

/// A product is correctly rounded: no finite number is nearer to the exact
/// product.
pub proof fn no_number_is_nearer_to_a_product(a: Rank, b: Rank, other: Rank)
    requires
        is_finite(a),
        is_finite(b),
        is_finite(other),
    ensures
        gap(a.value() * b.value(), a.product(b).value() * unit_scale()) <= gap(
            a.value() * b.value(),
            other.value() * unit_scale(),
        ),
{
    let s = unit_scale();
    let x = units(a.magnitude());
    let y = units(b.magnitude());
    let negative = a.negative() != b.negative();
    lemma_pow2_pos(1074);
    lemma_zero_value(a);
    lemma_zero_value(b);
    if a.magnitude() > 0 {
        lemma_units_increase(0, a.magnitude());
    }
    if b.magnitude() > 0 {
        lemma_units_increase(0, b.magnitude());
    }
    assert(x * y >= 0) by (nonlinear_arith)
        requires
            x >= 0,
            y >= 0,
    ;
    assert(a.value() * b.value() == (if negative {
        -(x * y)
    } else {
        x * y
    })) by {
        assert((-x) * y == -(x * y)) by (nonlinear_arith);
        assert(x * (-y) == -(x * y)) by (nonlinear_arith);
        assert((-x) * (-y) == x * y) by (nonlinear_arith);
    }
    if a.magnitude() == 0 || b.magnitude() == 0 {
        assert(x * y == 0) by (nonlinear_arith)
            requires
                x == 0 || y == 0,
        ;
        assert(a.product(b).value() == 0);
        assert(0 * s == 0);
    } else {
        lemma_signed_nearest(negative, x * y, s, other);
    }
}

/// A quotient is correctly rounded: no finite number is nearer to the exact
/// quotient.
pub proof fn no_number_is_nearer_to_a_quotient(a: Rank, b: Rank, other: Rank)
    requires
        is_finite(a),
        is_finite(b),
        b.magnitude() > 0,
        is_finite(other),
    ensures
        gap(a.value() * unit_scale(), a.quotient(b).value() * b.value()) <= gap(
            a.value() * unit_scale(),
            other.value() * b.value(),
        ),
{
    let s = unit_scale();
    let x = units(a.magnitude());
    let y = units(b.magnitude());
    let q = a.quotient(b).value();
    let o = other.value();
    let negative = a.negative() != b.negative();
    lemma_pow2_pos(1074);
    lemma_units_increase(0, b.magnitude());
    if a.magnitude() > 0 {
        lemma_units_increase(0, a.magnitude());
    }
    assert(x * s >= 0) by (nonlinear_arith)
        requires
            x >= 0,
            s > 0,
    ;
    assert((-x) * s == -(x * s)) by (nonlinear_arith);
    assert(q * (-y) == -(q * y)) by (nonlinear_arith);
    assert(o * (-y) == -(o * y)) by (nonlinear_arith);
    if a.magnitude() == 0 {
        assert(q == 0);
        assert(0 * s == 0 && 0 * y == 0);
    } else {
        lemma_signed_nearest(negative, x * s, y, other);
    }
}

/// The order of the operands does not matter to a sum or a product.
pub proof fn sums_and_products_commute(a: Rank, b: Rank)
    ensures
        a.sum(b) == b.sum(a),
        a.product(b) == b.product(a),
{
    let x = units(a.magnitude());
    let y = units(b.magnitude());
    assert(x * y == y * x) by (nonlinear_arith);
}

/// What is not a number gives no number. Neither do two opposite infinities that
/// are added, zero times infinity, or zero over zero and infinity over infinity.
/// Otherwise infinity gives infinity, and so does a division by zero.
pub proof fn no_number_comes_of_none(a: Rank, b: Rank)
    ensures
        a.is_nan() || b.is_nan() ==> a.sum(b).is_nan() && a.product(b).is_nan() && a.quotient(
            b,
        ).is_nan() && !a.greater(b),
        a.is_infinite() && b.is_infinite() ==> a.quotient(b).is_nan() && (if a == b {
            a.sum(b) == a
        } else {
            a.sum(b).is_nan()
        }),
        a.is_infinite() && is_finite(b) ==> a.sum(b) == a && b.sum(a) == a,
        a.is_infinite() && !b.is_nan() ==> (if b.magnitude() == 0 {
            a.product(b).is_nan()
        } else {
            a.product(b).is_infinite()
        }),
        a.is_infinite() && is_finite(b) ==> a.quotient(b).is_infinite() && b.quotient(
            a,
        ).magnitude() == 0,
        is_finite(a) && b.magnitude() == 0 ==> (if a.magnitude() == 0 {
            a.quotient(b).is_nan()
        } else {
            a.quotient(b).is_infinite()
        }),
{
}

/// A product or a quotient is negative exactly if one of the two numbers is. A
/// sum of zero is negative only if both are.
pub proof fn signs_multiply(a: Rank, b: Rank)
    ensures
        !a.product(b).is_nan() ==> a.product(b).negative() == (a.negative() != b.negative()),
        !a.quotient(b).is_nan() ==> a.quotient(b).negative() == (a.negative() != b.negative()),
        is_finite(a) && is_finite(b) && a.value() + b.value() == 0 ==> a.sum(b).magnitude() == 0
            && a.sum(b).negative() == (a.negative() && b.negative()),
{
    let x = units(a.magnitude());
    let y = units(b.magnitude());
    let s = unit_scale();
    lemma_pow2_pos(1074);
    if a.magnitude() > 0 {
        lemma_units_increase(0, a.magnitude());
    }
    if b.magnitude() > 0 {
        lemma_units_increase(0, b.magnitude());
    }
    assert(x * y >= 0 && x * s >= 0) by (nonlinear_arith)
        requires
            x >= 0,
            y >= 0,
            s >= 0,
    ;
    lemma_rounded_is_nearest(x * y, s);
    if y > 0 {
        lemma_rounded_is_nearest(x * s, y);
    }
}

/// One number is greater than another exactly if it comes behind it in the total
/// order, but that both zeros are equal.
pub proof fn greater_numbers_come_later(a: Rank, b: Rank)
    requires
        !a.is_nan(),
        !b.is_nan(),
    ensures
        a.greater(b) <==> a.total_position() > b.total_position() && !(a.magnitude() == 0
            && b.magnitude() == 0),
{
    let x = a.magnitude();
    let y = b.magnitude();
    if x > 0 {
        lemma_units_increase(0, x);
    }
    if y > 0 {
        lemma_units_increase(0, y);
    }
    if x < y {
        lemma_units_increase(x, y);
    } else if y < x {
        lemma_units_increase(y, x);
    }
}

/// Where two numbers are equally near to a quotient, it is rounded to the even
/// one.
proof fn lemma_ties(magnitude: int, other: int, num: int, den: int)
    requires
        den > 0,
        is_nearest(magnitude, num, den),
        0 <= other <= INFINITY,
        other != magnitude,
        gap(num, units(magnitude) * den) == gap(num, units(other) * den),
    ensures
        magnitude % 2 == 0,
{
    let u = units(magnitude);
    let v = units(other);
    if other > magnitude {
        lemma_units_step(magnitude);
        if magnitude + 1 < other {
            lemma_units_increase(magnitude + 1, other);
        }
        let next = units(magnitude + 1);
        assert(u * den + next * den == (u + next) * den) by (nonlinear_arith);
        assert(u * den < next * den <= v * den) by (nonlinear_arith)
            requires
                u < next <= v,
                den > 0,
        ;
    } else {
        lemma_units_step(magnitude - 1);
        if other < magnitude - 1 {
            lemma_units_increase(other, magnitude - 1);
        }
        let next = units(magnitude - 1);
        assert(next * den + u * den == (next + u) * den) by (nonlinear_arith);
        assert(v * den <= next * den < u * den) by (nonlinear_arith)
            requires
                v <= next < u,
                den > 0,
        ;
    }
}

/// Of two numbers that are equally near to the exact sum, product or quotient,
/// the even one is the result.
pub proof fn ties_go_to_the_even_number(a: Rank, b: Rank, other: Rank)
    requires
        is_plain(a),
        is_plain(b),
        is_plain(other),
        b.bits > 0,
    ensures
        ({
            let exact = a.value() + b.value();
            let sum = a.sum(b);
            other != sum && gap(exact, sum.value()) == gap(exact, other.value()) ==> sum.bits % 2
                == 0
        }),
        ({
            let exact = a.value() * b.value();
            let product = a.product(b);
            other != product && gap(exact, product.value() * unit_scale()) == gap(
                exact,
                other.value() * unit_scale(),
            ) ==> product.bits % 2 == 0
        }),
        ({
            let exact = a.value() * unit_scale();
            let quotient = a.quotient(b);
            other != quotient && gap(exact, quotient.value() * b.value()) == gap(
                exact,
                other.value() * b.value(),
            ) ==> quotient.bits % 2 == 0
        }),
{
    let s = unit_scale();
    let x = a.value();
    let y = b.value();
    lemma_pow2_pos(1074);
    lemma_units_increase(0, b.bits as int);
    if a.bits > 0 {
        lemma_units_increase(0, a.bits as int);
    }
    lemma_rounded_is_nearest(x + y, 1);
    let sum = a.sum(b);
    assert(sum.bits == rounded(x + y, 1));
    if other != sum && gap(x + y, sum.value()) == gap(x + y, other.value()) {
        lemma_ties(sum.bits as int, other.bits as int, x + y, 1);
    }
    if a.bits > 0 {
        assert(x * y >= 0 && x * s >= 0) by (nonlinear_arith)
            requires
                x >= 0,
                y >= 0,
                s >= 0,
        ;
        lemma_rounded_is_nearest(x * y, s);
        lemma_rounded_is_nearest(x * s, y);
        let product = a.product(b);
        let quotient = a.quotient(b);
        if other != product && gap(x * y, product.value() * s) == gap(x * y, other.value() * s) {
            lemma_ties(product.bits as int, other.bits as int, x * y, s);
        }
        if other != quotient && gap(x * s, quotient.value() * y) == gap(
            x * s,
            other.value() * y,
        ) {
            lemma_ties(quotient.bits as int, other.bits as int, x * s, y);
        }
    }
}

/// A positive number is clamped to itself, and all else to zero.
pub proof fn only_positive_numbers_are_kept(rank: Rank)
    ensures
        rank.clamped().bits == (if 0 < rank.bits <= INFINITY {
            rank.bits
        } else {
            0
        }),
{
    if rank.magnitude() > 0 {
        lemma_units_increase(0, rank.magnitude());
    }
}

/// The total order tells all patterns apart. Negative patterns come first; what
/// is not a number comes at the end of its sign.
pub proof fn the_total_order_tells_patterns_apart(a: Rank, b: Rank)
    ensures
        a.total_position() == b.total_position() <==> a == b,
        a.bits >= SIGN && b.bits < SIGN ==> a.total_position() < b.total_position(),
        a.bits < SIGN && b.bits < SIGN ==> (a.total_position() < b.total_position() <==> a.bits
            < b.bits),
        a.bits >= SIGN && b.bits >= SIGN ==> (a.total_position() < b.total_position() <==> a.bits
            > b.bits),
{
}

} // verus!
