//! What aging does to the ranks.

use vstd::prelude::*;

use crate::db::{aged, aging_factor, is_faint, scaled, total_rank};
use crate::dir::DirView;
use crate::entry_laws::{exact_total, removal_leaves_each_of_the_others};
use crate::entry_laws::the_total_is_the_sum_of_the_ranks;
use crate::rank::{lemma_units_increase, unit_scale, Rank, ONE};
use crate::rank_laws::{gap, is_close, is_finite, is_plain, scaled_ranks_are_close};

verus! {

/// Where the total rank does not exceed the limit, or one of them is not a
/// number, aging changes nothing.
pub proof fn aging_below_the_limit_changes_nothing(dirs: Seq<DirView>, max_age: Rank)
    requires
        total_rank(dirs).is_nan() || max_age.is_nan() || total_rank(dirs).value()
            <= max_age.value(),
    ensures
        aged(dirs, max_age) == dirs,
{
}

/// Where the total rank exceeds the limit, every rank is multiplied by nine
/// tenths of the limit and divided by the total, so that the ranks add up to
/// nine tenths of the limit then, up to rounding. The entries that stay are
/// those whose rank is one or more then, with their paths and accesses; which
/// side of one a rank lies on is open only as far as rounding goes. Numbers are
/// taken to be in a range where neither the quotient nor the product is too
/// small or too large.
pub proof fn aging_scales_to_nine_tenths_of_the_limit(dirs: Seq<DirView>, max_age: Rank) -> (left:
    Seq<int>)
    requires
        forall|i: int| 0 <= i < dirs.len() ==> is_plain((#[trigger] dirs[i]).rank),
        is_plain(max_age),
        max_age.value() >= unit_scale(),
        is_finite(total_rank(dirs)),
        total_rank(dirs).value() > max_age.value(),
        total_rank(dirs).bits <= 0x7e70_0000_0000_0000,
    ensures
        left.no_duplicates(),
        left.len() == aged(dirs, max_age).len(),
        forall|a: int|
            0 <= a < left.len() ==> {
                let entry = #[trigger] aged(dirs, max_age)[a];
                let before = dirs[left[a]];
                &&& 0 <= left[a] < dirs.len()
                &&& entry.path == before.path
                &&& entry.last_accessed == before.last_accessed
                &&& is_plain(entry.rank)
                &&& entry.rank.value() >= unit_scale()
                &&& is_close(
                    9 * max_age.value() * before.rank.value(),
                    10 * total_rank(dirs).value() * entry.rank.value(),
                    7,
                )
            },
        forall|i: int|
            0 <= i < dirs.len() && 9 * max_age.value() * (#[trigger] dirs[i]).rank.value()
                * 0x20_0000_0000_0000 >= 10 * total_rank(dirs).value() * unit_scale()
                * 0x20_0000_0000_0007 ==> left.contains(i),
        forall|i: int|
            0 <= i < dirs.len() && 9 * max_age.value() * (#[trigger] dirs[i]).rank.value()
                * 0x20_0000_0000_0000 <= 10 * total_rank(dirs).value() * unit_scale()
                * 0x1f_ffff_ffff_fff9 ==> !left.contains(i),
{
    let total = total_rank(dirs);
    let smaller = scaled(dirs, aging_factor(dirs, max_age));
    let gone = |i: int| is_faint(smaller[i]);
    the_total_is_the_sum_of_the_ranks(dirs);
    assert(dirs.len() > 0);
    lemma_one();
    lemma_bits_follow_values(max_age, total);
    lemma_bits_follow_values(max_age, Rank { bits: ONE });
    let left = removal_leaves_each_of_the_others(smaller, gone);
    assert forall|i: int| 0 <= i < dirs.len() implies {
        let rank = (#[trigger] smaller[i]).rank;
        let exact = 9 * max_age.value() * dirs[i].rank.value();
        let one = 10 * total.value() * unit_scale();
        &&& is_plain(rank)
        &&& !gone(i) <==> rank.bits >= ONE
        &&& rank.bits >= ONE ==> rank.value() >= unit_scale() && is_close(
            exact,
            10 * total.value() * rank.value(),
            7,
        )
        &&& exact * 0x20_0000_0000_0000 >= one * 0x20_0000_0000_0007 ==> !gone(i)
        &&& exact * 0x20_0000_0000_0000 <= one * 0x1f_ffff_ffff_fff9 ==> gone(i)
    } by {
        scaled_ranks_are_close(dirs[i].rank, max_age, total);
        lemma_bits_follow_values(smaller[i].rank, Rank { bits: ONE });
    }
    assert forall|a: int| 0 <= a < left.len() implies {
        let entry = #[trigger] aged(dirs, max_age)[a];
        let before = dirs[left[a]];
        &&& 0 <= left[a] < dirs.len()
        &&& entry.path == before.path
        &&& entry.last_accessed == before.last_accessed
        &&& is_plain(entry.rank)
        &&& entry.rank.value() >= unit_scale()
        &&& is_close(
            9 * max_age.value() * before.rank.value(),
            10 * total.value() * entry.rank.value(),
            7,
        )
    } by {
        assert(!gone(left[a]));
        assert(aged(dirs, max_age)[a] == smaller[left[a]]);
    }
    assert forall|i: int|
        0 <= i < dirs.len() && 9 * max_age.value() * (#[trigger] dirs[i]).rank.value()
            * 0x20_0000_0000_0000 >= 10 * total.value() * unit_scale() * 0x20_0000_0000_0007
        implies left.contains(i) by {
        assert(is_plain(smaller[i].rank));
        assert(!gone(i));
    }
    assert forall|i: int|
        0 <= i < dirs.len() && 9 * max_age.value() * (#[trigger] dirs[i]).rank.value()
            * 0x20_0000_0000_0000 <= 10 * total.value() * unit_scale() * 0x1f_ffff_ffff_fff9
        implies !left.contains(i) by {
        assert(is_plain(smaller[i].rank));
        assert(gone(i));
        if left.contains(i) {
            let a = left.index_of(i);
            assert(!gone(left[a]));
        }
    }
    left
}

/// Scaled ranks that are each close to the exact result add up to one that is
/// close to the exact sum.
proof fn lemma_scaled_sum(dirs: Seq<DirView>, factor: Rank, m: int, t: int)
    requires
        t > 0,
        forall|i: int|
            0 <= i < dirs.len() ==> {
                let rank = (#[trigger] dirs[i]).rank;
                gap(9 * m * rank.value(), 10 * t * rank.product(factor).value())
                    * 0x20_0000_0000_0000 <= 70 * t * rank.product(factor).value() + 11 * t
                    * 0x20_0000_0000_0000
            },
    ensures
        gap(9 * m * exact_total(dirs), 10 * t * exact_total(scaled(dirs, factor)))
            * 0x20_0000_0000_0000 <= 70 * t * exact_total(scaled(dirs, factor)) + dirs.len() * (11
            * t * 0x20_0000_0000_0000),
    decreases dirs.len(),
{
    let all = scaled(dirs, factor);
    if dirs.len() > 0 {
        let front = dirs.drop_last();
        let last = dirs.last().rank;
        let x = last.value();
        let y = last.product(factor).value();
        assert(dirs[dirs.len() - 1].rank == last);
        assert forall|i: int| 0 <= i < front.len() implies (#[trigger] front[i]) == dirs[i] by {}
        lemma_scaled_sum(front, factor, m, t);
        assert(all.drop_last() =~= scaled(front, factor));
        assert(all.last().rank == last.product(factor));
        let a = exact_total(front);
        let b = exact_total(scaled(front, factor));
        assert(9 * m * (a + x) == 9 * m * a + 9 * m * x) by (nonlinear_arith);
        assert(10 * t * (b + y) == 10 * t * b + 10 * t * y) by (nonlinear_arith);
        assert(70 * t * (b + y) == 70 * t * b + 70 * t * y) by (nonlinear_arith);
        let unit = 11 * t * 0x20_0000_0000_0000;
        assert(dirs.len() * unit == front.len() * unit + unit) by (nonlinear_arith)
            requires
                dirs.len() == front.len() + 1,
        ;
    } else {
        assert(9 * m * 0 == 0 && 10 * t * 0 == 0 && 70 * t * 0 == 0) by (nonlinear_arith);
        assert(0 * (11 * t * 0x20_0000_0000_0000) == 0);
    }
}

/// Before entries are removed, the scaled ranks add up to nine tenths of the
/// limit: ten times their sum and nine times the limit differ by a few parts in
/// 2^53 for each entry, and no more than the tiniest numbers besides.
pub proof fn scaled_ranks_add_up_to_nine_tenths(dirs: Seq<DirView>, max_age: Rank)
    requires
        forall|i: int| 0 <= i < dirs.len() ==> is_plain((#[trigger] dirs[i]).rank),
        is_plain(max_age),
        max_age.value() >= unit_scale(),
        is_finite(total_rank(dirs)),
        total_rank(dirs).value() > max_age.value(),
        total_rank(dirs).bits <= 0x7e70_0000_0000_0000,
    ensures
        ({
            let sum = exact_total(scaled(dirs, aging_factor(dirs, max_age)));
            gap(9 * max_age.value(), 10 * sum) * 0x20_0000_0000_0000 <= 70 * sum + dirs.len() * (9
                * max_age.value() + 11 * 0x20_0000_0000_0000)
        }),
{
    let e: int = 0x20_0000_0000_0000;
    let total = total_rank(dirs);
    let factor = aging_factor(dirs, max_age);
    let m = max_age.value();
    let t = total.value();
    let n = dirs.len() as int;
    the_total_is_the_sum_of_the_ranks(dirs);
    assert(n > 0);
    lemma_one();
    lemma_bits_follow_values(max_age, total);
    lemma_bits_follow_values(max_age, Rank { bits: ONE });
    lemma_units_increase(0, max_age.bits as int);
    assert forall|i: int| 0 <= i < dirs.len() implies {
        let rank = (#[trigger] dirs[i]).rank;
        gap(9 * m * rank.value(), 10 * t * rank.product(factor).value()) * e <= 70 * t
            * rank.product(factor).value() + 11 * t * e
    } by {
        scaled_ranks_are_close(dirs[i].rank, max_age, total);
    }
    lemma_scaled_sum(dirs, factor, m, t);
    let sum = exact_total(scaled(dirs, factor));
    let exact = exact_total(dirs);
    let off = exact - t;
    assert(off * e <= n * t && -off * e <= n * t);
    let p = 9 * m * exact - 10 * t * sum;
    let bound = 70 * t * sum + n * (11 * t * e);
    assert(p * e <= bound && -p * e <= bound);
    // 9 * m * t - 10 * t * sum is p less what the total is off by.
    assert((9 * m * off) * e <= 9 * m * (n * t) && -(9 * m * off) * e <= 9 * m * (n * t)) by (
    nonlinear_arith)
        requires
            off * e <= n * t,
            -off * e <= n * t,
            m >= 0,
    ;
    let d = 9 * m - 10 * sum;
    assert(t * d == p - 9 * m * off) by (nonlinear_arith)
        requires
            d == 9 * m - 10 * sum,
            p == 9 * m * exact - 10 * t * sum,
            off == exact - t,
    ;
    let allowed = 70 * sum + n * (9 * m + 11 * e);
    assert(bound + 9 * m * (n * t) == t * allowed) by (nonlinear_arith)
        requires
            bound == 70 * t * sum + n * (11 * t * e),
            allowed == 70 * sum + n * (9 * m + 11 * e),
    ;
    assert(d * e <= allowed && -d * e <= allowed) by (nonlinear_arith)
        requires
            (t * d) * e <= t * allowed,
            -(t * d) * e <= t * allowed,
            t > 0,
    ;
}

/// One has the value of the scale.
proof fn lemma_one()
    ensures
        (Rank { bits: ONE }).value() == unit_scale(),
{
    vstd::arithmetic::power2::lemma2_to64_rest();
    crate::rank::lemma_units_of_parts(1022, crate::rank::BINADE as int);
    vstd::arithmetic::power2::lemma_pow2_adds(52, 1022);
}

/// Of numbers that are not negative, greater ones have greater patterns.
proof fn lemma_bits_follow_values(a: Rank, b: Rank)
    requires
        is_plain(a),
        is_plain(b),
    ensures
        a.value() < b.value() <==> a.bits < b.bits,
{
    if a.bits < b.bits {
        lemma_units_increase(a.bits as int, b.bits as int);
    } else if b.bits < a.bits {
        lemma_units_increase(b.bits as int, a.bits as int);
    }
}

/// Whatever the numbers are, aging multiplies every rank by one factor, nine
/// tenths of the limit divided by the total, and removes exactly the entries
/// whose rank is below one then.
pub proof fn aging_uses_one_factor_for_all(dirs: Seq<DirView>, max_age: Rank) -> (left: Seq<int>)
    requires
        !total_rank(dirs).is_nan(),
        !max_age.is_nan(),
        total_rank(dirs).value() > max_age.value(),
    ensures
        ({
            let factor = (Rank { bits: 0x3fec_cccc_cccc_cccd }).product(max_age).quotient(
                total_rank(dirs),
            );
            let rows = aged(dirs, max_age);
            &&& left.no_duplicates()
            &&& left.len() == rows.len()
            &&& forall|a: int|
                0 <= a < left.len() ==> {
                    let before = dirs[left[a]];
                    &&& 0 <= left[a] < dirs.len()
                    &&& (#[trigger] rows[a]).path == before.path
                    &&& rows[a].last_accessed == before.last_accessed
                    &&& rows[a].rank == before.rank.product(factor)
                }
            &&& forall|i: int|
                0 <= i < dirs.len() ==> {
                    let rank = (#[trigger] dirs[i]).rank.product(factor);
                    left.contains(i) <==> rank.is_nan() || rank.value() >= unit_scale()
                }
        }),
{
    let smaller = scaled(dirs, aging_factor(dirs, max_age));
    let gone = |i: int| is_faint(smaller[i]);
    let left = removal_leaves_each_of_the_others(smaller, gone);
    lemma_one();
    assert forall|i: int| 0 <= i < dirs.len() implies {
        let rank = (#[trigger] dirs[i]).rank.product(aging_factor(dirs, max_age));
        left.contains(i) <==> rank.is_nan() || rank.value() >= unit_scale()
    } by {
        assert(smaller[i].rank == dirs[i].rank.product(aging_factor(dirs, max_age)));
        if left.contains(i) {
            let a = left.index_of(i);
            assert(!gone(left[a]));
        } else {
            assert(gone(i));
        }
    }
    assert forall|a: int| 0 <= a < left.len() implies aged(dirs, max_age)[a]
        == smaller[left[a]] by {
        assert(0 <= left[a]);
    }
    left
}

} // verus!
