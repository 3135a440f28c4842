//! What adding, removing, scoring, sorting and merging do to each entry.

use vstd::prelude::*;
use vstd::utf8::encode_utf8;

use crate::db::{first_with, is_first_with, rows_of, score_leq, total_rank, with_added};
use crate::dedupe_laws::{left_positions, lemma_absorbed_latest, lemma_left_positions};
use crate::dir::{Dir, DirView, Epoch};
use crate::laws::lemma_first_exists;
use crate::merge::{absorbed, after_merge, combined, is_victim, lemma_absorbed_path};
use crate::merge::{lemma_merged, merged};
use crate::merge::{nothing_to_merge, swap_removed, valid_groups, without, Group};
use crate::rank::{lemma_negative_zero_is_neutral, signed, Rank, BINADE, INFINITY};
use crate::rank_laws::{gap, is_close, is_finite, is_plain, only_positive_numbers_are_kept};
use crate::rank_laws::positions_follow_values;
use crate::rank_laws::{powers_of_two_scale_exactly, sums_are_close, sums_do_not_shrink};
use crate::sort::{leq_of, lemma_sort_ascending, lemma_sort_keeps_class, lemma_sort_permutes};
use crate::sort::{stable_sort, total_preorder, Ordered};
use crate::text::bytes_leq;

verus! {

/// The first entry with a path is the one that is found, and none is found only
/// where no entry has the path.
pub proof fn the_first_entry_with_a_path_is_found(dirs: Seq<DirView>, path: Seq<char>)
    ensures
        match first_with(dirs, path) {
            Some(i) => {
                &&& 0 <= i < dirs.len()
                &&& dirs[i].path == path
                &&& forall|j: int| 0 <= j < i ==> (#[trigger] dirs[j]).path != path
            },
            None => forall|j: int| 0 <= j < dirs.len() ==> (#[trigger] dirs[j]).path != path,
        },
{
    match first_with(dirs, path) {
        Some(i) => {
            assert(is_first_with(dirs, path, i));
        },
        None => {
            assert forall|j: int| 0 <= j < dirs.len() implies (#[trigger] dirs[j]).path
                != path by {
                if dirs[j].path == path {
                    lemma_first_exists(dirs, path, j);
                }
            }
        },
    }
}

/// Adding changes one entry, the first with the path, or puts a new one at the
/// end where there is none. An entry that is new or touched was accessed now,
/// and one that is not keeps its access. All other entries stay as they are.
pub proof fn adding_changes_one_entry(
    dirs: Seq<DirView>,
    path: Seq<char>,
    by: Rank,
    now: Epoch,
    touch: bool,
) -> (i: int)
    ensures
        ({
            let after = with_added(dirs, path, by, now, touch);
            &&& 0 <= i < after.len()
            &&& i <= dirs.len()
            &&& after[i].path == path
            &&& forall|j: int| 0 <= j < i ==> (#[trigger] after[j]).path != path
            &&& forall|j: int| 0 <= j < i ==> (#[trigger] dirs[j]).path != path
            &&& touch ==> after[i].last_accessed == now
            &&& i < dirs.len() ==> after.len() == dirs.len() && dirs[i].path == path
            &&& i < dirs.len() && !touch ==> after[i].last_accessed == dirs[i].last_accessed
            &&& i == dirs.len() ==> after.len() == dirs.len() + 1 && after[i].last_accessed == now
            &&& forall|j: int|
                0 <= j < dirs.len() && j != i ==> #[trigger] after[j] == dirs[j]
        }),
{
    let after = with_added(dirs, path, by, now, touch);
    the_first_entry_with_a_path_is_found(dirs, path);
    match first_with(dirs, path) {
        Some(i) => {
            assert forall|j: int| 0 <= j < i implies (#[trigger] after[j]).path != path by {
                assert(dirs[j].path != path);
            }
            i
        },
        None => {
            assert forall|j: int| 0 <= j < dirs.len() implies (#[trigger] after[j]).path
                != path by {
                assert(dirs[j].path != path);
            }
            dirs.len() as int
        },
    }
}

/// After a visit, the first entry with the path was accessed now, whether it
/// was there before or not.
pub proof fn a_visit_is_an_access_now(dirs: Seq<DirView>, path: Seq<char>, by: Rank, now: Epoch)
    ensures
        ({
            let after = with_added(dirs, path, by, now, true);
            exists|i: int|
                0 <= i < after.len() && (#[trigger] after[i]).path == path && after[i].last_accessed
                    == now && (forall|j: int| 0 <= j < i ==> (#[trigger] after[j]).path != path)
        }),
{
    let i = adding_changes_one_entry(dirs, path, by, now, true);
    assert(with_added(dirs, path, by, now, true)[i].path == path);
}

/// A new entry gets the rank that is added, where that is positive, else zero.
pub proof fn new_entries_get_what_is_added(
    dirs: Seq<DirView>,
    path: Seq<char>,
    by: Rank,
    now: Epoch,
    touch: bool,
)
    requires
        forall|j: int| 0 <= j < dirs.len() ==> (#[trigger] dirs[j]).path != path,
    ensures
        ({
            let entry = with_added(dirs, path, by, now, touch).last();
            &&& 0 < by.bits <= INFINITY ==> entry.rank == by
            &&& !(0 < by.bits <= INFINITY) ==> entry.rank.bits == 0
        }),
{
    the_first_entry_with_a_path_is_found(dirs, path);
    only_positive_numbers_are_kept(by);
}

/// Adding to an entry that is there gives it the sum of both ranks, up to
/// rounding, or zero where the sum is not positive. No rank that is added to is
/// negative.
pub proof fn ranks_are_added_up(
    dirs: Seq<DirView>,
    i: int,
    by: Rank,
    now: Epoch,
    touch: bool,
)
    requires
        0 <= i < dirs.len(),
        forall|j: int| 0 <= j < i ==> (#[trigger] dirs[j]).path != dirs[i].path,
        is_finite(dirs[i].rank),
        is_finite(by),
    ensures
        ({
            let after = with_added(dirs, dirs[i].path, by, now, touch)[i].rank;
            let exact = dirs[i].rank.value() + by.value();
            &&& after.bits <= INFINITY
            &&& exact <= 0 ==> after.bits == 0
            &&& exact > 0 ==> after.bits == INFINITY || is_close(exact, after.value(), 1)
        }),
{
    let rank = dirs[i].rank;
    the_first_entry_with_a_path_is_found(dirs, dirs[i].path);
    let found = first_with(dirs, dirs[i].path)->0;
    if found < i {
        assert(dirs[found].path != dirs[i].path);
    } else if i < found {
        assert(dirs[i].path != dirs[i].path);
    }
    let sum = rank.sum(by);
    let exact = rank.value() + by.value();
    only_positive_numbers_are_kept(sum);
    if exact != 0 {
        crate::rank::lemma_rounded_is_nearest(
            if exact > 0 {
                exact
            } else {
                -exact
            },
            1,
        );
    }
    if is_finite(sum) {
        sums_are_close(rank, by);
        if sum.magnitude() > 0 {
            crate::rank::lemma_units_increase(0, sum.magnitude());
        }
    }
}

/// Removing an entry leaves each of the others: they stay where they are, but
/// that the last one takes the place of the one that goes.
pub proof fn removing_leaves_the_others(dirs: Seq<DirView>, i: int)
    requires
        0 <= i < dirs.len(),
    ensures
        swap_removed(dirs, i).len() == dirs.len() - 1,
        forall|j: int|
            0 <= j < dirs.len() - 1 && j != i ==> #[trigger] swap_removed(dirs, i)[j] == dirs[j],
        i < dirs.len() - 1 ==> swap_removed(dirs, i)[i] == dirs[dirs.len() - 1],
        swap_removed(dirs, i).to_multiset() == dirs.to_multiset().remove(dirs[i]),
{
    broadcast use vstd::seq_lib::group_to_multiset_ensures;

    let moved = dirs.update(i, dirs.last());
    let after = swap_removed(dirs, i);
    assert(after =~= moved.remove(dirs.len() - 1));
    assert(moved[dirs.len() - 1] == dirs.last());
    assert(after.to_multiset() =~= dirs.to_multiset().remove(dirs[i]));
}

/// A score is the rank times four within an hour of the access, times two
/// within a day, half of it within a week, and a quarter later. An access in
/// the future counts as one now. Ranks whose quarter or fourfold is out of
/// range are left out.
pub proof fn scores_weigh_recent_visits(dir: DirView, now: Epoch)
    requires
        dir.rank.bits == 0 || 3 * BINADE <= dir.rank.bits < INFINITY - 2 * BINADE,
    ensures
        ({
            let score = dir.score(now).value();
            let rank = dir.rank.value();
            let age = now - dir.last_accessed;
            &&& age < 3600 ==> score == 4 * rank
            &&& 3600 <= age < 86400 ==> score == 2 * rank
            &&& 86400 <= age < 604800 ==> 2 * score == rank
            &&& 604800 <= age ==> 4 * score == rank
        }),
{
    powers_of_two_scale_exactly(dir.rank);
}

/// A directory does not gain by time that passes.
pub proof fn scores_fall_with_time(dir: DirView, now: Epoch, later: Epoch)
    requires
        dir.rank.bits == 0 || 3 * BINADE <= dir.rank.bits < INFINITY - 2 * BINADE,
        now <= later,
    ensures
        dir.score(later).value() <= dir.score(now).value(),
{
    scores_weigh_recent_visits(dir, now);
    scores_weigh_recent_visits(dir, later);
    if dir.rank.bits > 0 {
        crate::rank::lemma_units_increase(0, dir.rank.bits as int);
    }
}

/// Sorting by score keeps all entries, puts lower scores first, and leaves
/// entries of the same score in their order.
pub proof fn sorting_by_score_puts_low_scores_first(dirs: Seq<DirView>, now: Epoch, score: Rank)
    ensures
        ({
            let sorted = stable_sort(dirs, score_leq(now));
            &&& sorted.len() == dirs.len()
            &&& sorted.to_multiset() == dirs.to_multiset()
            &&& forall|i: int, j: int|
                0 <= i < j < sorted.len() ==> (#[trigger] sorted[i]).score(now).total_position() <= (
                #[trigger] sorted[j]).score(now).total_position()
            &&& forall|i: int, j: int|
                0 <= i < j < sorted.len() && !(#[trigger] sorted[i]).score(now).is_nan()
                    && !(#[trigger] sorted[j]).score(now).is_nan() ==> sorted[i].score(now).value()
                    <= sorted[j].score(now).value()
            &&& sorted.filter(|dir: DirView| dir.score(now) == score) == dirs.filter(
                |dir: DirView| dir.score(now) == score,
            )
        }),
{
    let sorted = stable_sort(dirs, score_leq(now));
    let same = |dir: DirView| dir.score(now) == score;
    lemma_sort_permutes(dirs, score_leq(now));
    lemma_sort_ascending(dirs, score_leq(now));
    lemma_sort_keeps_class(dirs, score_leq(now), same);
    assert forall|i: int, j: int| 0 <= i < j < sorted.len() implies (
    #[trigger] sorted[i]).score(now).total_position() <= (#[trigger] sorted[j]).score(
        now,
    ).total_position() by {
        assert(score_leq(now)(sorted[i], sorted[j]));
    }
    assert forall|i: int, j: int|
        0 <= i < j < sorted.len() && !(#[trigger] sorted[i]).score(now).is_nan() && !(
        #[trigger] sorted[j]).score(now).is_nan() implies sorted[i].score(now).value()
        <= sorted[j].score(now).value() by {
        positions_follow_values(sorted[i].score(now), sorted[j].score(now));
    }
}

/// Bytes come before others where they differ first in a smaller byte, or where
/// they end first.
pub proof fn bytes_are_ordered_by_their_first_difference(a: Seq<u8>, b: Seq<u8>) -> (k: int)
    ensures
        0 <= k <= a.len(),
        k <= b.len(),
        forall|j: int| 0 <= j < k ==> #[trigger] a[j] == b[j],
        k < a.len() && k < b.len() ==> a[k] != b[k],
        bytes_leq(a, b) <==> k == a.len() || (k < b.len() && a[k] < b[k]),
    decreases a.len(),
{
    if a.len() == 0 || b.len() == 0 || a[0] != b[0] {
        0
    } else {
        let x = a.drop_first();
        let y = b.drop_first();
        let k = bytes_are_ordered_by_their_first_difference(x, y);
        assert forall|j: int| 0 <= j < k + 1 implies #[trigger] a[j] == b[j] by {
            if j > 0 {
                assert(x[j - 1] == a[j]);
                assert(y[j - 1] == b[j]);
            }
        }
        k + 1
    }
}

/// Sorting by path keeps all entries, puts them in the order of their paths'
/// bytes, and leaves entries of the same path in their order.
pub proof fn sorting_by_path_goes_by_bytes(dirs: Seq<DirView>, path: Seq<char>)
    ensures
        ({
            let sorted = stable_sort(dirs, leq_of::<Dir>());
            &&& sorted.len() == dirs.len()
            &&& sorted.to_multiset() == dirs.to_multiset()
            &&& forall|i: int, j: int|
                0 <= i < j < sorted.len() ==> bytes_leq(
                    encode_utf8((#[trigger] sorted[i]).path),
                    encode_utf8((#[trigger] sorted[j]).path),
                )
            &&& sorted.filter(|dir: DirView| dir.path == path) == dirs.filter(
                |dir: DirView| dir.path == path,
            )
        }),
{
    let same = |dir: DirView| dir.path == path;
    Dir::leq_is_total_preorder();
    assert(total_preorder(leq_of::<Dir>()));
    lemma_sort_permutes(dirs, leq_of::<Dir>());
    lemma_sort_ascending(dirs, leq_of::<Dir>());
    assert forall|a: DirView, b: DirView| #[trigger] same(a) && #[trigger] same(b) implies (leq_of::<
        Dir,
    >())(a, b) by {
        let bytes = encode_utf8(path);
        let k = bytes_are_ordered_by_their_first_difference(bytes, bytes);
    }
    lemma_sort_keeps_class(dirs, leq_of::<Dir>(), same);
}

/// Rows become the entries that they name, one for one.
pub proof fn rows_become_entries(rows: Seq<(String, Rank, Epoch)>)
    ensures
        rows_of(rows).len() == rows.len(),
        forall|i: int|
            0 <= i < rows.len() ==> {
                let entry = #[trigger] rows_of(rows)[i];
                entry.path == rows[i].0@ && entry.rank == rows[i].1 && entry.last_accessed
                    == rows[i].2
            },
{
}

/// The exact sum of the ranks.
pub open spec fn exact_total(dirs: Seq<DirView>) -> int
    decreases dirs.len(),
{
    if dirs.len() == 0 {
        0
    } else {
        exact_total(dirs.drop_last()) + dirs.last().rank.value()
    }
}

/// The total rank is the sum of all ranks, up to one rounding for each, and not
/// below any of them.
pub proof fn the_total_is_the_sum_of_the_ranks(dirs: Seq<DirView>)
    requires
        forall|i: int| 0 <= i < dirs.len() ==> is_plain((#[trigger] dirs[i]).rank),
        is_finite(total_rank(dirs)),
    ensures
        is_close(exact_total(dirs), total_rank(dirs).value(), dirs.len() as int),
        forall|i: int|
            0 <= i < dirs.len() ==> (#[trigger] dirs[i]).rank.value() <= total_rank(dirs).value(),
        dirs.len() > 0 ==> is_plain(total_rank(dirs)),
    decreases dirs.len(),
{
    if dirs.len() > 0 {
        let front = dirs.drop_last();
        let last = dirs.last().rank;
        let before = total_rank(front);
        let total = total_rank(dirs);
        assert(dirs[dirs.len() - 1].rank == last);
        assert forall|i: int| 0 <= i < front.len() implies is_plain((#[trigger] front[i]).rank) by {
            assert(front[i] == dirs[i]);
        }
        assert(is_finite(before));
        the_total_is_the_sum_of_the_ranks(front);
        if front.len() == 0 {
            assert(before.value() == 0);
        }
        sums_are_close(before, last);
        sums_do_not_shrink(before, last);
        lemma_negative_zero_is_neutral(last);
        if last.bits > 0 {
            crate::rank::lemma_units_increase(0, last.bits as int);
        }
        if before.magnitude() > 0 {
            crate::rank::lemma_units_increase(0, before.magnitude());
        }
        if front.len() == 0 {
            assert(before == signed(true, 0));
        } else {
            assert(is_plain(before));
        }
        assert(is_plain(total)) by {
            if front.len() > 0 && before.value() + last.value() > 0 {
                crate::rank::lemma_rounded_is_nearest(before.value() + last.value(), 1);
            }
        }
        let e: int = 0x20_0000_0000_0000;
        let n = front.len() as int;
        let t = total.value();
        let b = before.value();
        assert(n * b <= n * t) by (nonlinear_arith)
            requires
                n >= 0,
                b <= t,
        ;
        assert((n + 1) * t == n * t + t) by (nonlinear_arith);
        assert(gap(exact_total(dirs), t) <= gap(exact_total(front), b) + gap(
            b + last.value(),
            t,
        ));
        assert forall|i: int| 0 <= i < dirs.len() implies (#[trigger] dirs[i]).rank.value()
            <= t by {
            if i < front.len() {
                assert(front[i] == dirs[i]);
            }
        }
    } else {
        assert(total_rank(dirs).value() == 0);
    }
}

/// The total rank of one entry is its rank, and each further entry adds its
/// rank to it.
pub proof fn totals_grow_by_each_entry(dirs: Seq<DirView>, dir: DirView)
    ensures
        total_rank(dirs.push(dir)) == total_rank(dirs).sum(dir.rank),
        !dir.rank.is_nan() ==> total_rank(seq![dir]) == dir.rank,
{
    assert(dirs.push(dir).drop_last() =~= dirs);
    assert(seq![dir].drop_last() =~= Seq::empty());
    assert(total_rank(Seq::empty()) == signed(true, 0));
    lemma_negative_zero_is_neutral(dir.rank);
}

/// Merging nothing into an entry leaves it, and each entry that is merged into
/// it adds its rank. The latest access of all of them stays, and the path of
/// the one that they are merged into.
pub proof fn merged_entries_add_up(first: DirView, others: Seq<DirView>, next: DirView)
    ensures
        absorbed(first, Seq::empty()) == first,
        absorbed(first, others.push(next)).rank == absorbed(first, others).rank.sum(next.rank),
        absorbed(first, others).path == first.path,
        absorbed(first, others).last_accessed >= first.last_accessed,
        forall|k: int|
            0 <= k < others.len() ==> absorbed(first, others).last_accessed >= (
            #[trigger] others[k]).last_accessed,
        absorbed(first, others).last_accessed == first.last_accessed || exists|k: int|
            0 <= k < others.len() && absorbed(first, others).last_accessed == (
            #[trigger] others[k]).last_accessed,
{
    assert(others.push(next).drop_last() =~= others);
    lemma_absorbed_path(first, others);
    lemma_absorbed_latest(first, others);
}

/// Removing positions leaves the elements at the others, each of them once. Those
/// that still have a place stay there; the places of those that go are filled
/// from the end.
pub proof fn removal_leaves_each_of_the_others<T>(s: Seq<T>, gone: spec_fn(int) -> bool) -> (left:
    Seq<int>)
    ensures
        left.no_duplicates(),
        left.len() == without(s, s.len(), gone).len(),
        forall|a: int|
            0 <= a < left.len() ==> {
                &&& 0 <= #[trigger] left[a] < s.len()
                &&& !gone(left[a])
                &&& without(s, s.len(), gone)[a] == s[left[a]]
            },
        forall|i: int| 0 <= i < s.len() && !(#[trigger] gone(i)) ==> left.contains(i),
        forall|i: int| 0 <= i < left.len() && !(#[trigger] gone(i)) ==> left[i] == i,
{
    let left = left_positions(s.len(), gone);
    lemma_left_positions(s, gone);
    assert forall|a: int, b: int| 0 <= a < left.len() && 0 <= b < left.len() && a
        != b implies left[a] != left[b] by {
        if a < b {
            assert(left[a] != left[b]);
        } else {
            assert(left[b] != left[a]);
        }
    }
    lemma_places_are_kept(Seq::new(s.len(), |i: int| i), s.len(), gone);
    left
}

/// An element that does not go and still has a place stays there.
proof fn lemma_places_are_kept<T>(s: Seq<T>, n: nat, gone: spec_fn(int) -> bool)
    requires
        n <= s.len(),
    ensures
        without(s, n, gone).len() <= s.len(),
        forall|i: int|
            0 <= i < without(s, n, gone).len() && (i >= n || !gone(i))
                ==> #[trigger] without(s, n, gone)[i] == s[i],
    decreases n,
{
    if n > 0 {
        if gone(n - 1) {
            lemma_places_are_kept(swap_removed(s, n - 1), (n - 1) as nat, gone);
        } else {
            lemma_places_are_kept(s, (n - 1) as nat, gone);
        }
    }
}

/// Merging groups removes the entries that are merged into others, and leaves
/// each of the others once: the one of a group that stays takes in the others
/// of the group, and an entry of no group stays as it is.
pub proof fn merging_takes_in_each_group(dirs: Seq<DirView>, groups: Seq<Group>) -> (left: Seq<int>)
    requires
        valid_groups(groups, dirs.len() as int),
    ensures
        left.no_duplicates(),
        left.len() == after_merge(dirs, groups).len(),
        forall|a: int| 0 <= a < left.len() ==> 0 <= #[trigger] left[a] < dirs.len(),
        forall|a: int|
            0 <= a < left.len() && (forall|g: int|
                0 <= g < groups.len() ==> !(#[trigger] groups[g]).1.contains(a))
                ==> #[trigger] left[a] == a,
        forall|i: int|
            0 <= i < dirs.len() ==> (#[trigger] left.contains(i) <==> forall|g: int|
                0 <= g < groups.len() ==> !(#[trigger] groups[g]).1.contains(i)),
        forall|a: int, g: int|
            0 <= a < left.len() && 0 <= g < groups.len() && (#[trigger] groups[g]).0
                == #[trigger] left[a] ==> after_merge(dirs, groups)[a] == absorbed(
                dirs[left[a]],
                groups[g].1.map_values(|i: int| dirs[i]),
            ),
        forall|a: int|
            0 <= a < left.len() && (forall|g: int|
                0 <= g < groups.len() ==> (#[trigger] groups[g]).0 != left[a])
                ==> #[trigger] after_merge(dirs, groups)[a] == dirs[left[a]],
{
    let gone = |i: int| is_victim(groups, i);
    let whole = merged(dirs, groups);
    lemma_merged(dirs, groups);
    let left = removal_leaves_each_of_the_others(whole, gone);
    assert forall|i: int| 0 <= i < dirs.len() implies (#[trigger] left.contains(i) <==> forall|
        g: int,
    | 0 <= g < groups.len() ==> !(#[trigger] groups[g]).1.contains(i)) by {
        if left.contains(i) {
            let a = left.index_of(i);
            assert(!gone(left[a]));
        } else {
            assert(gone(i));
        }
    }
    assert forall|a: int|
        0 <= a < left.len() && (forall|g: int|
            0 <= g < groups.len() ==> !(#[trigger] groups[g]).1.contains(a))
        implies #[trigger] left[a] == a by {
        assert(!gone(a));
    }
    assert forall|a: int, g: int|
        0 <= a < left.len() && 0 <= g < groups.len() && (#[trigger] groups[g]).0
            == #[trigger] left[a] implies after_merge(dirs, groups)[a] == absorbed(
        dirs[left[a]],
        groups[g].1.map_values(|i: int| dirs[i]),
    ) by {
        assert(!gone(left[a]));
        assert(whole[left[a]] == combined(dirs, groups, left[a]));
        let h = choose|h: int| 0 <= h < groups.len() && (#[trigger] groups[h]).0 == left[a];
        assert(groups[h].0 == left[a]);
        if h != g {
            assert(groups[h].0 != groups[g].0);
        }
    }
    assert forall|a: int|
        0 <= a < left.len() && (forall|g: int|
            0 <= g < groups.len() ==> (#[trigger] groups[g]).0 != left[a])
        implies #[trigger] after_merge(dirs, groups)[a] == dirs[left[a]] by {
        assert(!gone(left[a]));
        assert(whole[left[a]] == combined(dirs, groups, left[a]));
    }
    left
}

/// Whatever the rank is, a score is its product with four, two, a half or a
/// quarter.
pub proof fn scores_are_products_with_a_weight(dir: DirView, now: Epoch)
    ensures
        ({
            let age = now - dir.last_accessed;
            &&& age < 3600 ==> dir.score(now) == dir.rank.product(
                Rank { bits: 0x4010_0000_0000_0000 },
            )
            &&& 3600 <= age < 86400 ==> dir.score(now) == dir.rank.product(
                Rank { bits: 0x4000_0000_0000_0000 },
            )
            &&& 86400 <= age < 604800 ==> dir.score(now) == dir.rank.product(
                Rank { bits: 0x3fe0_0000_0000_0000 },
            )
            &&& 604800 <= age ==> dir.score(now) == dir.rank.product(
                Rank { bits: 0x3fd0_0000_0000_0000 },
            )
        }),
{
}

/// Where no group has anything to merge, merging changes nothing; and only
/// there nothing is to be merged.
pub proof fn nothing_to_merge_changes_nothing(dirs: Seq<DirView>, groups: Seq<Group>)
    requires
        valid_groups(groups, dirs.len() as int),
    ensures
        nothing_to_merge(groups) ==> after_merge(dirs, groups) == dirs,
        !nothing_to_merge(groups) ==> after_merge(dirs, groups).len() < dirs.len(),
{
    let gone = |i: int| is_victim(groups, i);
    let left = merging_takes_in_each_group(dirs, groups);
    if nothing_to_merge(groups) {
        assert forall|i: int| !(#[trigger] gone(i)) by {
            if gone(i) {
                let g = choose|g: int|
                    0 <= g < groups.len() && (#[trigger] groups[g]).1.contains(i);
                assert(groups[g].1.len() == 0);
            }
        }
        lemma_merged(dirs, groups);
        let whole = merged(dirs, groups);
        lemma_none_gone(whole, whole.len(), gone);
        assert forall|p: int| 0 <= p < dirs.len() implies whole[p] == dirs[p] by {
            assert(!gone(p));
            assert(whole[p] == combined(dirs, groups, p));
            if exists|g: int| 0 <= g < groups.len() && (#[trigger] groups[g]).0 == p {
                let g = choose|g: int| 0 <= g < groups.len() && (#[trigger] groups[g]).0 == p;
                assert(groups[g].1.len() == 0);
                assert(groups[g].1.map_values(|i: int| dirs[i]) =~= Seq::empty());
            }
        }
        assert(whole =~= dirs);
    } else {
        let g = choose|g: int| 0 <= g < groups.len() && (#[trigger] groups[g]).1.len() != 0;
        let i = groups[g].1[0];
        assert(groups[g].1.contains(i));
        assert(!left.contains(i));
        left.unique_seq_to_set();
        let all = vstd::set_lib::set_int_range(0, dirs.len() as int);
        vstd::set_lib::lemma_int_range(0, dirs.len() as int);
        assert(left.to_set().subset_of(all.remove(i))) by {
            assert forall|p: int| left.to_set().contains(p) implies all.remove(i).contains(p) by {
                let a = left.index_of(p);
                assert(left[a] == p);
            }
        }
        vstd::set_lib::lemma_len_subset(left.to_set(), all.remove(i));
    }
}

proof fn lemma_none_gone<T>(s: Seq<T>, n: nat, gone: spec_fn(int) -> bool)
    requires
        forall|i: int| !(#[trigger] gone(i)),
    ensures
        without(s, n, gone) == s,
    decreases n,
{
    if n > 0 {
        assert(!gone(n - 1));
        lemma_none_gone(s, (n - 1) as nat, gone);
    }
}

/// Whatever the ranks are, an entry that is added to has the sum of both ranks
/// where that is positive, and zero else.
pub proof fn sums_that_are_not_positive_become_zero(
    dirs: Seq<DirView>,
    i: int,
    by: Rank,
    now: Epoch,
    touch: bool,
)
    requires
        0 <= i < dirs.len(),
        forall|j: int| 0 <= j < i ==> (#[trigger] dirs[j]).path != dirs[i].path,
    ensures
        ({
            let after = with_added(dirs, dirs[i].path, by, now, touch)[i].rank;
            let sum = dirs[i].rank.sum(by);
            &&& 0 < sum.bits <= INFINITY ==> after == sum
            &&& !(0 < sum.bits <= INFINITY) ==> after.bits == 0
        }),
{
    the_first_entry_with_a_path_is_found(dirs, dirs[i].path);
    let found = first_with(dirs, dirs[i].path)->0;
    if found < i {
        assert(dirs[found].path != dirs[i].path);
    } else if i < found {
        assert(dirs[i].path != dirs[i].path);
    }
    only_positive_numbers_are_kept(dirs[i].rank.sum(by));
}

} // verus!
