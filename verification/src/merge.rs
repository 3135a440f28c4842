//! What merging and removing entries makes of a list of them.

use vstd::prelude::*;

use crate::dir::{DirView, Epoch};

verus! {

/// `s` with its last element moved to `i`, in place of the one there.
pub open spec fn swap_removed<T>(s: Seq<T>, i: int) -> Seq<T> {
    s.update(i, s.last()).drop_last()
}

/// `s` after those of its first `n` positions that are `gone` were
/// swap-removed, the highest first.
pub open spec fn without<T>(s: Seq<T>, n: nat, gone: spec_fn(int) -> bool) -> Seq<T>
    decreases n,
{
    if n == 0 {
        s
    } else if gone(n - 1) {
        without(swap_removed(s, n - 1), (n - 1) as nat, gone)
    } else {
        without(s, (n - 1) as nat, gone)
    }
}

/// The elements of `s` at positions that are not `gone`, in their order.
pub open spec fn kept<T>(s: Seq<T>, gone: spec_fn(int) -> bool) -> Seq<T>
    decreases s.len(),
{
    if s.len() == 0 {
        s
    } else if gone(s.len() - 1) {
        kept(s.drop_last(), gone)
    } else {
        kept(s.drop_last(), gone).push(s.last())
    }
}

/// Removing positions leaves the other elements, each as often as it was
/// there: a swap only moves elements from behind the removed position.
pub proof fn lemma_without_keeps_rest<T>(s: Seq<T>, gone: spec_fn(int) -> bool)
    ensures
        without(s, s.len(), gone).to_multiset() == kept(s, gone).to_multiset(),
{
    broadcast use vstd::seq_lib::group_to_multiset_ensures;

    lemma_without(s, s.len(), gone);
    assert(s.take(s.len() as int) =~= s);
    assert(s.skip(s.len() as int) =~= Seq::empty());
    assert(kept(s, gone).to_multiset().add(Seq::<T>::empty().to_multiset()) =~= kept(
        s,
        gone,
    ).to_multiset());
}

proof fn lemma_without<T>(s: Seq<T>, n: nat, gone: spec_fn(int) -> bool)
    requires
        n <= s.len(),
    ensures
        without(s, n, gone).to_multiset() == kept(s.take(n as int), gone).to_multiset().add(
            s.skip(n as int).to_multiset(),
        ),
    decreases n,
{
    broadcast use vstd::seq_lib::group_to_multiset_ensures;

    if n == 0 {
        assert(s.take(0) =~= Seq::empty());
        assert(s.skip(0) =~= s);
        assert(Seq::<T>::empty().to_multiset().add(s.to_multiset()) =~= s.to_multiset());
    } else {
        let m = (n - 1) as nat;
        let head = kept(s.take(m as int), gone).to_multiset();
        assert(s.take(n as int).drop_last() =~= s.take(m as int));
        assert(s.skip(m as int) =~= seq![s[m as int]] + s.skip(n as int));
        lemma_multiset_front(s[m as int], s.skip(n as int));
        if gone(n - 1) {
            let t = swap_removed(s, n - 1);
            lemma_without(t, m, gone);
            assert(t.take(m as int) =~= s.take(m as int));
            if n == s.len() {
                assert(t.skip(m as int) =~= s.skip(n as int));
            } else {
                let tail = s.skip(n as int);
                assert(t.skip(m as int) =~= seq![tail.last()] + tail.drop_last());
                lemma_multiset_front(tail.last(), tail.drop_last());
                assert(tail =~= tail.drop_last().push(tail.last()));
                assert(t.skip(m as int).to_multiset() =~= tail.to_multiset());
            }
        } else {
            lemma_without(s, m, gone);
            assert(without(s, n, gone).to_multiset() =~= kept(
                s.take(n as int),
                gone,
            ).to_multiset().add(s.skip(n as int).to_multiset()));
        }
    }
}

proof fn lemma_multiset_front<T>(x: T, s: Seq<T>)
    ensures
        (seq![x] + s).to_multiset() == s.to_multiset().insert(x),
{
    broadcast use vstd::seq_lib::group_to_multiset_ensures;

    assert((seq![x] + s).remove(0) =~= s);
    assert((seq![x] + s)[0] == x);
    assert((seq![x] + s).to_multiset().remove(x).insert(x) =~= (seq![x] + s).to_multiset());
}

/// The later of two times.
pub open spec fn later(a: Epoch, b: Epoch) -> Epoch {
    if a >= b {
        a
    } else {
        b
    }
}

/// The entry `first` after the entries `others` were merged into it, one
/// after the other: the ranks are summed up, and the latest access stays.
pub open spec fn absorbed(first: DirView, others: Seq<DirView>) -> DirView
    decreases others.len(),
{
    if others.len() == 0 {
        first
    } else {
        let before = absorbed(first, others.drop_last());
        DirView {
            path: before.path,
            rank: before.rank.sum(others.last().rank),
            last_accessed: later(before.last_accessed, others.last().last_accessed),
        }
    }
}

/// Merging entries into another keeps its path.
pub proof fn lemma_absorbed_path(first: DirView, others: Seq<DirView>)
    ensures
        absorbed(first, others).path == first.path,
    decreases others.len(),
{
    if others.len() > 0 {
        lemma_absorbed_path(first, others.drop_last());
    }
}

/// The positions of a surviving entry and of those merged into it.
pub type Group = (int, Seq<int>);

/// The groups that a list of indices stands for.
pub open spec fn groups_of(groups: Seq<(usize, Vec<usize>)>) -> Seq<Group> {
    groups.map_values(
        |g: (usize, Vec<usize>)| (g.0 as int, g.1@.map_values(|i: usize| i as int)),
    )
}

/// Whether `i` is merged into another entry.
pub open spec fn is_victim(groups: Seq<Group>, i: int) -> bool {
    exists|g: int| 0 <= g < groups.len() && (#[trigger] groups[g]).1.contains(i)
}

/// Whether the groups name entries of a list of length `n`, each at most
/// once.
pub open spec fn valid_groups(groups: Seq<Group>, n: int) -> bool {
    &&& forall|g: int|
        0 <= g < groups.len() ==> {
            let group = #[trigger] groups[g];
            &&& 0 <= group.0 < n
            &&& !group.1.contains(group.0)
            &&& group.1.no_duplicates()
            &&& forall|k: int| 0 <= k < group.1.len() ==> 0 <= #[trigger] group.1[k] < n
        }
    &&& forall|g: int, h: int|
        0 <= g < groups.len() && 0 <= h < groups.len() && g != h ==> {
            let a = #[trigger] groups[g];
            let b = #[trigger] groups[h];
            &&& a.0 != b.0
            &&& !a.1.contains(b.0)
            &&& forall|i: int| !(#[trigger] a.1.contains(i) && b.1.contains(i))
        }
}

/// The entries after each group was merged into its survivor, before the
/// others are removed.
pub open spec fn merged(dirs: Seq<DirView>, groups: Seq<Group>) -> Seq<DirView>
    decreases groups.len(),
{
    if groups.len() == 0 {
        dirs
    } else {
        let before = merged(dirs, groups.drop_last());
        let group = groups.last();
        before.update(
            group.0,
            absorbed(before[group.0], group.1.map_values(|i: int| before[i])),
        )
    }
}

/// The entries after each group was merged into its survivor.
pub open spec fn after_merge(dirs: Seq<DirView>, groups: Seq<Group>) -> Seq<DirView> {
    without(merged(dirs, groups), dirs.len(), |i: int| is_victim(groups, i))
}

/// Whether no group has anything to merge.
pub open spec fn nothing_to_merge(groups: Seq<Group>) -> bool {
    forall|g: int| 0 <= g < groups.len() ==> (#[trigger] groups[g]).1.len() == 0
}

/// The end of the run of equal paths that starts at `i`, looking from `j`.
pub open spec fn run_end(dirs: Seq<DirView>, i: int, j: int) -> int
    decreases dirs.len() - j,
{
    if j < dirs.len() && dirs[j].path == dirs[i].path {
        run_end(dirs, i, j + 1)
    } else {
        j
    }
}

/// The integers from `a` up to, but not including, `b`.
pub open spec fn range(a: int, b: int) -> Seq<int> {
    Seq::new(
        if a <= b {
            (b - a) as nat
        } else {
            0
        },
        |k: int| a + k,
    )
}

/// The runs of equal paths from `i` on that have more than one entry, each
/// merged into its first entry.
pub open spec fn runs(dirs: Seq<DirView>, i: int) -> Seq<Group>
    decreases dirs.len() - i,
    via runs_decreases
{
    if i < 0 || i >= dirs.len() {
        Seq::empty()
    } else {
        let end = run_end(dirs, i, i + 1);
        if end - i > 1 {
            seq![(i, range(i + 1, end))] + runs(dirs, end)
        } else {
            runs(dirs, end)
        }
    }
}

#[via_fn]
proof fn runs_decreases(dirs: Seq<DirView>, i: int) {
    if 0 <= i < dirs.len() {
        lemma_run_end(dirs, i, i + 1);
    }
}

pub proof fn lemma_run_end(dirs: Seq<DirView>, i: int, j: int)
    requires
        0 <= i < j <= dirs.len(),
        forall|k: int| i <= k < j ==> #[trigger] dirs[k].path == dirs[i].path,
    ensures
        j <= run_end(dirs, i, j) <= dirs.len(),
        forall|k: int| i <= k < run_end(dirs, i, j) ==> #[trigger] dirs[k].path == dirs[i].path,
        run_end(dirs, i, j) < dirs.len() ==> dirs[run_end(dirs, i, j)].path != dirs[i].path,
    decreases dirs.len() - j,
{
    if j < dirs.len() && dirs[j].path == dirs[i].path {
        lemma_run_end(dirs, i, j + 1);
    }
}

/// Every run lies between `i` and the end, and no two of them meet.
pub proof fn lemma_runs_apart(dirs: Seq<DirView>, i: int)
    requires
        0 <= i <= dirs.len(),
    ensures
        forall|g: int|
            0 <= g < runs(dirs, i).len() ==> {
                let group = #[trigger] runs(dirs, i)[g];
                &&& i <= group.0 < dirs.len()
                &&& group.1.len() > 0
                &&& group.1 == range(group.0 + 1, group.0 + 1 + group.1.len())
                &&& group.0 + 1 + group.1.len() <= dirs.len()
                &&& group.0 + 1 + group.1.len() == run_end(dirs, group.0, group.0 + 1)
            },
        forall|g: int, h: int|
            0 <= g < h < runs(dirs, i).len() ==> {
                let a = #[trigger] runs(dirs, i)[g];
                let b = #[trigger] runs(dirs, i)[h];
                a.0 + a.1.len() < b.0
            },
    decreases dirs.len() - i,
{
    if i < dirs.len() {
        lemma_run_end(dirs, i, i + 1);
        let end = run_end(dirs, i, i + 1);
        lemma_runs_apart(dirs, end);
        if end - i > 1 {
            let rest = runs(dirs, end);
            let all = runs(dirs, i);
            assert(all =~= seq![(i, range(i + 1, end))] + rest);
            assert forall|g: int| 0 <= g < all.len() implies {
                let group = #[trigger] all[g];
                &&& i <= group.0 < dirs.len()
                &&& group.1.len() > 0
                &&& group.1 == range(group.0 + 1, group.0 + 1 + group.1.len())
                &&& group.0 + 1 + group.1.len() <= dirs.len()
                &&& group.0 + 1 + group.1.len() == run_end(dirs, group.0, group.0 + 1)
            } by {
                if g > 0 {
                    assert(all[g] == rest[g - 1]);
                }
            }
            assert forall|g: int, h: int| 0 <= g < h < all.len() implies {
                let a = #[trigger] all[g];
                let b = #[trigger] all[h];
                a.0 + a.1.len() < b.0
            } by {
                assert(all[h] == rest[h - 1]);
                if g > 0 {
                    assert(all[g] == rest[g - 1]);
                }
            }
        } else {
            assert(runs(dirs, i) == runs(dirs, end));
        }
    }
}

/// The runs of a list can be merged.
pub proof fn lemma_runs_valid(dirs: Seq<DirView>)
    ensures
        valid_groups(runs(dirs, 0), dirs.len() as int),
{
    lemma_runs_apart(dirs, 0);
    let groups = runs(dirs, 0);
    assert forall|g: int| 0 <= g < groups.len() implies {
        let group = #[trigger] groups[g];
        &&& 0 <= group.0 < dirs.len()
        &&& !group.1.contains(group.0)
        &&& group.1.no_duplicates()
        &&& forall|k: int| 0 <= k < group.1.len() ==> 0 <= #[trigger] group.1[k] < dirs.len()
    } by {
        let group = groups[g];
        assert(group.1 == range(group.0 + 1, group.0 + 1 + group.1.len()));
    }
    assert forall|g: int, h: int|
        0 <= g < groups.len() && 0 <= h < groups.len() && g != h implies {
        let a = #[trigger] groups[g];
        let b = #[trigger] groups[h];
        &&& a.0 != b.0
        &&& !a.1.contains(b.0)
        &&& forall|i: int| !(#[trigger] a.1.contains(i) && b.1.contains(i))
    } by {
        let a = groups[g];
        let b = groups[h];
        assert(a.1 == range(a.0 + 1, a.0 + 1 + a.1.len()));
        assert(b.1 == range(b.0 + 1, b.0 + 1 + b.1.len()));
        if g < h {
            assert(a.0 + a.1.len() < b.0);
        } else {
            assert(b.0 + b.1.len() < a.0);
        }
    }
}

proof fn lemma_without_none<T>(s: Seq<T>, n: nat, gone: spec_fn(int) -> bool)
    requires
        forall|i: int| 0 <= i < n ==> !(#[trigger] gone(i)),
    ensures
        without(s, n, gone) == s,
    decreases n,
{
    if n > 0 {
        lemma_without_none(s, (n - 1) as nat, gone);
    }
}

/// Where no run has more than one entry, merging them changes nothing.
pub proof fn lemma_no_runs(dirs: Seq<DirView>)
    requires
        nothing_to_merge(runs(dirs, 0)),
    ensures
        after_merge(dirs, runs(dirs, 0)) == dirs,
{
    lemma_runs_apart(dirs, 0);
    let groups = runs(dirs, 0);
    if groups.len() > 0 {
        assert(groups[0].1.len() == 0);
    }
    lemma_without_none(dirs, dirs.len(), |i: int| is_victim(groups, i));
}

/// The positions below `n` that are not `gone`.
pub open spec fn kept_positions(n: nat, gone: spec_fn(int) -> bool) -> Seq<int>
    decreases n,
{
    if n == 0 {
        Seq::empty()
    } else if gone(n - 1) {
        kept_positions((n - 1) as nat, gone)
    } else {
        kept_positions((n - 1) as nat, gone).push(n - 1)
    }
}

/// The kept positions are those that are not gone, each once and in order.
pub proof fn lemma_kept_positions(n: nat, gone: spec_fn(int) -> bool)
    ensures
        forall|k: int|
            0 <= k < kept_positions(n, gone).len() ==> 0 <= #[trigger] kept_positions(n, gone)[k]
                < n && !gone(kept_positions(n, gone)[k]),
        forall|a: int, b: int|
            0 <= a < b < kept_positions(n, gone).len() ==> #[trigger] kept_positions(n, gone)[a]
                < #[trigger] kept_positions(n, gone)[b],
        forall|p: int|
            0 <= p < n && !(#[trigger] gone(p)) ==> kept_positions(n, gone).contains(p),
    decreases n,
{
    if n > 0 {
        let m = (n - 1) as nat;
        let before = kept_positions(m, gone);
        let all = kept_positions(n, gone);
        lemma_kept_positions(m, gone);
        assert forall|p: int| 0 <= p < n && !(#[trigger] gone(p)) implies all.contains(p) by {
            if p < m {
                let k = before.index_of(p);
                assert(all[k] == p);
            } else {
                assert(all.last() == p);
            }
        }
    }
}

/// What is kept of a list is what stands at the kept positions.
pub proof fn lemma_kept_at_positions<T>(s: Seq<T>, gone: spec_fn(int) -> bool)
    ensures
        kept(s, gone) == kept_positions(s.len(), gone).map_values(|p: int| s[p]),
    decreases s.len(),
{
    let all = kept_positions(s.len(), gone).map_values(|p: int| s[p]);
    if s.len() > 0 {
        let init = s.drop_last();
        lemma_kept_at_positions(init, gone);
        lemma_kept_positions(init.len(), gone);
        let before = kept_positions(init.len(), gone);
        assert(before.map_values(|p: int| init[p]) =~= before.map_values(|p: int| s[p]));
        if !gone(s.len() - 1) {
            assert(all =~= before.map_values(|p: int| s[p]).push(s.last()));
        }
    }
    assert(kept(s, gone) =~= all);
}

/// Keeping by what the elements are is filtering.
pub proof fn lemma_kept_is_filter<T>(s: Seq<T>, n: nat, drop: spec_fn(T) -> bool)
    requires
        n <= s.len(),
    ensures
        kept(s.take(n as int), |i: int| drop(s[i])) == s.take(n as int).filter(|x: T| !drop(x)),
    decreases n,
{
    let gone = |i: int| drop(s[i]);
    if n > 0 {
        let m = (n - 1) as nat;
        lemma_kept_is_filter(s, m, drop);
        assert(s.take(n as int).drop_last() =~= s.take(m as int));
        assert(s.take(n as int) =~= s.take(m as int).push(s[m as int]));
        s.take(m as int).lemma_filter_push(s[m as int], |x: T| !drop(x));
    } else {
        assert(s.take(0) =~= Seq::empty());
        broadcast use Seq::lemma_filter_len;
        assert(s.take(0).filter(|x: T| !drop(x)).len() == 0);
        assert(kept(s.take(0), gone) =~= s.take(0).filter(|x: T| !drop(x)));
    }
}

/// What the entry at `p` becomes when the groups are merged.
pub open spec fn combined(dirs: Seq<DirView>, groups: Seq<Group>, p: int) -> DirView {
    if exists|g: int| 0 <= g < groups.len() && (#[trigger] groups[g]).0 == p {
        let g = choose|g: int| 0 <= g < groups.len() && (#[trigger] groups[g]).0 == p;
        absorbed(dirs[p], groups[g].1.map_values(|i: int| dirs[i]))
    } else {
        dirs[p]
    }
}

proof fn lemma_valid_prefix(groups: Seq<Group>, n: int)
    requires
        valid_groups(groups, n),
        groups.len() > 0,
    ensures
        valid_groups(groups.drop_last(), n),
{
    let before = groups.drop_last();
    assert forall|g: int| 0 <= g < before.len() implies before[g] == groups[g] by {}
}

/// Groups that share no entry are merged independently of each other.
pub proof fn lemma_merged(dirs: Seq<DirView>, groups: Seq<Group>)
    requires
        valid_groups(groups, dirs.len() as int),
    ensures
        merged(dirs, groups).len() == dirs.len(),
        forall|p: int|
            0 <= p < dirs.len() && !is_victim(groups, p) ==> #[trigger] merged(dirs, groups)[p]
                == combined(dirs, groups, p),
        forall|p: int|
            0 <= p < dirs.len() && is_victim(groups, p) ==> #[trigger] merged(dirs, groups)[p]
                == dirs[p],
    decreases groups.len(),
{
    if groups.len() > 0 {
        let earlier = groups.drop_last();
        let last = groups.last();
        let h = groups.len() - 1;
        lemma_valid_prefix(groups, dirs.len() as int);
        lemma_merged(dirs, earlier);
        let before = merged(dirs, earlier);
        assert(groups[h] == last);
        // Nothing of the last group was touched before.
        assert forall|k: int| 0 <= k < last.1.len() implies #[trigger] before[last.1[k]]
            == dirs[last.1[k]] by {
            let i = last.1[k];
            assert(last.1.contains(i));
            lemma_untouched(dirs, groups, i);
        }
        assert(before[last.0] == dirs[last.0]) by {
            lemma_untouched(dirs, groups, last.0);
        }
        assert(last.1.map_values(|i: int| before[i]) =~= last.1.map_values(|i: int| dirs[i]));
        assert forall|p: int| 0 <= p < dirs.len() && !is_victim(groups, p) implies #[trigger] merged(
            dirs,
            groups,
        )[p] == combined(dirs, groups, p) by {
            if is_victim(earlier, p) {
                let g = choose|g: int|
                    0 <= g < earlier.len() && (#[trigger] earlier[g]).1.contains(p);
                assert(groups[g].1.contains(p));
            }
            if p == last.0 {
                let g = choose|g: int| 0 <= g < groups.len() && (#[trigger] groups[g]).0 == p;
                assert(groups[h].0 == p);
                assert(g == h);
            } else {
                lemma_combined_prefix(dirs, groups, p);
            }
        }
        assert forall|p: int| 0 <= p < dirs.len() && is_victim(groups, p) implies #[trigger] merged(
            dirs,
            groups,
        )[p] == dirs[p] by {
            let g = choose|g: int| 0 <= g < groups.len() && (#[trigger] groups[g]).1.contains(p);
            if g < h {
                assert(earlier[g].1.contains(p));
                assert(is_victim(earlier, p));
                assert(groups[g].1.contains(p) && !groups[g].1.contains(groups[h].0));
            } else {
                assert(last.1.contains(p));
                lemma_untouched(dirs, groups, p);
            }
            assert(p != last.0);
        }
    }
}

/// What belongs to the last group is as it was when the earlier ones are
/// merged.
proof fn lemma_untouched(dirs: Seq<DirView>, groups: Seq<Group>, i: int)
    requires
        valid_groups(groups, dirs.len() as int),
        groups.len() > 0,
        groups.last().0 == i || groups.last().1.contains(i),
        0 <= i < dirs.len(),
        forall|p: int|
            0 <= p < dirs.len() && !is_victim(groups.drop_last(), p) ==> #[trigger] merged(
                dirs,
                groups.drop_last(),
            )[p] == combined(dirs, groups.drop_last(), p),
    ensures
        merged(dirs, groups.drop_last())[i] == dirs[i],
{
    let earlier = groups.drop_last();
    let h = groups.len() - 1;
    assert(groups[h] == groups.last());
    if is_victim(earlier, i) {
        let g = choose|g: int| 0 <= g < earlier.len() && (#[trigger] earlier[g]).1.contains(i);
        assert(groups[g].1.contains(i));
        assert(!(groups[g].1.contains(i) && groups[h].1.contains(i)));
    }
    if exists|g: int| 0 <= g < earlier.len() && (#[trigger] earlier[g]).0 == i {
        let g = choose|g: int| 0 <= g < earlier.len() && (#[trigger] earlier[g]).0 == i;
        assert(groups[g].0 == i);
        assert(!groups[h].1.contains(groups[g].0));
    }
}

proof fn lemma_combined_prefix(dirs: Seq<DirView>, groups: Seq<Group>, p: int)
    requires
        valid_groups(groups, dirs.len() as int),
        groups.len() > 0,
        groups.last().0 != p,
    ensures
        combined(dirs, groups.drop_last(), p) == combined(dirs, groups, p),
{
    let earlier = groups.drop_last();
    if exists|g: int| 0 <= g < groups.len() && (#[trigger] groups[g]).0 == p {
        let g = choose|g: int| 0 <= g < groups.len() && (#[trigger] groups[g]).0 == p;
        assert(earlier[g].0 == p);
        let f = choose|g: int| 0 <= g < earlier.len() && (#[trigger] earlier[g]).0 == p;
        assert(groups[f].0 == p);
        assert(f == g);
    } else if exists|g: int| 0 <= g < earlier.len() && (#[trigger] earlier[g]).0 == p {
        let f = choose|g: int| 0 <= g < earlier.len() && (#[trigger] earlier[g]).0 == p;
        assert(groups[f].0 == p);
    }
}

/// Merging groups leaves one entry for each group, which has the combined rank
/// and the latest access of its members, and every entry outside the groups
/// as it was.
pub proof fn merging_leaves_one_entry_per_group(dirs: Seq<DirView>, groups: Seq<Group>)
    requires
        valid_groups(groups, dirs.len() as int),
    ensures
        after_merge(dirs, groups).to_multiset() == kept_positions(
            dirs.len(),
            |i: int| is_victim(groups, i),
        ).map_values(|p: int| combined(dirs, groups, p)).to_multiset(),
{
    let gone = |i: int| is_victim(groups, i);
    let whole = merged(dirs, groups);
    lemma_merged(dirs, groups);
    lemma_without_keeps_rest(whole, gone);
    lemma_kept_at_positions(whole, gone);
    lemma_kept_positions(dirs.len(), gone);
    let at = kept_positions(dirs.len(), gone);
    assert(at.map_values(|p: int| whole[p]) =~= at.map_values(
        |p: int| combined(dirs, groups, p),
    ));
}

/// Which entries the runs from `i` on take in: an entry is merged into an
/// earlier one where it has the path of the one before it, and the first entry
/// of a longer run takes in the rest of it.
pub proof fn lemma_runs_cover(dirs: Seq<DirView>, i: int, p: int)
    requires
        0 <= i <= p < dirs.len(),
    ensures
        is_victim(runs(dirs, i), p) <==> (p > i && dirs[p - 1].path == dirs[p].path),
        (p == i || dirs[p - 1].path != dirs[p].path) && run_end(dirs, p, p + 1) > p + 1
            ==> exists|g: int|
            0 <= g < runs(dirs, i).len() && (#[trigger] runs(dirs, i)[g]).0 == p,
    decreases dirs.len() - i,
{
    let end = run_end(dirs, i, i + 1);
    let all = runs(dirs, i);
    let rest = runs(dirs, end);
    lemma_run_end(dirs, i, i + 1);
    lemma_runs_apart(dirs, i);
    if end < dirs.len() {
        lemma_runs_apart(dirs, end);
    }
    if end - i > 1 {
        assert(all =~= seq![(i, range(i + 1, end))] + rest);
        assert(all[0] == (i, range(i + 1, end)));
        assert forall|g: int| 0 <= g < rest.len() implies all[g + 1] == #[trigger] rest[g] by {}
    } else {
        assert(all == rest);
    }
    if p < end {
        assert(dirs[p].path == dirs[i].path);
        if p > i {
            assert(dirs[p - 1].path == dirs[i].path);
            assert(range(i + 1, end)[p - i - 1] == p);
            assert(all[0].1.contains(p));
        } else {
            if end - i > 1 {
                assert(all[0].0 == p);
            }
            if is_victim(all, p) {
                let g = choose|g: int| 0 <= g < all.len() && (#[trigger] all[g]).1.contains(p);
                let group = all[g];
                assert(group.1 == range(group.0 + 1, group.0 + 1 + group.1.len()));
            }
        }
    } else {
        lemma_runs_cover(dirs, end, p);
        if p == end {
            assert(dirs[p - 1].path == dirs[i].path);
        }
        if is_victim(rest, p) {
            let g = choose|g: int| 0 <= g < rest.len() && (#[trigger] rest[g]).1.contains(p);
            if end - i > 1 {
                assert(all[g + 1].1.contains(p));
            } else {
                assert(all[g].1.contains(p));
            }
        }
        if is_victim(all, p) {
            let g = choose|g: int| 0 <= g < all.len() && (#[trigger] all[g]).1.contains(p);
            if end - i > 1 {
                if g > 0 {
                    assert(rest[g - 1].1.contains(p));
                }
            } else {
                assert(rest[g].1.contains(p));
            }
        }
        if exists|g: int| 0 <= g < rest.len() && (#[trigger] rest[g]).0 == p {
            let g = choose|g: int| 0 <= g < rest.len() && (#[trigger] rest[g]).0 == p;
            if end - i > 1 {
                assert(all[g + 1].0 == p);
            } else {
                assert(all[g].0 == p);
            }
        }
    }
}

} // verus!
