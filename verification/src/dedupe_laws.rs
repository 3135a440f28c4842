//! What holds of merging equivalent entries, whatever the database and the
//! file system hold.

use vstd::prelude::*;

use crate::census::{fusion_groups, lemma_census_group, lemma_census_parts, lemma_fusions_valid};
use crate::census::{respelled, Census, FusionView};
use crate::cmd::Dedupe;
use crate::dir::DirView;
use crate::fold::folded;
use crate::grouping::{entries_at, has_twin, latest, latest_access_is_kept, lemma_first_like_same};
use crate::grouping::{lemma_members, FileId};
use crate::merge::{absorbed, combined, is_victim, lemma_absorbed_path, kept, kept_positions};
use crate::merge::{lemma_kept_at_positions, lemma_kept_positions, lemma_merged};
use crate::merge::{lemma_without_keeps_rest, merged, swap_removed, without};
use crate::sort::{all_are, lemma_sort_all, lemma_sort_permutes};
use crate::text::text_leq;

verus! {

/// Whether two entries are spellings of one directory: both are selected, their
/// paths have the same folding and, unless that is assumed, lead to the same
/// file.
pub open spec fn equivalent(census: Census, i: int, j: int) -> bool {
    &&& census.selected[i]
    &&& census.selected[j]
    &&& folded(census.dirs[i].path) == folded(census.dirs[j].path)
    &&& census.assume_insensitive || (census.ids[i] is Some && census.ids[i] == census.ids[j])
}

/// Two entries become one exactly if they are spellings of one directory.
/// Entries whose file is not known never do, unless it is not asked for.
pub proof fn entries_become_one_iff_equivalent(census: Census, i: int, j: int)
    requires
        census.wf(),
        0 <= i < census.dirs.len(),
        0 <= j < census.dirs.len(),
        i != j,
    ensures
        census.parts()[i] == census.parts()[j] <==> equivalent(census, i, j),
{
    lemma_first_like_same(census.keys(), i, j);
}

/// The positions in `0..n` that are left, in the order that removing the
/// others leaves them in.
pub open spec fn left_positions(n: nat, gone: spec_fn(int) -> bool) -> Seq<int> {
    without(Seq::new(n, |i: int| i), n, gone)
}

proof fn lemma_without_map<T>(s: Seq<T>, at: Seq<int>, n: nat, gone: spec_fn(int) -> bool, all: Seq<T>)
    requires
        n <= s.len(),
        s == at.map_values(|p: int| all[p]),
    ensures
        without(s, n, gone) == without(at, n, gone).map_values(|p: int| all[p]),
    decreases n,
{
    if n > 0 {
        if gone(n - 1) {
            let t = swap_removed(s, n - 1);
            let u = swap_removed(at, n - 1);
            assert(t =~= u.map_values(|p: int| all[p]));
            lemma_without_map(t, u, (n - 1) as nat, gone, all);
        } else {
            lemma_without_map(s, at, (n - 1) as nat, gone, all);
        }
    }
}

/// Removing entries leaves those at the positions that stay, each once.
pub proof fn lemma_left_positions<T>(s: Seq<T>, gone: spec_fn(int) -> bool)
    ensures
        without(s, s.len(), gone) == left_positions(s.len(), gone).map_values(|p: int| s[p]),
        forall|i: int|
            0 <= i < left_positions(s.len(), gone).len() ==> {
                let p = #[trigger] left_positions(s.len(), gone)[i];
                0 <= p < s.len() && !gone(p)
            },
        forall|i: int, j: int|
            0 <= i < j < left_positions(s.len(), gone).len() ==> #[trigger] left_positions(
                s.len(),
                gone,
            )[i] != #[trigger] left_positions(s.len(), gone)[j],
        forall|p: int|
            0 <= p < s.len() && !(#[trigger] gone(p)) ==> left_positions(s.len(), gone).contains(p),
{
    broadcast use vstd::seq_lib::group_to_multiset_ensures;

    let n = s.len();
    let at = Seq::new(n, |i: int| i);
    let left = left_positions(n, gone);
    let rest = kept(at, gone);
    assert(s =~= at.map_values(|p: int| s[p]));
    lemma_without_map(s, at, n, gone, s);
    lemma_without_keeps_rest(at, gone);
    lemma_kept_at_positions(at, gone);
    lemma_kept_positions(n, gone);
    assert(rest =~= kept_positions(n, gone));
    assert(rest.no_duplicates()) by {
        assert forall|a: int, b: int| 0 <= a < rest.len() && 0 <= b < rest.len() && a
            != b implies rest[a] != rest[b] by {
            if a < b {
                assert(rest[a] < rest[b]);
            } else {
                assert(rest[b] < rest[a]);
            }
        }
    }
    rest.lemma_multiset_has_no_duplicates();
    left.lemma_multiset_has_no_duplicates_conv();
    assert forall|i: int| 0 <= i < left.len() implies {
        let p = #[trigger] left[i];
        0 <= p < n && !gone(p)
    } by {
        assert(left.to_multiset().count(left[i]) > 0);
        assert(rest.contains(left[i]));
        let k = rest.index_of(left[i]);
        assert(rest[k] == left[i]);
    }
    assert forall|p: int| 0 <= p < n && !(#[trigger] gone(p)) implies left.contains(p) by {
        assert(rest.contains(p));
        assert(rest.to_multiset().count(p) > 0);
        assert(left.to_multiset().count(p) > 0);
    }
}

/// A file system that does not change, and a selection that goes by paths.
pub struct Disk {
    pub selects: spec_fn(Seq<char>) -> bool,
    pub id: spec_fn(Seq<char>) -> Option<FileId>,
    pub spelling: spec_fn(Seq<char>) -> Option<Seq<char>>,
}

impl Disk {
    /// Whether the spelling of a path on disk has the folding of the path, and
    /// leads to the same file.
    pub open spec fn steady(self) -> bool {
        forall|path: Seq<char>|
            match #[trigger] (self.spelling)(path) {
                Some(spelling) => folded(spelling) == folded(path) && (self.id)(spelling) == (
                self.id)(path),
                None => true,
            }
    }

    /// Which entries are selected.
    pub open spec fn selected(self, dirs: Seq<DirView>) -> Seq<bool> {
        Seq::new(dirs.len(), |i: int| (self.selects)(dirs[i].path))
    }

    /// What is known of the entries once the files were told that the command
    /// asks for.
    pub open spec fn census(self, dedupe: Dedupe, dirs: Seq<DirView>) -> Census {
        dedupe.census(
            dirs,
            self.selected(dirs),
            Seq::new(
                dirs.len(),
                |i: int|
                    if !dedupe.assume_insensitive && self.selected(dirs)[i] && has_twin(
                        dirs,
                        self.selected(dirs),
                        i,
                    ) {
                        (self.id)(dirs[i].path)
                    } else {
                        None
                    },
            ),
            Seq::new(dirs.len(), |i: int| (self.spelling)(dirs[i].path)),
        )
    }
}

/// Whether a path is one that the entry at `p` can get: its own, or if it is
/// the survivor of a group the one that the group is given.
spec fn is_path_for(census: Census, p: int, path: Seq<char>) -> bool {
    path == census.dirs[p].path || exists|r: int|
        0 <= r < census.dirs.len() && census.group(r).len() > 1 && #[trigger] census.survivor(r)
            == p && path == census.path(r)
}

proof fn lemma_front(census: Census, fusions: Seq<FusionView>)
    requires
        census.wf(),
        fusions.len() > 0,
        all_are(fusions, |fusion: FusionView| is_fusion(census, fusion)),
    ensures
        all_are(fusions.drop_last(), |fusion: FusionView| is_fusion(census, fusion)),
        is_fusion(census, fusions.last()),
        0 <= fusions.last().survivor < census.dirs.len(),
{
    let good = |fusion: FusionView| is_fusion(census, fusion);
    let front = fusions.drop_last();
    assert forall|g: int| 0 <= g < front.len() implies good(#[trigger] front[g]) by {
        assert(good(fusions[g]));
    }
    assert(good(fusions[fusions.len() - 1]));
    let r = choose|r: int|
        0 <= r < census.dirs.len() && census.group(r).len() > 1 && fusions.last()
            == #[trigger] census.fusion(r);
    lemma_census_group(census, r);
    assert(census.group(r).contains(census.survivor(r)));
}

pub proof fn lemma_respelled_len(census: Census, fusions: Seq<FusionView>)
    requires
        census.wf(),
        all_are(fusions, |fusion: FusionView| is_fusion(census, fusion)),
    ensures
        respelled(census.dirs, fusions).len() == census.dirs.len(),
    decreases fusions.len(),
{
    if fusions.len() > 0 {
        lemma_front(census, fusions);
        lemma_respelled_len(census, fusions.drop_last());
    }
}

proof fn lemma_respelled(census: Census, fusions: Seq<FusionView>, p: int)
    requires
        census.wf(),
        0 <= p < census.dirs.len(),
        all_are(fusions, |fusion: FusionView| is_fusion(census, fusion)),
    ensures
        is_path_for(census, p, respelled(census.dirs, fusions)[p].path),
    decreases fusions.len(),
{
    if fusions.len() > 0 {
        let front = fusions.drop_last();
        lemma_front(census, fusions);
        lemma_respelled(census, front, p);
        lemma_respelled_len(census, front);
        let fusion = fusions.last();
        if fusion.survivor == p {
            let r = choose|r: int|
                0 <= r < census.dirs.len() && census.group(r).len() > 1 && fusion
                    == #[trigger] census.fusion(r);
            assert(census.survivor(r) == p);
        }
    }
}

/// Whether this is what becomes of some group.
pub open spec fn is_fusion(census: Census, fusion: FusionView) -> bool {
    exists|r: int|
        0 <= r < census.dirs.len() && census.group(r).len() > 1 && fusion == #[trigger] census.fusion(
            r,
        )
}

proof fn lemma_leaders(census: Census)
    requires
        census.wf(),
    ensures
        forall|g: int|
            0 <= g < census.leaders().len() ==> 0 <= #[trigger] census.leaders()[g]
                < census.dirs.len() && census.group(census.leaders()[g]).len() > 1,
        forall|r: int|
            0 <= r < census.dirs.len() && (#[trigger] census.group(r)).len() > 1
                ==> census.leaders().contains(r),
{
    lemma_kept_positions(census.dirs.len(), census.alone());
    assert forall|g: int| 0 <= g < census.leaders().len() implies 0
        <= #[trigger] census.leaders()[g] < census.dirs.len() && census.group(
        census.leaders()[g],
    ).len() > 1 by {
        assert(!census.alone()(census.leaders()[g]));
    }
    assert forall|r: int| 0 <= r < census.dirs.len() && (#[trigger] census.group(r)).len()
        > 1 implies census.leaders().contains(r) by {
        assert(!census.alone()(r));
    }
}

pub proof fn lemma_fusions(census: Census)
    requires
        census.wf(),
    ensures
        all_are(census.fusions(), |fusion: FusionView| is_fusion(census, fusion)),
        forall|r: int|
            0 <= r < census.dirs.len() && (#[trigger] census.group(r)).len() > 1
                ==> census.fusions().contains(census.fusion(r)),
{
    broadcast use vstd::seq_lib::group_to_multiset_ensures;

    let good = |fusion: FusionView| is_fusion(census, fusion);
    let leq = |a: FusionView, b: FusionView| text_leq(a.path, b.path);
    let unsorted = census.leaders().map_values(|r: int| census.fusion(r));
    lemma_leaders(census);
    assert(all_are(unsorted, good)) by {
        assert forall|g: int| 0 <= g < unsorted.len() implies good(#[trigger] unsorted[g]) by {
            let r = census.leaders()[g];
            assert(unsorted[g] == census.fusion(r));
        }
    }
    lemma_sort_all(unsorted, leq, good);
    lemma_sort_permutes(unsorted, leq);
    assert forall|r: int| 0 <= r < census.dirs.len() && (#[trigger] census.group(r)).len()
        > 1 implies census.fusions().contains(census.fusion(r)) by {
        let g = census.leaders().index_of(r);
        assert(unsorted[g] == census.fusion(r));
        assert(unsorted.to_multiset().count(unsorted[g]) > 0);
        assert(census.fusions().to_multiset().count(unsorted[g]) > 0);
    }
}

/// Where an entry that there is then was, and the path that it has.
proof fn lemma_outcome(census: Census, a: int)
    requires
        census.wf(),
        0 <= a < census.outcome().len(),
    ensures
        ({
            let groups = fusion_groups(census.fusions());
            let left = left_positions(census.dirs.len(), |i: int| is_victim(groups, i));
            let p = left[a];
            &&& left.len() == census.outcome().len()
            &&& 0 <= p < census.dirs.len()
            &&& !is_victim(groups, p)
            &&& is_path_for(census, p, census.outcome()[a].path)
            &&& forall|b: int| 0 <= b < left.len() && b != a ==> #[trigger] left[b] != p
        }),
{
    let fusions = census.fusions();
    let groups = fusion_groups(fusions);
    let gone = |i: int| is_victim(groups, i);
    let before = respelled(census.dirs, fusions);
    let whole = merged(before, groups);
    lemma_fusions(census);
    lemma_fusions_valid(census);
    lemma_respelled_len(census, fusions);
    lemma_merged(before, groups);
    lemma_left_positions(whole, gone);
    let left = left_positions(census.dirs.len(), gone);
    let p = left[a];
    assert(census.outcome() == left.map_values(|p: int| whole[p]));
    assert(whole[p] == combined(before, groups, p));
    if exists|g: int| 0 <= g < groups.len() && (#[trigger] groups[g]).0 == p {
        let g = choose|g: int| 0 <= g < groups.len() && (#[trigger] groups[g]).0 == p;
        lemma_absorbed_path(before[p], groups[g].1.map_values(|i: int| before[i]));
    }
    lemma_respelled(census, fusions, p);
    assert forall|b: int| 0 <= b < left.len() && b != a implies #[trigger] left[b] != p by {
        if a < b {
            assert(left[a] != left[b]);
        } else {
            assert(left[b] != left[a]);
        }
    }
}

/// An entry of a group of several that does not go away is its survivor.
proof fn lemma_only_survivor(census: Census, p: int)
    requires
        census.wf(),
        0 <= p < census.dirs.len(),
        !is_victim(fusion_groups(census.fusions()), p),
        census.group(census.parts()[p]).len() > 1,
    ensures
        census.survivor(census.parts()[p]) == p,
{
    let r = census.parts()[p];
    let out = Seq::new(census.dirs.len(), |i: int| false);
    let groups = fusion_groups(census.fusions());
    lemma_census_parts(census);
    lemma_census_group(census, r);
    lemma_members(census.parts(), out, r);
    assert(census.parts()[p] == r);
    assert(census.group(r).contains(p));
    lemma_fusions(census);
    if census.survivor(r) != p {
        assert(census.victims(r).contains(p));
        let g = census.fusions().index_of(census.fusion(r));
        assert(groups[g] == (census.survivor(r), census.victims(r)));
        assert(groups[g].1.contains(p));
    }
}

/// What is known of the entry that an entry that is selected then was.
proof fn lemma_origin(disk: Disk, dedupe: Dedupe, dirs: Seq<DirView>, p: int, path: Seq<char>)
    requires
        disk.steady(),
        0 <= p < dirs.len(),
        is_path_for(disk.census(dedupe, dirs), p, path),
        (disk.selects)(path),
    ensures
        (disk.selects)(dirs[p].path),
        folded(dirs[p].path) == folded(path),
        (disk.id)(dirs[p].path) == (disk.id)(path),
{
    let census = disk.census(dedupe, dirs);
    if path != dirs[p].path {
        let r = choose|r: int|
            0 <= r < census.dirs.len() && census.group(r).len() > 1 && #[trigger] census.survivor(r)
                == p && path == census.path(r);
        lemma_census_group(census, r);
        let group = census.group(r);
        assert(group.contains(p));
        // An entry that is not selected is in no group with another.
        if !census.selected[p] {
            let q = if group[0] == p {
                group[1]
            } else {
                group[0]
            };
            assert(group.contains(q));
            assert(q != p) by {
                assert(group[0] != group[1]);
            }
            entries_become_one_iff_equivalent(census, p, q);
        }
        assert(census.spellings[p] == (disk.spelling)(dirs[p].path));
    }
}

/// Merging is idempotent: done again, with the same options and the same file
/// system, it finds nothing to merge.
pub proof fn deduping_again_finds_nothing(disk: Disk, dedupe: Dedupe, dirs: Seq<DirView>)
    requires
        disk.steady(),
    ensures
        disk.census(dedupe, disk.census(dedupe, dirs).outcome()).fusions().len() == 0,
{
    let census = disk.census(dedupe, dirs);
    let rows = census.outcome();
    let again = disk.census(dedupe, rows);
    let out = Seq::new(rows.len(), |i: int| false);
    assert forall|a: int, b: int|
        0 <= a < rows.len() && 0 <= b < rows.len() && a != b implies !equivalent(again, a, b) by {
        if equivalent(again, a, b) {
            lemma_again_apart(disk, dedupe, dirs, a, b);
        }
    }
    assert forall|r: int| 0 <= r < rows.len() implies (#[trigger] again.group(r)).len() <= 1 by {
        let group = again.group(r);
        lemma_census_parts(again);
        lemma_members(again.parts(), out, r);
        if group.len() > 1 {
            let a = group[0];
            let b = group[1];
            assert(a < b);
            entries_become_one_iff_equivalent(again, a, b);
        }
    }
    lemma_leaders(again);
    if again.leaders().len() > 0 {
        assert(again.group(again.leaders()[0]).len() > 1);
    }
    lemma_sort_permutes(
        again.leaders().map_values(|r: int| again.fusion(r)),
        |a: FusionView, b: FusionView| text_leq(a.path, b.path),
    );
}

/// A second time, no two entries are spellings of one directory.
proof fn lemma_again_apart(disk: Disk, dedupe: Dedupe, dirs: Seq<DirView>, a: int, b: int)
    requires
        disk.steady(),
        0 <= a < disk.census(dedupe, dirs).outcome().len(),
        0 <= b < disk.census(dedupe, dirs).outcome().len(),
        equivalent(disk.census(dedupe, disk.census(dedupe, dirs).outcome()), a, b),
    ensures
        a == b,
{
    let census = disk.census(dedupe, dirs);
    let rows = census.outcome();
    let again = disk.census(dedupe, rows);
    let groups = fusion_groups(census.fusions());
    let left = left_positions(census.dirs.len(), |i: int| is_victim(groups, i));
    let p = left[a];
    let q = left[b];
    lemma_outcome(census, a);
    lemma_outcome(census, b);
    if a != b {
        assert(left[b] != p);
        assert((disk.selects)(rows[a].path) && (disk.selects)(rows[b].path));
        lemma_origin(disk, dedupe, dirs, p, rows[a].path);
        lemma_origin(disk, dedupe, dirs, q, rows[b].path);
        assert(census.selected[p] && census.selected[q]);
        if !dedupe.assume_insensitive {
            assert(has_twin(dirs, census.selected, p)) by {
                assert(census.selected[q]);
            }
            assert(has_twin(dirs, census.selected, q)) by {
                assert(census.selected[p]);
            }
            assert(census.ids[p] == (disk.id)(dirs[p].path));
            assert(census.ids[q] == (disk.id)(dirs[q].path));
            assert(again.ids[a] == (disk.id)(rows[a].path));
        }
        assert(equivalent(census, p, q));
        entries_become_one_iff_equivalent(census, p, q);
        let r = census.parts()[p];
        lemma_census_parts(census);
        let out = Seq::new(census.dirs.len(), |i: int| false);
        lemma_members(census.parts(), out, r);
        assert(census.parts()[p] == r && census.parts()[q] == r);
        assert(census.group(r).contains(p) && census.group(r).contains(q));
        let i = census.group(r).index_of(p);
        let j = census.group(r).index_of(q);
        assert(census.group(r)[i] == p && census.group(r)[j] == q);
        assert(census.group(r).len() > 1);
        lemma_only_survivor(census, p);
        lemma_only_survivor(census, q);
    }
}

/// An entry that is a spelling of no other's directory stays exactly as it is.
pub proof fn lone_entries_are_untouched(census: Census, i: int)
    requires
        census.wf(),
        0 <= i < census.dirs.len(),
        forall|j: int|
            0 <= j < census.dirs.len() && j != i ==> !(#[trigger] equivalent(census, i, j)),
    ensures
        census.outcome().contains(census.dirs[i]),
{
    broadcast use vstd::seq_lib::group_to_multiset_ensures;

    let fusions = census.fusions();
    let groups = fusion_groups(fusions);
    let gone = |i: int| is_victim(groups, i);
    let before = respelled(census.dirs, fusions);
    let whole = merged(before, groups);
    lemma_fusions(census);
    lemma_fusions_valid(census);
    lemma_respelled_len(census, fusions);
    lemma_merged(before, groups);
    // The entry is neither the survivor of a group nor merged into one.
    assert forall|g: int| 0 <= g < fusions.len() implies (#[trigger] fusions[g]).survivor != i
        && !fusions[g].victims.contains(i) by {
        assert((|fusion: FusionView| is_fusion(census, fusion))(fusions[g]));
        let r = choose|r: int|
            0 <= r < census.dirs.len() && census.group(r).len() > 1 && fusions[g]
                == #[trigger] census.fusion(r);
        lemma_census_group(census, r);
        let group = census.group(r);
        if group.contains(i) {
            let q = if group[0] == i {
                group[1]
            } else {
                group[0]
            };
            assert(group.contains(q));
            assert(group[0] != group[1]);
            entries_become_one_iff_equivalent(census, i, q);
        }
    }
    lemma_respelled_other(census, fusions, i);
    if is_victim(groups, i) {
        let g = choose|g: int| 0 <= g < groups.len() && (#[trigger] groups[g]).1.contains(i);
        assert(fusions[g].victims.contains(i));
    }
    if exists|g: int| 0 <= g < groups.len() && (#[trigger] groups[g]).0 == i {
        let g = choose|g: int| 0 <= g < groups.len() && (#[trigger] groups[g]).0 == i;
        assert(fusions[g].survivor == i);
    }
    assert(whole[i] == census.dirs[i]);
    lemma_without_keeps_rest(whole, gone);
    lemma_kept_at_positions(whole, gone);
    lemma_kept_positions(whole.len(), gone);
    assert(!gone(i));
    let k = kept_positions(whole.len(), gone).index_of(i);
    let rest = kept(whole, gone);
    assert(rest[k] == whole[i]);
    assert(rest.to_multiset().count(whole[i]) > 0);
    assert(census.outcome().to_multiset().count(whole[i]) > 0);
}

pub proof fn lemma_respelled_other(census: Census, fusions: Seq<FusionView>, i: int)
    requires
        census.wf(),
        0 <= i < census.dirs.len(),
        all_are(fusions, |fusion: FusionView| is_fusion(census, fusion)),
        forall|g: int| 0 <= g < fusions.len() ==> (#[trigger] fusions[g]).survivor != i,
    ensures
        respelled(census.dirs, fusions)[i] == census.dirs[i],
    decreases fusions.len(),
{
    if fusions.len() > 0 {
        let front = fusions.drop_last();
        lemma_front(census, fusions);
        lemma_respelled_len(census, front);
        assert(fusions[fusions.len() - 1].survivor != i);
        assert forall|g: int| 0 <= g < front.len() implies (#[trigger] front[g]).survivor != i by {
            assert(fusions[g].survivor != i);
        }
        lemma_respelled_other(census, front, i);
    }
}

/// Whether an entry goes away, as a function value.
pub open spec fn goes_away(census: Census) -> spec_fn(int) -> bool {
    |i: int| is_victim(fusion_groups(census.fusions()), i)
}

/// The position that each of the entries that there are then had before.
pub open spec fn origins(census: Census) -> Seq<int> {
    left_positions(census.dirs.len(), goes_away(census))
}

/// The latest access of an entry and of those merged into it.
pub proof fn lemma_absorbed_latest(first: DirView, others: Seq<DirView>)
    ensures
        absorbed(first, others).last_accessed >= first.last_accessed,
        forall|k: int|
            0 <= k < others.len() ==> absorbed(first, others).last_accessed
                >= (#[trigger] others[k]).last_accessed,
        absorbed(first, others).last_accessed == first.last_accessed || exists|k: int|
            0 <= k < others.len() && absorbed(first, others).last_accessed
                == (#[trigger] others[k]).last_accessed,
    decreases others.len(),
{
    if others.len() > 0 {
        let front = others.drop_last();
        lemma_absorbed_latest(first, front);
        let before = absorbed(first, front).last_accessed;
        let last = others.len() - 1;
        assert(others[last] == others.last());
        assert forall|k: int| 0 <= k < others.len() implies absorbed(first, others).last_accessed
            >= (#[trigger] others[k]).last_accessed by {
            if k < last {
                assert(front[k] == others[k]);
            }
        }
        if before >= others.last().last_accessed && before != first.last_accessed {
            let k = choose|k: int|
                0 <= k < front.len() && before == (#[trigger] front[k]).last_accessed;
            assert(others[k] == front[k]);
        }
    }
}

/// The survivor of a group gets the path of the group, and keeps its rank and
/// access.
pub proof fn lemma_respelled_at(census: Census, fusions: Seq<FusionView>, g: int)
    requires
        census.wf(),
        all_are(fusions, |fusion: FusionView| is_fusion(census, fusion)),
        0 <= g < fusions.len(),
        0 <= fusions[g].survivor < census.dirs.len(),
        forall|h: int|
            0 <= h < fusions.len() && h != g ==> (#[trigger] fusions[h]).survivor
                != fusions[g].survivor,
    ensures
        respelled(census.dirs, fusions)[fusions[g].survivor] == (DirView {
            path: fusions[g].path,
            ..census.dirs[fusions[g].survivor]
        }),
    decreases fusions.len(),
{
    let front = fusions.drop_last();
    let last = fusions.len() - 1;
    lemma_front(census, fusions);
    lemma_respelled_len(census, front);
    assert(fusions[last] == fusions.last());
    if g == last {
        assert forall|h: int| 0 <= h < front.len() implies (#[trigger] front[h]).survivor
            != fusions[g].survivor by {
            assert(fusions[h].survivor != fusions[g].survivor);
        }
        lemma_respelled_other(census, front, fusions[g].survivor);
    } else {
        assert(fusions[last].survivor != fusions[g].survivor);
        assert(front[g] == fusions[g]);
        assert forall|h: int| 0 <= h < front.len() && h != g implies (#[trigger] front[h]).survivor
            != front[g].survivor by {
            assert(fusions[h].survivor != fusions[g].survivor);
        }
        lemma_respelled_at(census, front, g);
    }
}

/// Only what ranks and accesses entries have goes into the entry that they are
/// merged into.
proof fn lemma_absorbed_same(first: DirView, a: Seq<DirView>, b: Seq<DirView>)
    requires
        a.len() == b.len(),
        forall|k: int|
            0 <= k < a.len() ==> (#[trigger] a[k]).rank == b[k].rank && a[k].last_accessed
                == b[k].last_accessed,
    ensures
        absorbed(first, a) == absorbed(first, b),
    decreases a.len(),
{
    if a.len() > 0 {
        let last = a.len() - 1;
        assert(a[last] == a.last() && b[last] == b.last());
        assert forall|k: int| 0 <= k < a.drop_last().len() implies (
        #[trigger] a.drop_last()[k]).rank == b.drop_last()[k].rank
            && a.drop_last()[k].last_accessed == b.drop_last()[k].last_accessed by {
            assert(a[k].rank == b[k].rank);
        }
        lemma_absorbed_same(first, a.drop_last(), b.drop_last());
    }
}

/// Survivors keep their ranks and accesses when they get their paths.
proof fn lemma_respelled_score(census: Census, fusions: Seq<FusionView>, p: int)
    requires
        census.wf(),
        0 <= p < census.dirs.len(),
        all_are(fusions, |fusion: FusionView| is_fusion(census, fusion)),
    ensures
        respelled(census.dirs, fusions)[p].rank == census.dirs[p].rank,
        respelled(census.dirs, fusions)[p].last_accessed == census.dirs[p].last_accessed,
    decreases fusions.len(),
{
    if fusions.len() > 0 {
        lemma_front(census, fusions);
        lemma_respelled_len(census, fusions.drop_last());
        lemma_respelled_score(census, fusions.drop_last(), p);
    }
}

/// Each group of several entries leaves exactly one: that of the survivor, with
/// the path of the group, the survivor's rank with the ranks of the others
/// added to it, and the latest access of all.
pub proof fn each_merged_group_leaves_one_entry(census: Census, r: int) -> (a: int)
    requires
        census.wf(),
        0 <= r < census.dirs.len(),
        census.group(r).len() > 1,
    ensures
        origins(census).len() == census.outcome().len(),
        0 <= a < census.outcome().len(),
        origins(census)[a] == census.survivor(r),
        forall|b: int|
            0 <= b < census.outcome().len() && census.group(r).contains(
                #[trigger] origins(census)[b],
            ) ==> b == a,
        census.outcome()[a] == absorbed(
            (DirView { path: census.path(r), ..census.dirs[census.survivor(r)] }),
            entries_at(census.dirs, census.victims(r)),
        ),
        census.outcome()[a].path == census.path(r),
        census.outcome()[a].last_accessed == latest(entries_at(census.dirs, census.group(r))),
{
    let fusions = census.fusions();
    let groups = fusion_groups(fusions);
    let gone = goes_away(census);
    let before = respelled(census.dirs, fusions);
    let whole = merged(before, groups);
    let left = origins(census);
    let survivor = census.survivor(r);
    let victims = census.victims(r);
    lemma_fusions(census);
    lemma_fusions_valid(census);
    lemma_census_group(census, r);
    lemma_respelled_len(census, fusions);
    lemma_merged(before, groups);
    lemma_left_positions(whole, gone);
    assert(gone =~= (|i: int| is_victim(groups, i)));
    assert(census.outcome() == left.map_values(|p: int| whole[p]));
    let g = fusions.index_of(census.fusion(r));
    assert(fusions[g] == census.fusion(r));
    assert(groups[g] == (survivor, victims));
    // The survivor does not go away.
    if is_victim(groups, survivor) {
        let h = choose|h: int| 0 <= h < groups.len() && (#[trigger] groups[h]).1.contains(survivor);
        if h != g {
            assert(!groups[h].1.contains(groups[g].0));
        }
    }
    assert(!gone(survivor));
    assert(left.contains(survivor));
    let a = left.index_of(survivor);
    assert(left[a] == survivor);
    // What it becomes.
    assert forall|h: int| 0 <= h < fusions.len() && h != g implies (#[trigger] fusions[h]).survivor
        != fusions[g].survivor by {
        assert(groups[h].0 != groups[g].0);
    }
    lemma_respelled_at(census, fusions, g);
    assert(groups[g].0 == survivor);
    let chosen = choose|h: int| 0 <= h < groups.len() && (#[trigger] groups[h]).0 == survivor;
    assert(chosen == g);
    let others = victims.map_values(|i: int| before[i]);
    let named = DirView { path: census.path(r), ..census.dirs[survivor] };
    let given = entries_at(census.dirs, victims);
    assert(whole[survivor] == absorbed(named, others));
    assert forall|k: int| 0 <= k < others.len() implies (#[trigger] others[k]).rank
        == given[k].rank && others[k].last_accessed == given[k].last_accessed by {
        assert(victims.contains(victims[k]));
        assert(census.group(r).contains(victims[k]));
        lemma_respelled_score(census, fusions, victims[k]);
    }
    lemma_absorbed_same(named, others, given);
    lemma_absorbed_path(named, given);
    // No other of the group stays.
    assert forall|b: int|
        0 <= b < census.outcome().len() && census.group(r).contains(#[trigger] left[b]) implies b
        == a by {
        let p = left[b];
        assert(!gone(p));
        if p != survivor {
            assert(victims.contains(p));
            assert(groups[g].1.contains(p));
        }
        if a < b {
            assert(left[a] != left[b]);
        } else if b < a {
            assert(left[b] != left[a]);
        }
    }
    lemma_group_latest(census, r);
    a
}

/// The latest access of a group does not depend on where its survivor stands.
proof fn lemma_group_latest(census: Census, r: int)
    requires
        census.wf(),
        0 <= r < census.dirs.len(),
        census.group(r).len() > 1,
    ensures
        absorbed(
            (DirView { path: census.path(r), ..census.dirs[census.survivor(r)] }),
            entries_at(census.dirs, census.victims(r)),
        ).last_accessed == latest(entries_at(census.dirs, census.group(r))),
{
    let group = census.group(r);
    let all = entries_at(census.dirs, group);
    let survivor = census.survivor(r);
    let victims = census.victims(r);
    let named = DirView { path: census.path(r), ..census.dirs[survivor] };
    let given = entries_at(census.dirs, victims);
    let found = absorbed(named, given).last_accessed;
    lemma_census_group(census, r);
    lemma_absorbed_latest(named, given);
    let place = latest_access_is_kept(all);
    // The latest is that of the survivor or of one that goes away.
    let i = group[place];
    assert(all[place] == census.dirs[i]);
    assert(group.contains(i));
    if i != survivor {
        assert(victims.contains(i));
        let k = victims.index_of(i);
        assert(given[k] == census.dirs[i]);
    }
    // What was found is that of a member.
    if found == named.last_accessed {
        let k = group.index_of(survivor);
        assert(all[k] == census.dirs[survivor]);
    } else {
        let k = choose|k: int|
            0 <= k < given.len() && found == (#[trigger] given[k]).last_accessed;
        assert(victims.contains(victims[k]));
        assert(group.contains(victims[k]));
        let j = group.index_of(victims[k]);
        assert(all[j] == census.dirs[victims[k]]);
    }
}

} // verus!
