//! What holds of tidying, whatever the database and the file system hold.

use vstd::prelude::*;

use crate::cmd::Tidy;
use crate::db::total_rank;
use crate::dir::DirView;
use crate::filesystem::{probing_the_spelling_tells_the_same, FileSystem};
use crate::fold::folded;
use crate::grouping::{entries_at, first_like, has_twin, latest, lemma_first_like};
use crate::grouping::{lemma_first_like_same, lemma_members, lemma_top, members, top, FileId};
use crate::merge::{kept_positions, lemma_kept_positions};
use crate::probe::ProbeView;
use crate::rank::{lemma_negative_zero_is_neutral, lemma_sum_is_canonical, signed};

use crate::report::MergeView;
use crate::sort::{ascending, lemma_sort_ascending, total_preorder};
use crate::survey::{pair_leq, Survey};
use crate::text::{lemma_text_leq_order, text_leq};
use crate::tidy::{lemma_exact_parts, lemma_pair_leq_order, lemma_parts, probe_needed};

verus! {

/// Whether entries have the same path after normalization changed one to it,
/// or are one.
pub open spec fn same_spot(survey: Survey, i: int, j: int) -> bool {
    i == j || (survey.collides(i) && survey.collides(j) && survey.path(i) == survey.path(j))
}

/// Whether the entry, or one with the same path after normalization, is
/// selected.
pub open spec fn spot_selected(survey: Survey, i: int) -> bool {
    exists|k: int|
        0 <= k < survey.dirs.len() && !survey.pruned(k) && same_spot(survey, i, k)
            && #[trigger] survey.selected[k]
}

/// The file that the entry's path leads to, or that of one with the same path
/// after normalization.
pub open spec fn spot_id(survey: Survey, i: int) -> Option<FileId> {
    survey.group_id(survey.exact_group(survey.exact_parts()[i]))
}

/// Whether two entries are to be merged as spellings of one directory: both are
/// selected, their paths have the same folding and, unless that is assumed,
/// the file system says that they lead to the same file.
pub open spec fn confirmed(survey: Survey, i: int, j: int) -> bool {
    &&& survey.dedupe
    &&& spot_selected(survey, i)
    &&& spot_selected(survey, j)
    &&& folded(survey.path(i)) == folded(survey.path(j))
    &&& survey.assume_insensitive || (spot_id(survey, i) is Some && spot_id(survey, i) == spot_id(
        survey,
        j,
    ))
}

pub proof fn lemma_spots(survey: Survey, i: int, j: int)
    requires
        survey.wf(),
        0 <= i < survey.dirs.len(),
        0 <= j < survey.dirs.len(),
    ensures
        survey.exact_parts()[i] == survey.exact_parts()[j] <==> same_spot(survey, i, j),
{
    lemma_exact_parts(survey);
    lemma_first_like_same(survey.exact_keys(), i, j);
}

/// The first entry with the same path as another has that path.
proof fn lemma_spot_path(survey: Survey, i: int)
    requires
        survey.wf(),
        0 <= i < survey.dirs.len(),
    ensures
        survey.path(survey.exact_parts()[i]) == survey.path(i),
{
    lemma_exact_parts(survey);
    lemma_first_like(survey.exact_keys(), i);
    let e = survey.exact_parts()[i];
    lemma_spots(survey, e, i);
}

proof fn lemma_spot_selected(survey: Survey, i: int)
    requires
        survey.wf(),
        0 <= i < survey.dirs.len(),
    ensures
        survey.any_selected(survey.exact_group(survey.exact_parts()[i])) <==> spot_selected(
            survey,
            i,
        ),
{
    let e = survey.exact_parts()[i];
    let group = survey.exact_group(e);
    lemma_exact_parts(survey);
    lemma_members(survey.exact_parts(), survey.out(), e);
    if survey.any_selected(group) {
        let k = choose|k: int| 0 <= k < group.len() && survey.selected[#[trigger] group[k]];
        let x = group[k];
        lemma_spots(survey, i, x);
        assert(survey.selected[x]);
    }
    if spot_selected(survey, i) {
        let x = choose|k: int|
            0 <= k < survey.dirs.len() && !survey.pruned(k) && same_spot(survey, i, k)
                && #[trigger] survey.selected[k];
        lemma_spots(survey, i, x);
        assert(survey.exact_parts()[x] == e);
        assert(group.contains(x));
        let k = group.index_of(x);
        assert(survey.selected[group[k]]);
    }
}

/// Two entries become one exactly if they have the same path after
/// normalization changed one to it, or are to be merged as spellings of one
/// directory.
pub proof fn entries_become_one_iff_they_belong_together(survey: Survey, i: int, j: int)
    requires
        survey.wf(),
        0 <= i < survey.dirs.len(),
        0 <= j < survey.dirs.len(),
    ensures
        survey.parts()[i] == survey.parts()[j] <==> same_spot(survey, i, j) || confirmed(
            survey,
            i,
            j,
        ),
{
    let e = survey.exact_parts()[i];
    let f = survey.exact_parts()[j];
    lemma_exact_parts(survey);
    lemma_spots(survey, i, j);
    lemma_spot_path(survey, i);
    lemma_spot_path(survey, j);
    lemma_spot_selected(survey, i);
    lemma_spot_selected(survey, j);
    lemma_first_like_same(survey.dedupe_keys(), e, f);
}

/// A path that could not be looked at is neither removed nor changed.
pub proof fn errors_leave_entries_alone(survey: Survey, i: int)
    requires
        survey.wf(),
        0 <= i < survey.dirs.len(),
        survey.failed(i),
    ensures
        !survey.pruned(i),
        survey.path(i) == survey.dirs[i].path,
        survey.live_id(i) is None,
{
}

/// An entry that is not selected is neither removed nor changed.
pub proof fn unselected_entries_keep_their_paths(survey: Survey, i: int)
    requires
        survey.wf(),
        0 <= i < survey.dirs.len(),
        !survey.selected[i],
    ensures
        !survey.pruned(i),
        survey.path(i) == survey.dirs[i].path,
{
}

/// Every entry that is not removed is accounted for in exactly one of the
/// entries that there are then.
pub proof fn every_entry_that_stays_has_a_row(survey: Survey, i: int)
    requires
        survey.wf(),
        0 <= i < survey.dirs.len(),
        !survey.pruned(i),
    ensures
        survey.group(survey.parts()[i]).contains(i),
        exists|a: int|
            0 <= a < survey.rows().len() && survey.parts()[#[trigger] survey.survivors()[a]]
                == survey.parts()[i] && survey.rows()[a] == survey.row(survey.parts()[i]),
        forall|a: int, b: int|
            0 <= a < survey.rows().len() && 0 <= b < survey.rows().len()
                && survey.parts()[#[trigger] survey.survivors()[a]]
                == survey.parts()[#[trigger] survey.survivors()[b]] ==> a == b,
{
    let r = survey.parts()[i];
    let group = survey.group(r);
    lemma_parts(survey);
    lemma_members(survey.parts(), survey.out(), r);
    lemma_kept_positions(survey.dirs.len(), survey.gone());
    assert(survey.parts()[i] == r);
    assert(group.contains(i));
    lemma_top(survey.dirs, group);
    let top = survey.survivor(r);
    let k = group.index_of(top);
    assert(group[k] == top);
    assert(!survey.gone()(top));
    assert(survey.survivors().contains(top));
    let a = survey.survivors().index_of(top);
    assert(survey.survivors()[a] == top);
    assert forall|a: int, b: int|
        0 <= a < survey.rows().len() && 0 <= b < survey.rows().len()
            && survey.parts()[#[trigger] survey.survivors()[a]]
            == survey.parts()[#[trigger] survey.survivors()[b]] implies a == b by {
        lemma_survivors_apart(survey, a, b);
    }
}

/// Different entries that survive are of different groups.
proof fn lemma_survivors_apart(survey: Survey, a: int, b: int)
    requires
        survey.wf(),
        0 <= a < survey.survivors().len(),
        0 <= b < survey.survivors().len(),
        survey.parts()[survey.survivors()[a]] == survey.parts()[survey.survivors()[b]],
    ensures
        a == b,
{
    lemma_kept_positions(survey.dirs.len(), survey.gone());
    assert(!survey.gone()(survey.survivors()[a]));
    assert(!survey.gone()(survey.survivors()[b]));
    assert(survey.survivors()[a] == survey.survivors()[b]);
    if a < b {
        assert(survey.survivors()[a] < survey.survivors()[b]);
    } else if b < a {
        assert(survey.survivors()[b] < survey.survivors()[a]);
    }
}

/// The reports are sorted: removed paths by path, changed paths by their old and
/// then their new spelling, and merges by the path that they get.
pub proof fn reports_are_sorted(survey: Survey)
    ensures
        ascending(survey.pruned_paths(), |a: Seq<char>, b: Seq<char>| text_leq(a, b)),
        ascending(
            survey.normalized_paths(),
            |a: (Seq<char>, Seq<char>), b: (Seq<char>, Seq<char>)| pair_leq(a, b),
        ),
        ascending(survey.merges(), |a: MergeView, b: MergeView| text_leq(a.path, b.path)),
{
    let by_text = |a: Seq<char>, b: Seq<char>| text_leq(a, b);
    let by_pair = |a: (Seq<char>, Seq<char>), b: (Seq<char>, Seq<char>)| pair_leq(a, b);
    let by_path = |a: MergeView, b: MergeView| text_leq(a.path, b.path);
    lemma_text_leq_order();
    lemma_pair_leq_order();
    assert(total_preorder(by_text)) by {
        assert forall|a: Seq<char>, b: Seq<char>| #[trigger] by_text(a, b) || by_text(b, a) by {
            assert(text_leq(a, b) || text_leq(b, a));
        }
    }
    assert(total_preorder(by_pair)) by {
        assert forall|a: (Seq<char>, Seq<char>), b: (Seq<char>, Seq<char>)|
            #[trigger] by_pair(a, b) || by_pair(b, a) by {
            assert(pair_leq(a, b) || pair_leq(b, a));
        }
    }
    assert(total_preorder(by_path)) by {
        assert forall|a: MergeView, b: MergeView| #[trigger] by_path(a, b) || by_path(b, a) by {
            assert(text_leq(a.path, b.path) || text_leq(b.path, a.path));
        }
    }
    lemma_sort_ascending(
        kept_positions(survey.dirs.len(), survey.not_pruned()).map_values(
            |i: int| survey.dirs[i].path,
        ),
        by_text,
    );
    lemma_sort_ascending(
        kept_positions(survey.dirs.len(), survey.not_normalized()).map_values(
            |i: int| (survey.dirs[i].path, survey.path(i)),
        ),
        by_pair,
    );
    lemma_sort_ascending(
        kept_positions(survey.dirs.len(), survey.not_merged()).map_values(
            |r: int| survey.merge(r),
        ),
        by_path,
    );
}

/// A file system that does not change, and a selection that goes by paths.
pub struct World {
    pub selects: spec_fn(Seq<char>) -> bool,
    pub probe: spec_fn(Seq<char>) -> ProbeView,
}

impl World {
    /// Whether looking at the spelling on disk of a path tells the same as
    /// looking at the path, and the spelling has the folding of the path. A
    /// path that cannot be looked at keeps its spelling.
    pub open spec fn steady(self) -> bool {
        forall|path: Seq<char>|
            {
                let probe = #[trigger] (self.probe)(path);
                if probe.state is Error {
                    probe.spelling == path
                } else {
                    folded(probe.spelling) == folded(path) && (self.probe)(probe.spelling) == probe
                }
            }
    }

    /// Which entries are selected.
    pub open spec fn selected(self, dirs: Seq<DirView>) -> Seq<bool> {
        Seq::new(dirs.len(), |i: int| (self.selects)(dirs[i].path))
    }

    /// What is known of the entries once the paths were looked at that the
    /// command asks for.
    pub open spec fn survey(self, tidy: Tidy, dirs: Seq<DirView>) -> Survey {
        tidy.survey(
            dirs,
            self.selected(dirs),
            Seq::new(
                dirs.len(),
                |i: int|
                    if probe_needed(tidy, dirs, self.selected(dirs), i) {
                        Some((self.probe)(dirs[i].path))
                    } else {
                        None
                    },
            ),
        )
    }
}

/// Whether the path of a row comes from the entry `k`: it is the path of the
/// entry, or the spelling of that path on disk.
spec fn comes_from(survey: Survey, a: int, k: int) -> bool {
    let path = survey.rows()[a].path;
    &&& 0 <= k < survey.dirs.len()
    &&& !survey.pruned(k)
    &&& survey.parts()[k] == survey.parts()[survey.survivors()[a]]
    &&& path == survey.path(k) || (survey.live_id(k) is Some && path
        == survey.probes[k]->0.spelling)
}

/// The first entry of a group whose path leads to a directory, where one does.
pub proof fn lemma_first_live(survey: Survey, group: Seq<int>)
    ensures
        match survey.first_live(group) {
            Some(i) => group.contains(i) && survey.live_id(i) is Some && exists|k: int|
                0 <= k < group.len() && #[trigger] group[k] == i && (forall|m: int|
                    0 <= m < k ==> survey.live_id(#[trigger] group[m]) is None),
            None => forall|k: int|
                0 <= k < group.len() ==> survey.live_id(#[trigger] group[k]) is None,
        },
    decreases group.len(),
{
    if group.len() > 0 {
        let front = group.drop_last();
        lemma_first_live(survey, front);
        match survey.first_live(front) {
            Some(i) => {
                let k = choose|k: int|
                    0 <= k < front.len() && #[trigger] front[k] == i && (forall|m: int|
                        0 <= m < k ==> survey.live_id(#[trigger] front[m]) is None);
                assert(group[k] == i);
                assert forall|m: int| 0 <= m < k implies survey.live_id(
                    #[trigger] group[m],
                ) is None by {
                    assert(front[m] == group[m]);
                }
            },
            None => {
                assert(group[group.len() - 1] == group.last());
                assert forall|k: int| 0 <= k < front.len() implies survey.live_id(
                    #[trigger] group[k],
                ) is None by {
                    assert(front[k] == group[k]);
                }
            },
        }
    }
}

/// Every row's path comes from some entry of its group.
proof fn lemma_row_source(survey: Survey, a: int) -> (k: int)
    requires
        survey.wf(),
        0 <= a < survey.rows().len(),
    ensures
        comes_from(survey, a, k),
{
    let i = survey.survivors()[a];
    lemma_parts(survey);
    lemma_kept_positions(survey.dirs.len(), survey.gone());
    assert(!survey.gone()(i));
    let r = survey.parts()[i];
    let group = survey.group(r);
    assert(survey.rows()[a] == survey.row(r));
    assert(survey.survivor(r) == i);
    if survey.dedupe && !survey.assume_insensitive && group.len() > 1 && survey.spelling(r) is Some
        && survey.live_id(i) is None {
        lemma_first_live(survey, group);
        let k = survey.first_live(group)->0;
        lemma_members(survey.parts(), survey.out(), r);
        let at = group.index_of(k);
        assert(group[at] == k);
        k
    } else {
        i
    }
}

/// Normalization does not create entries that compete under the same path:
/// where two have the same path then, two entries that stay already had it.
/// Merging by files without normalization is another matter: it gives an entry
/// the spelling on disk, whatever the paths of the others are.
pub proof fn normalization_creates_no_competing_rows(survey: Survey, a: int, b: int)
    requires
        survey.wf(),
        survey.normalize || !survey.dedupe || survey.assume_insensitive,
        forall|i: int|
            0 <= i < survey.dirs.len() && (#[trigger] survey.probes[i]) is Some
                ==> survey.selected[i],
        0 <= a < survey.rows().len(),
        0 <= b < survey.rows().len(),
        a != b,
        survey.rows()[a].path == survey.rows()[b].path,
    ensures
        exists|i: int, j: int|
            0 <= i < survey.dirs.len() && 0 <= j < survey.dirs.len() && i != j && !survey.pruned(i)
                && !survey.pruned(j) && (#[trigger] survey.dirs[i]).path == survey.rows()[a].path
                && (#[trigger] survey.dirs[j]).path == survey.rows()[b].path,
{
    let i = lemma_own_path(survey, a);
    let j = lemma_own_path(survey, b);
    if survey.parts()[i] == survey.parts()[j] {
        lemma_survivors_apart(survey, a, b);
    }
    if survey.normalized(i) || survey.normalized(j) {
        assert(survey.collides(i)) by {
            if survey.normalized(i) {
                assert(survey.path(i) == survey.path(i));
            } else {
                assert(survey.normalized(j));
            }
        }
        assert(survey.collides(j)) by {
            if survey.normalized(j) {
                assert(survey.path(j) == survey.path(j));
            } else {
                assert(survey.normalized(i));
            }
        }
        entries_become_one_iff_they_belong_together(survey, i, j);
    }
    assert(survey.dirs[i].path == survey.rows()[a].path);
    assert(survey.dirs[j].path == survey.rows()[b].path);
}

/// With normalization, or without merging by files, a row has the path of some
/// entry of its group after normalization.
proof fn lemma_own_path(survey: Survey, a: int) -> (k: int)
    requires
        survey.wf(),
        survey.normalize || !survey.dedupe || survey.assume_insensitive,
        forall|i: int|
            0 <= i < survey.dirs.len() && (#[trigger] survey.probes[i]) is Some
                ==> survey.selected[i],
        0 <= a < survey.rows().len(),
    ensures
        0 <= k < survey.dirs.len(),
        !survey.pruned(k),
        survey.parts()[k] == survey.parts()[survey.survivors()[a]],
        survey.rows()[a].path == survey.path(k),
{
    if !survey.dedupe || survey.assume_insensitive {
        let i = survey.survivors()[a];
        lemma_kept_positions(survey.dirs.len(), survey.gone());
        assert(!survey.gone()(i));
        i
    } else {
        let k = lemma_row_source(survey, a);
        assert(survey.probes[k] is Some ==> survey.selected[k]);
        k
    }
}

/// What is known of the entry that the path of a selected row comes from.
proof fn lemma_source(world: World, tidy: Tidy, dirs: Seq<DirView>, a: int, k: int)
    requires
        world.steady(),
        0 <= a < world.survey(tidy, dirs).rows().len(),
        comes_from(world.survey(tidy, dirs), a, k),
        (world.selects)(world.survey(tidy, dirs).rows()[a].path),
    ensures
        ({
            let survey = world.survey(tidy, dirs);
            let path = survey.rows()[a].path;
            let probe = (world.probe)(path);
            &&& survey.selected[k]
            &&& folded(survey.path(k)) == folded(path)
            &&& folded(dirs[k].path) == folded(path)
            &&& survey.probes[k] is Some ==> survey.probes[k] == Some(probe)
            &&& survey.prune ==> !(probe.state is Stale)
            &&& survey.normalize ==> probe.state is Error || probe.spelling == path
        }),
{
    let survey = world.survey(tidy, dirs);
    let path = survey.rows()[a].path;
    let probe = (world.probe)(dirs[k].path);
    assert(survey.probes[k] is Some ==> survey.probes[k] == Some(probe));
    assert(survey.selected[k] == (world.selects)(dirs[k].path));
    if survey.live_id(k) is Some && path == survey.probes[k]->0.spelling {
        assert((world.probe)(probe.spelling) == probe);
    } else {
        assert(path == survey.path(k));
        if survey.normalized(k) {
            assert((world.probe)(probe.spelling) == probe);
        }
    }
}

/// Two entries with the same path after normalization lead to the same file,
/// where that is known of both.
proof fn lemma_spot_ids_agree(world: World, tidy: Tidy, dirs: Seq<DirView>, x: int, y: int)
    requires
        world.steady(),
        0 <= x < dirs.len(),
        0 <= y < dirs.len(),
        same_spot(world.survey(tidy, dirs), x, y),
        !world.survey(tidy, dirs).pruned(x),
        !world.survey(tidy, dirs).pruned(y),
        world.survey(tidy, dirs).live_id(x) is Some,
        world.survey(tidy, dirs).live_id(y) is Some,
    ensures
        world.survey(tidy, dirs).live_id(x) == world.survey(tidy, dirs).live_id(y),
{
    let survey = world.survey(tidy, dirs);
    if x != y {
        let k = choose|k: int|
            0 <= k < survey.dirs.len() && !survey.pruned(k) && #[trigger] survey.normalized(k)
                && survey.path(k) == survey.path(x);
        assert(survey.normalized(k));
        assert(survey.normalize);
        let p = (world.probe)(dirs[x].path);
        let q = (world.probe)(dirs[y].path);
        assert(survey.probes[x] == Some(p));
        assert(survey.probes[y] == Some(q));
        assert(survey.path(x) == p.spelling);
        assert(survey.path(y) == q.spelling);
        assert((world.probe)(p.spelling) == p);
        assert((world.probe)(q.spelling) == q);
    }
}

proof fn lemma_spot_id(world: World, tidy: Tidy, dirs: Seq<DirView>, k: int)
    requires
        world.steady(),
        0 <= k < dirs.len(),
        !world.survey(tidy, dirs).pruned(k),
        world.survey(tidy, dirs).live_id(k) is Some,
    ensures
        spot_id(world.survey(tidy, dirs), k) == world.survey(tidy, dirs).live_id(k),
{
    let survey = world.survey(tidy, dirs);
    let e = survey.exact_parts()[k];
    let group = survey.exact_group(e);
    lemma_exact_parts(survey);
    lemma_members(survey.exact_parts(), survey.out(), e);
    assert(survey.exact_parts()[k] == e);
    assert(group.contains(k));
    lemma_first_live(survey, group);
    let at = group.index_of(k);
    assert(survey.live_id(group[at]) is Some);
    let x = survey.first_live(group)->0;
    let place = group.index_of(x);
    assert(group[place] == x);
    lemma_spots(survey, x, k);
    lemma_spot_ids_agree(world, tidy, dirs, x, k);
}

/// A second time, no entry is removed or gets another path.
proof fn lemma_again_unchanged(world: World, tidy: Tidy, dirs: Seq<DirView>, a: int)
    requires
        world.steady(),
        0 <= a < world.survey(tidy, dirs).rows().len(),
    ensures
        ({
            let again = world.survey(tidy, world.survey(tidy, dirs).rows());
            !again.pruned(a) && !again.normalized(a)
        }),
{
    let survey = world.survey(tidy, dirs);
    let rows = survey.rows();
    let again = world.survey(tidy, rows);
    let path = rows[a].path;
    assert(again.selected[a] == (world.selects)(path));
    if again.selected[a] {
        let k = lemma_row_source(survey, a);
        lemma_source(world, tidy, dirs, a, k);
        assert(again.probes[a] is Some ==> again.probes[a] == Some((world.probe)(path)));
    }
}

/// A second time, no two entries have the same path by normalization.
proof fn lemma_again_exact(world: World, tidy: Tidy, dirs: Seq<DirView>)
    requires
        world.steady(),
    ensures
        ({
            let rows = world.survey(tidy, dirs).rows();
            let again = world.survey(tidy, rows);
            &&& again.exact_parts() == Seq::new(rows.len(), |a: int| a)
            &&& again.out() == Seq::new(rows.len(), |a: int| false)
        }),
{
    let rows = world.survey(tidy, dirs).rows();
    let again = world.survey(tidy, rows);
    assert forall|a: int| 0 <= a < rows.len() implies !again.pruned(a) && !again.normalized(a) by {
        lemma_again_unchanged(world, tidy, dirs, a);
    }
    assert forall|a: int| 0 <= a < rows.len() implies again.exact_parts()[a] == a by {
        assert(!again.collides(a)) by {
            if again.collides(a) {
                let k = choose|k: int|
                    0 <= k < rows.len() && !again.pruned(k) && #[trigger] again.normalized(k)
                        && again.path(k) == again.path(a);
                assert(!again.normalized(k));
            }
        }
        assert(again.exact_keys()[a] is None);
    }
    assert(again.exact_parts() =~= Seq::new(rows.len(), |a: int| a));
    assert(again.out() =~= Seq::new(rows.len(), |a: int| false));
}

/// Where every entry is on its own, so is the part that each represents.
proof fn lemma_lone_member(n: nat, a: int)
    requires
        0 <= a < n,
    ensures
        members(Seq::new(n, |i: int| i), Seq::new(n, |i: int| false), a) == seq![a],
{
    let parts = Seq::new(n, |i: int| i);
    let out = Seq::new(n, |i: int| false);
    let group = members(parts, out, a);
    lemma_members(parts, out, a);
    assert(parts[a] == a);
    assert(group.contains(a));
    let k = group.index_of(a);
    assert forall|j: int| 0 <= j < group.len() implies group[j] == a by {
        assert(parts[group[j]] == a);
    }
    if group.len() > 1 {
        assert(group[0] < group[1]);
    }
    assert(group =~= seq![a]);
}

/// A second time, no two entries are to be merged.
proof fn lemma_again_apart(world: World, tidy: Tidy, dirs: Seq<DirView>, a: int, b: int)
    requires
        world.steady(),
        0 <= a < world.survey(tidy, dirs).rows().len(),
        0 <= b < world.survey(tidy, dirs).rows().len(),
        a != b,
    ensures
        ({
            let keys = world.survey(tidy, world.survey(tidy, dirs).rows()).dedupe_keys();
            keys[a] is Some ==> keys[a] != keys[b]
        }),
{
    let survey = world.survey(tidy, dirs);
    let rows = survey.rows();
    let again = world.survey(tidy, rows);
    let keys = again.dedupe_keys();
    if keys[a] is Some && keys[a] == keys[b] {
        lemma_again_exact(world, tidy, dirs);
        lemma_again_unchanged(world, tidy, dirs, a);
        lemma_again_unchanged(world, tidy, dirs, b);
        lemma_lone_member(rows.len(), a);
        lemma_lone_member(rows.len(), b);
        assert(again.exact_group(a) == seq![a]);
        assert(again.exact_group(b) == seq![b]);
        assert(seq![a].drop_last() =~= Seq::<int>::empty());
        assert(seq![b].drop_last() =~= Seq::<int>::empty());
        assert(again.first_live(seq![a].drop_last()) is None);
        assert(again.first_live(seq![b].drop_last()) is None);
        assert(seq![a].last() == a && seq![b].last() == b);
        assert(again.any_selected(seq![a]));
        assert(again.any_selected(seq![b]));
        assert(again.selected[a] && again.selected[b]);
        let j = lemma_row_source(survey, a);
        let k = lemma_row_source(survey, b);
        lemma_source(world, tidy, dirs, a, j);
        lemma_source(world, tidy, dirs, b, k);
        if j == k {
            lemma_survivors_apart(survey, a, b);
        }
        assert(spot_selected(survey, j)) by {
            assert(survey.selected[j] && same_spot(survey, j, j));
        }
        assert(spot_selected(survey, k)) by {
            assert(survey.selected[k] && same_spot(survey, k, k));
        }
        assert(folded(rows[a].path) == folded(rows[b].path));
        if !survey.assume_insensitive {
            assert(has_twin(dirs, survey.selected, j)) by {
                assert(survey.selected[k]);
            }
            assert(has_twin(dirs, survey.selected, k)) by {
                assert(survey.selected[j]);
            }
            assert(survey.probes[j] is Some && survey.probes[k] is Some);
            assert(survey.live_id(j) == again.live_id(a));
            assert(survey.live_id(k) == again.live_id(b));
            lemma_spot_id(world, tidy, dirs, j);
            lemma_spot_id(world, tidy, dirs, k);
        }
        assert(confirmed(survey, j, k));
        entries_become_one_iff_they_belong_together(survey, j, k);
        lemma_survivors_apart(survey, a, b);
    }
}

/// A second time, every entry is on its own.
proof fn lemma_again_parts(world: World, tidy: Tidy, dirs: Seq<DirView>)
    requires
        world.steady(),
    ensures
        ({
            let rows = world.survey(tidy, dirs).rows();
            let again = world.survey(tidy, rows);
            again.parts() == Seq::new(rows.len(), |a: int| a)
        }),
{
    let rows = world.survey(tidy, dirs).rows();
    let again = world.survey(tidy, rows);
    let keys = again.dedupe_keys();
    lemma_again_exact(world, tidy, dirs);
    assert forall|a: int| 0 <= a < rows.len() implies again.parts()[a] == a by {
        lemma_first_like(keys, a);
        let b = first_like(keys, a);
        assert(again.exact_parts()[a] == a);
        assert(again.parts()[a] == b);
        if b != a {
            lemma_again_apart(world, tidy, dirs, a, b);
        }
    }
    assert(again.parts() =~= Seq::new(rows.len(), |a: int| a));
}

proof fn lemma_keep_all(n: nat, gone: spec_fn(int) -> bool)
    requires
        forall|i: int| 0 <= i < n ==> !(#[trigger] gone(i)),
    ensures
        kept_positions(n, gone) == Seq::new(n, |i: int| i),
    decreases n,
{
    if n > 0 {
        lemma_keep_all((n - 1) as nat, gone);
        assert(!gone(n - 1));
    }
    assert(kept_positions(n, gone) =~= Seq::new(n, |i: int| i));
}

proof fn lemma_keep_none(n: nat, gone: spec_fn(int) -> bool)
    requires
        forall|i: int| 0 <= i < n ==> #[trigger] gone(i),
    ensures
        kept_positions(n, gone).len() == 0,
    decreases n,
{
    if n > 0 {
        lemma_keep_none((n - 1) as nat, gone);
        assert(gone(n - 1));
    }
}

/// Summing up a rank that is itself a sum changes nothing.
proof fn lemma_lone_score(entries: Seq<DirView>, dir: DirView)
    requires
        entries.len() > 0,
        dir.rank == total_rank(entries),
    ensures
        total_rank(seq![dir]) == dir.rank,
        latest(seq![dir]) == dir.last_accessed,
{
    assert(seq![dir].drop_last() =~= Seq::<DirView>::empty());
    lemma_sum_is_canonical(total_rank(entries.drop_last()), entries.last().rank);
    lemma_negative_zero_is_neutral(dir.rank);
    assert(total_rank(seq![dir].drop_last()) == signed(true, 0));
    assert(total_rank(seq![dir]) == signed(true, 0).sum(dir.rank));
    assert(latest(seq![dir].drop_last()) == 0);
    assert(seq![dir].last() == dir);
}

/// The rank of a row is a sum of ranks.
proof fn lemma_row_is_sum(survey: Survey, a: int)
    requires
        survey.wf(),
        0 <= a < survey.rows().len(),
    ensures
        ({
            let entries = entries_at(
                survey.dirs,
                survey.group(survey.parts()[survey.survivors()[a]]),
            );
            entries.len() > 0 && survey.rows()[a].rank == total_rank(entries)
        }),
{
    let i = survey.survivors()[a];
    lemma_parts(survey);
    lemma_kept_positions(survey.dirs.len(), survey.gone());
    assert(!survey.gone()(i));
    let r = survey.parts()[i];
    lemma_members(survey.parts(), survey.out(), r);
    assert(survey.parts()[i] == r);
    assert(survey.group(r).contains(i));
}

/// Tidying is idempotent: done again, with the same options and the same file
/// system, it removes, changes and merges nothing, and leaves the entries
/// exactly as they are.
pub proof fn tidying_again_changes_nothing(world: World, tidy: Tidy, dirs: Seq<DirView>)
    requires
        world.steady(),
    ensures
        ({
            let rows = world.survey(tidy, dirs).rows();
            let again = world.survey(tidy, rows);
            again.plan().changes_nothing() && again.rows() == rows
        }),
{
    let survey = world.survey(tidy, dirs);
    let rows = survey.rows();
    let again = world.survey(tidy, rows);
    let n = rows.len();
    lemma_again_exact(world, tidy, dirs);
    lemma_again_parts(world, tidy, dirs);
    assert forall|a: int| 0 <= a < n implies {
        &&& !again.pruned(a)
        &&& !again.normalized(a)
        &&& #[trigger] again.group(a) == seq![a]
        &&& again.survives(a)
    } by {
        lemma_again_unchanged(world, tidy, dirs, a);
        lemma_lone_member(n, a);
        assert(again.parts()[a] == a);
        assert(top(rows, seq![a]) == a);
    }
    assert forall|a: int| 0 <= a < n implies !(#[trigger] again.gone()(a)) by {
        assert(again.group(a) == seq![a]);
    }
    lemma_keep_all(n, again.gone());
    assert forall|a: int| 0 <= a < n implies #[trigger] again.not_pruned()(a) by {
        assert(again.group(a) == seq![a]);
    }
    assert forall|a: int| 0 <= a < n implies #[trigger] again.not_normalized()(a) by {
        assert(again.group(a) == seq![a]);
    }
    assert forall|a: int| 0 <= a < n implies #[trigger] again.not_merged()(a) by {
        assert(again.group(a) == seq![a]);
    }
    lemma_keep_none(n, again.not_pruned());
    lemma_keep_none(n, again.not_normalized());
    lemma_keep_none(n, again.not_merged());
    assert(again.plan().changes_nothing());
    assert(again.rows().len() == n);
    assert forall|a: int| 0 <= a < n implies again.rows()[a] == rows[a] by {
        assert(again.survivors()[a] == a);
        assert(again.parts()[a] == a);
        assert(again.group(a) == seq![a]);
        lemma_row_is_sum(survey, a);
        let entries = entries_at(
            survey.dirs,
            survey.group(survey.parts()[survey.survivors()[a]]),
        );
        lemma_lone_score(entries, rows[a]);
        assert(entries_at(rows, seq![a]) =~= seq![rows[a]]);
        assert(again.rows()[a] == again.row(a));
        assert(again.survivor(a) == a);
        assert(again.group_path(a) == again.path(a));
    }
    assert(again.rows() =~= rows);
}

/// Tidying is idempotent on any file system that does not change and is
/// coherent: a name that a directory lists can be looked at, and a path that
/// was put together from components has these components. Whatever paths were
/// told and corrected by walking along them, doing it again removes, changes
/// and merges nothing, and leaves the entries exactly as they are.
pub proof fn tidying_again_on_disk_changes_nothing(
    fs: FileSystem,
    selects: spec_fn(Seq<char>) -> bool,
    tidy: Tidy,
    dirs: Seq<DirView>,
)
    requires
        fs.coherent(),
    ensures
        ({
            let world = World { selects, probe: |path: Seq<char>| fs.probe(path) };
            let rows = world.survey(tidy, dirs).rows();
            let again = world.survey(tidy, rows);
            again.plan().changes_nothing() && again.rows() == rows
        }),
{
    let world = World { selects, probe: |path: Seq<char>| fs.probe(path) };
    assert(world.steady()) by {
        assert forall|path: Seq<char>|
            {
                let probe = #[trigger] (world.probe)(path);
                if probe.state is Error {
                    probe.spelling == path
                } else {
                    folded(probe.spelling) == folded(path) && (world.probe)(probe.spelling) == probe
                }
            } by {
            probing_the_spelling_tells_the_same(fs, path);
        }
    }
    tidying_again_changes_nothing(world, tidy, dirs);
}

} // verus!
