//! What a tidy command plans, in terms of its options, the selection and what
//! the file system says of the paths.

use vstd::prelude::*;
use vstd::utf8::encode_utf8;

use crate::cmd::Tidy;
use crate::dir::DirView;
use crate::fold::folded;
use crate::grouping::{lemma_members, lemma_top};
use crate::merge::{kept_positions, lemma_kept_positions};
use crate::probe::{ProbeView, StateView};
use crate::sort::{lemma_sort_permutes, stable_sort};
use crate::survey::{pair_leq, without_repeats, PlanView};
use crate::text::{bytes_leq, text_leq};
use crate::tidy::{lemma_parts, probe_needed};
use crate::tidy_laws::{entries_become_one_iff_they_belong_together, reports_are_sorted};
use crate::tidy_laws::every_entry_that_stays_has_a_row;

verus! {

/// What a command plans.
pub open spec fn planned(
    tidy: Tidy,
    dirs: Seq<DirView>,
    selected: Seq<bool>,
    probes: Seq<Option<ProbeView>>,
) -> PlanView {
    tidy.survey(dirs, selected, probes).plan()
}

/// Whether commands ask for the same, whatever their globs are and whether they
/// are dry runs.
pub open spec fn ask_the_same(a: Tidy, b: Tidy) -> bool {
    &&& (a.prune || a.all) == (b.prune || b.all)
    &&& (a.normalize || a.all) == (b.normalize || b.all)
    &&& (a.dedupe || a.all) == (b.dedupe || b.all)
    &&& a.assume_insensitive == b.assume_insensitive
}

/// A dry run looks at the same paths and plans the same as a run that is none,
/// and asking for everything is asking for each of the three.
pub proof fn dry_runs_plan_the_same(
    a: Tidy,
    b: Tidy,
    dirs: Seq<DirView>,
    selected: Seq<bool>,
    probes: Seq<Option<ProbeView>>,
)
    requires
        ask_the_same(a, b),
    ensures
        planned(a, dirs, selected, probes) == planned(b, dirs, selected, probes),
        forall|i: int|
            #[trigger] probe_needed(a, dirs, selected, i) == probe_needed(b, dirs, selected, i),
{
    assert(a.survey(dirs, selected, probes) == b.survey(dirs, selected, probes));
}

/// Selected paths are looked at for pruning and for normalizing. For merging
/// they are looked at where another selected path has the same folding, unless
/// that is taken to be enough. Others are not looked at.
pub proof fn paths_are_looked_at_where_it_matters(
    tidy: Tidy,
    dirs: Seq<DirView>,
    selected: Seq<bool>,
    i: int,
)
    requires
        selected.len() == dirs.len(),
        0 <= i < dirs.len(),
    ensures
        !selected[i] ==> !probe_needed(tidy, dirs, selected, i),
        selected[i] && (tidy.prune || tidy.normalize || tidy.all) ==> probe_needed(
            tidy,
            dirs,
            selected,
            i,
        ),
        selected[i] && !(tidy.prune || tidy.normalize || tidy.all) ==> (probe_needed(
            tidy,
            dirs,
            selected,
            i,
        ) <==> tidy.dedupe && !tidy.assume_insensitive && exists|j: int|
            0 <= j < dirs.len() && j != i && #[trigger] selected[j] && folded(dirs[j].path)
                == folded(dirs[i].path)),
{
}

/// The elements of a sorted list of what some positions stand for.
pub proof fn lemma_listed<T>(
    n: nat,
    gone: spec_fn(int) -> bool,
    told: spec_fn(int) -> T,
    leq: spec_fn(T, T) -> bool,
)
    ensures
        ({
            let list = stable_sort(kept_positions(n, gone).map_values(told), leq);
            &&& list.len() == kept_positions(n, gone).len()
            &&& forall|i: int| 0 <= i < n && !(#[trigger] gone(i)) ==> list.contains(told(i))
            &&& forall|k: int|
                0 <= k < list.len() ==> exists|i: int|
                    0 <= i < n && !(#[trigger] gone(i)) && told(i) == #[trigger] list[k]
        }),
{
    broadcast use vstd::seq_lib::group_to_multiset_ensures;

    let at = kept_positions(n, gone);
    let all = at.map_values(told);
    let list = stable_sort(all, leq);
    lemma_sort_permutes(all, leq);
    lemma_kept_positions(n, gone);
    assert forall|i: int| 0 <= i < n && !(#[trigger] gone(i)) implies list.contains(told(i)) by {
        assert(at.contains(i));
        let k = at.index_of(i);
        assert(all[k] == told(i));
        assert(all.to_multiset().count(told(i)) > 0);
    }
    assert forall|k: int| 0 <= k < list.len() implies exists|i: int|
        0 <= i < n && !(#[trigger] gone(i)) && told(i) == #[trigger] list[k] by {
        assert(list.to_multiset().count(list[k]) > 0);
        assert(all.contains(list[k]));
        let a = all.index_of(list[k]);
        assert(all[a] == told(at[a]));
        assert(!gone(at[a]));
    }
}

/// Whether an entry is removed.
pub open spec fn is_removed(
    tidy: Tidy,
    selected: Seq<bool>,
    probes: Seq<Option<ProbeView>>,
    i: int,
) -> bool {
    (tidy.prune || tidy.all) && selected[i] && probes[i] is Some && probes[i]->0.state is Stale
}

/// Where pruning is asked for, every selected path that is stale is pruned.
pub proof fn stale_paths_are_pruned(
    tidy: Tidy,
    dirs: Seq<DirView>,
    selected: Seq<bool>,
    probes: Seq<Option<ProbeView>>,
    i: int,
)
    requires
        tidy.prune || tidy.all,
        0 <= i < dirs.len(),
        selected[i],
        probes[i] is Some,
        probes[i]->0.state is Stale,
    ensures
        planned(tidy, dirs, selected, probes).pruned.contains(dirs[i].path),
{
    let survey = tidy.survey(dirs, selected, probes);
    lemma_listed(
        dirs.len(),
        survey.not_pruned(),
        |i: int| survey.dirs[i].path,
        |a: Seq<char>, b: Seq<char>| text_leq(a, b),
    );
    assert(!survey.not_pruned()(i));
}

/// What is pruned are paths of selected entries that are stale, where pruning is
/// asked for, in the order of their bytes, each as often as there are such
/// entries.
pub proof fn only_stale_paths_are_pruned(
    tidy: Tidy,
    dirs: Seq<DirView>,
    selected: Seq<bool>,
    probes: Seq<Option<ProbeView>>,
    path: Seq<char>,
)
    ensures
        ({
            let pruned = planned(tidy, dirs, selected, probes).pruned;
            &&& !(tidy.prune || tidy.all) ==> pruned.len() == 0
            &&& pruned.contains(path) ==> exists|i: int|
                0 <= i < dirs.len() && #[trigger] selected[i] && probes[i] is Some
                    && probes[i]->0.state is Stale && dirs[i].path == path
            &&& pruned.len() == kept_positions(
                dirs.len(),
                |i: int| !is_removed(tidy, selected, probes, i),
            ).len()
            &&& forall|a: int, b: int|
                0 <= a < b < pruned.len() ==> bytes_leq(
                    encode_utf8(#[trigger] pruned[a]),
                    encode_utf8(#[trigger] pruned[b]),
                )
        }),
{
    let survey = tidy.survey(dirs, selected, probes);
    let pruned = planned(tidy, dirs, selected, probes).pruned;
    let gone = survey.not_pruned();
    reports_are_sorted(survey);
    lemma_listed(
        dirs.len(),
        gone,
        |i: int| survey.dirs[i].path,
        |a: Seq<char>, b: Seq<char>| text_leq(a, b),
    );
    if pruned.contains(path) {
        let k = pruned.index_of(path);
        let i = choose|i: int|
            0 <= i < dirs.len() && !(#[trigger] gone(i)) && survey.dirs[i].path == pruned[k];
        assert(survey.pruned(i));
        assert(selected[i]);
    }
    if !(tidy.prune || tidy.all) && pruned.len() > 0 {
        let i = choose|i: int|
            0 <= i < dirs.len() && !(#[trigger] gone(i)) && survey.dirs[i].path == pruned[0];
        assert(survey.pruned(i));
    }
    assert(gone =~= |i: int| !is_removed(tidy, selected, probes, i));
}

/// The path of an entry that stays: the spelling on disk, where that is asked
/// for, the entry is selected, and its path could be looked at.
pub open spec fn new_path(
    tidy: Tidy,
    dirs: Seq<DirView>,
    selected: Seq<bool>,
    probes: Seq<Option<ProbeView>>,
    i: int,
) -> Seq<char> {
    if (tidy.normalize || tidy.all) && selected[i] && !is_removed(tidy, selected, probes, i)
        && probes[i] is Some && !(probes[i]->0.state is Error) {
        probes[i]->0.spelling
    } else {
        dirs[i].path
    }
}

/// Where normalizing is asked for, whatever else is, every selected path that
/// stays and could be looked at changes to its spelling on disk: the change is
/// reported, and where the entry is not merged with one of another spelling, an
/// entry with that spelling is there.
pub proof fn selected_paths_get_their_spelling_on_disk(
    tidy: Tidy,
    dirs: Seq<DirView>,
    selected: Seq<bool>,
    probes: Seq<Option<ProbeView>>,
    i: int,
)
    requires
        selected.len() == dirs.len(),
        probes.len() == dirs.len(),
        tidy.normalize || tidy.all,
        0 <= i < dirs.len(),
        selected[i],
        probes[i] is Some,
        !(probes[i]->0.state is Error),
        !((tidy.prune || tidy.all) && probes[i]->0.state is Stale),
    ensures
        ({
            let plan = planned(tidy, dirs, selected, probes);
            let spelling = probes[i]->0.spelling;
            &&& spelling != dirs[i].path ==> plan.normalized.contains((dirs[i].path, spelling))
            &&& !(tidy.dedupe || tidy.all) || (forall|j: int|
                0 <= j < dirs.len() && j != i ==> folded(
                    #[trigger] new_path(tidy, dirs, selected, probes, j),
                ) != folded(spelling)) ==> exists|a: int|
                0 <= a < plan.rows.len() && (#[trigger] plan.rows[a]).path == spelling
        }),
{
    let survey = tidy.survey(dirs, selected, probes);
    let plan = planned(tidy, dirs, selected, probes);
    let spelling = probes[i]->0.spelling;
    lemma_listed(
        dirs.len(),
        survey.not_normalized(),
        |i: int| (survey.dirs[i].path, survey.path(i)),
        |a: (Seq<char>, Seq<char>), b: (Seq<char>, Seq<char>)| pair_leq(a, b),
    );
    assert(survey.path(i) == spelling);
    if spelling != dirs[i].path {
        assert(!survey.not_normalized()(i));
    }
    if !(tidy.dedupe || tidy.all) || (forall|j: int|
        0 <= j < dirs.len() && j != i ==> folded(
            #[trigger] new_path(tidy, dirs, selected, probes, j),
        ) != folded(spelling)) {
        every_entry_that_stays_has_a_row(survey, i);
        let r = survey.parts()[i];
        let group = survey.group(r);
        let a = choose|a: int|
            0 <= a < survey.rows().len() && survey.parts()[#[trigger] survey.survivors()[a]]
                == survey.parts()[i] && survey.rows()[a] == survey.row(survey.parts()[i]);
        lemma_members(survey.parts(), survey.out(), r);
        lemma_parts(survey);
        lemma_top(dirs, group);
        let top = survey.survivor(r);
        let at = group.index_of(top);
        assert(group[at] == top);
        entries_become_one_iff_they_belong_together(survey, i, top);
        if tidy.dedupe || tidy.all {
            assert forall|j: int| 0 <= j < dirs.len() && j != i implies survey.parts()[j] != r by {
                assert(survey.path(j) == new_path(tidy, dirs, selected, probes, j));
                entries_become_one_iff_they_belong_together(survey, i, j);
            }
            if group.len() > 1 {
                assert(group[0] < group[1]);
                assert(survey.parts()[group[0]] == r && survey.parts()[group[1]] == r);
            }
        }
        assert(plan.rows[a].path == spelling);
    }
}

/// What is reported as normalized are paths of selected entries that stay, each
/// with its spelling on disk, which differs, where normalizing is asked for, in
/// the order of the old and then of the new spelling.
pub proof fn only_other_spellings_are_normalized(
    tidy: Tidy,
    dirs: Seq<DirView>,
    selected: Seq<bool>,
    probes: Seq<Option<ProbeView>>,
)
    ensures
        ({
            let normalized = planned(tidy, dirs, selected, probes).normalized;
            &&& !(tidy.normalize || tidy.all) ==> normalized.len() == 0
            &&& forall|k: int|
                0 <= k < normalized.len() ==> (#[trigger] normalized[k]).0 != normalized[k].1
            &&& forall|k: int|
                0 <= k < normalized.len() ==> exists|i: int|
                    0 <= i < dirs.len() && #[trigger] selected[i] && probes[i] is Some
                        && !(probes[i]->0.state is Error) && !((tidy.prune || tidy.all)
                        && probes[i]->0.state is Stale) && (#[trigger] normalized[k]) == (
                        dirs[i].path,
                        probes[i]->0.spelling,
                    )
            &&& normalized.len() == kept_positions(
                dirs.len(),
                |i: int| new_path(tidy, dirs, selected, probes, i) == dirs[i].path,
            ).len()
            &&& forall|a: int, b: int|
                0 <= a < b < normalized.len() ==> if (#[trigger] normalized[a]).0 == (
                #[trigger] normalized[b]).0 {
                    bytes_leq(encode_utf8(normalized[a].1), encode_utf8(normalized[b].1))
                } else {
                    bytes_leq(encode_utf8(normalized[a].0), encode_utf8(normalized[b].0))
                }
        }),
{
    let survey = tidy.survey(dirs, selected, probes);
    let normalized = planned(tidy, dirs, selected, probes).normalized;
    let gone = survey.not_normalized();
    reports_are_sorted(survey);
    lemma_listed(
        dirs.len(),
        gone,
        |i: int| (survey.dirs[i].path, survey.path(i)),
        |a: (Seq<char>, Seq<char>), b: (Seq<char>, Seq<char>)| pair_leq(a, b),
    );
    assert forall|k: int| 0 <= k < normalized.len() implies (#[trigger] normalized[k]).0
        != normalized[k].1 && exists|i: int|
        0 <= i < dirs.len() && #[trigger] selected[i] && probes[i] is Some && !(
        probes[i]->0.state is Error) && !((tidy.prune || tidy.all) && probes[i]->0.state is Stale)
            && normalized[k] == (dirs[i].path, probes[i]->0.spelling) by {
        let i = choose|i: int|
            0 <= i < dirs.len() && !(#[trigger] gone(i)) && (survey.dirs[i].path, survey.path(i))
                == normalized[k];
        assert(survey.normalized(i));
        assert(selected[i]);
    }
    if !(tidy.normalize || tidy.all) && normalized.len() > 0 {
        let i = choose|i: int|
            0 <= i < dirs.len() && !(#[trigger] gone(i)) && (survey.dirs[i].path, survey.path(i))
                == normalized[0];
        assert(survey.normalized(i));
    }
    assert(gone =~= |i: int| new_path(tidy, dirs, selected, probes, i) == dirs[i].path);
}

/// Every path that could not be looked at is in the warnings with its error,
/// and nothing else is. No warning is there twice.
pub proof fn each_error_is_warned_of_once(
    tidy: Tidy,
    dirs: Seq<DirView>,
    selected: Seq<bool>,
    probes: Seq<Option<ProbeView>>,
    path: Seq<char>,
    error: Seq<char>,
)
    ensures
        ({
            let warnings = planned(tidy, dirs, selected, probes).warnings;
            &&& warnings.contains((path, error)) <==> exists|i: int|
                0 <= i < dirs.len() && (#[trigger] dirs[i]).path == path && probes[i] is Some
                    && probes[i]->0.state == StateView::Error(error)
            &&& forall|a: int, b: int|
                0 <= a < b < warnings.len() ==> (#[trigger] warnings[a]) != (
                #[trigger] warnings[b]) && if warnings[a].0 == warnings[b].0 {
                    bytes_leq(encode_utf8(warnings[a].1), encode_utf8(warnings[b].1))
                } else {
                    bytes_leq(encode_utf8(warnings[a].0), encode_utf8(warnings[b].0))
                }
        }),
{
    let survey = tidy.survey(dirs, selected, probes);
    let warnings = planned(tidy, dirs, selected, probes).warnings;
    let gone = survey.not_failed();
    let told = |i: int| (survey.dirs[i].path, survey.probes[i]->0.state->Error_0);
    let leq = |a: (Seq<char>, Seq<char>), b: (Seq<char>, Seq<char>)| pair_leq(a, b);
    let list = stable_sort(kept_positions(dirs.len(), gone).map_values(told), leq);
    lemma_listed(dirs.len(), gone, told, leq);
    crate::tidy::lemma_pair_leq_order();
    crate::text::lemma_text_leq_order();
    assert(crate::sort::total_preorder(leq)) by {
        assert forall|a: (Seq<char>, Seq<char>), b: (Seq<char>, Seq<char>)|
            #[trigger] leq(a, b) || leq(b, a) by {
            assert(pair_leq(a, b) || pair_leq(b, a));
        }
    }
    crate::sort::lemma_sort_ascending(kept_positions(dirs.len(), gone).map_values(told), leq);
    assert forall|a: (Seq<char>, Seq<char>), b: (Seq<char>, Seq<char>)|
        #[trigger] leq(a, b) && leq(b, a) implies a == b by {
        if a.0 != b.0 {
            assert(text_leq(a.0, b.0) && text_leq(b.0, a.0));
        }
        assert(text_leq(a.1, b.1) && text_leq(b.1, a.1));
    }
    lemma_without_repeats(list, leq);
    if warnings.contains((path, error)) {
        assert(list.contains((path, error)));
        let k = list.index_of((path, error));
        let i = choose|i: int|
            0 <= i < dirs.len() && !(#[trigger] gone(i)) && told(i) == list[k];
        assert(survey.failed(i));
        assert(dirs[i].path == path);
    }
    if exists|i: int|
        0 <= i < dirs.len() && (#[trigger] dirs[i]).path == path && probes[i] is Some
            && probes[i]->0.state == StateView::Error(error) {
        let i = choose|i: int|
            0 <= i < dirs.len() && (#[trigger] dirs[i]).path == path && probes[i] is Some
                && probes[i]->0.state == StateView::Error(error);
        assert(!gone(i));
        assert(list.contains(told(i)));
    }
}

/// What is left of a sorted list without repetitions.
proof fn lemma_without_repeats<T>(s: Seq<T>, leq: spec_fn(T, T) -> bool)
    requires
        crate::sort::ascending(s, leq),
        forall|a: T, b: T| #[trigger] leq(a, b) && leq(b, a) ==> a == b,
        crate::sort::total_preorder(leq),
    ensures
        forall|x: T| #[trigger] without_repeats(s).contains(x) <==> s.contains(x),
        forall|a: int, b: int|
            0 <= a < b < without_repeats(s).len() ==> (#[trigger] without_repeats(s)[a]) != (
            #[trigger] without_repeats(s)[b]) && leq(without_repeats(s)[a], without_repeats(s)[b]),
        s.len() > 0 ==> without_repeats(s).len() > 0 && without_repeats(s).last() == s.last(),
    decreases s.len(),
{
    if s.len() > 1 {
        let front = s.drop_last();
        let rest = without_repeats(front);
        let all = without_repeats(s);
        assert forall|i: int, j: int| 0 <= i < j < front.len() implies leq(
            #[trigger] front[i],
            #[trigger] front[j],
        ) by {
            assert(front[i] == s[i] && front[j] == s[j]);
        }
        lemma_without_repeats(front, leq);
        assert(s =~= front.push(s.last()));
        assert(front.last() == s[s.len() - 2]);
        assert(s.last() == s[s.len() - 1]);
        assert forall|x: T| #[trigger] all.contains(x) <==> s.contains(x) by {
            if s.contains(x) {
                let k = s.index_of(x);
                if k < front.len() {
                    assert(front[k] == x);
                    assert(front.contains(x));
                    assert(rest.contains(x));
                    let m = rest.index_of(x);
                    assert(all[m] == x);
                } else {
                    assert(all.last() == x);
                }
            }
            if all.contains(x) {
                let m = all.index_of(x);
                if m < rest.len() {
                    assert(rest[m] == x);
                    assert(rest.contains(x));
                    assert(front.contains(x));
                    let k = front.index_of(x);
                    assert(s[k] == x);
                } else {
                    assert(s[s.len() - 1] == x);
                }
            }
        }
        if s.last() != front.last() {
            assert forall|a: int, b: int| 0 <= a < b < all.len() implies (#[trigger] all[a]) != (
            #[trigger] all[b]) && leq(all[a], all[b]) by {
                if b < rest.len() {
                    assert(rest[a] != rest[b]);
                } else {
                    // The element before the last one is below it, and so are those before.
                    assert(rest.contains(rest[a]));
                    assert(front.contains(rest[a]));
                    let k = front.index_of(rest[a]);
                    assert(leq(s[k], s[s.len() - 1]));
                    if rest[a] == s.last() {
                        if k < front.len() - 1 {
                            assert(leq(front[k], front[front.len() - 1]));
                        }
                        assert(leq(s[s.len() - 2], s[s.len() - 1]));
                        assert(leq(front.last(), s.last()) && leq(s.last(), front.last()));
                    }
                }
            }
        }
    }
}

} // verus!
