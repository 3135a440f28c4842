//! When looking at a path tells what.

use vstd::prelude::*;

use crate::filesystem::FileSystem;
use crate::fold::{case_folded, composed, folded};
use crate::grouping::FileId;
use crate::probe::{is_first_same, recovery, walked, ComponentView, Failure, InspectionView};
use crate::probe::{probe_views, Lookup, LookupView, PathComponent, Probe, ProbeState};
use crate::probe::{StateView, WalkView};

verus! {

/// Spellings fall together exactly if their case foldings are canonically
/// equivalent; so they do where they differ in case only.
pub proof fn spellings_fall_together_by_case_and_composition(a: Seq<char>, b: Seq<char>)
    ensures
        folded(a) == folded(b) <==> composed(case_folded(a)) == composed(case_folded(b)),
        case_folded(a) == case_folded(b) ==> folded(a) == folded(b),
{
}

/// A spelling is taken for that of a path exactly if both fall together, and is
/// then taken as it is.
pub proof fn a_spelling_is_taken_iff_it_falls_together(path: Seq<char>, spelling: Seq<char>)
    ensures
        match recovery(path, spelling) {
            Ok(taken) => taken == spelling && composed(case_folded(spelling)) == composed(
                case_folded(path),
            ),
            Err(error) => composed(case_folded(spelling)) != composed(case_folded(path)) && error
                == "on-disk spelling is not fold-equivalent to stored path"@,
        },
{
}

/// Whether a name was looked up with an error that tells of something else than
/// that it is missing.
pub open spec fn is_broken(
    component: ComponentView,
    lookup: Option<LookupView>,
    error: Seq<char>,
) -> bool {
    component is Normal && lookup == Some(LookupView::Failed(Failure::Other, error))
}

/// Whether a name was looked up without an error, or is none that is looked up.
pub open spec fn is_passed(component: ComponentView, lookup: Option<LookupView>) -> bool {
    component is Special || !(lookup is Some && lookup->0 is Failed)
}

/// A walk fails with an error exactly if one of the names was looked up with that
/// error, and all before it without any.
pub proof fn walks_fail_at_the_first_error(
    components: Seq<ComponentView>,
    lookups: Seq<Option<LookupView>>,
    error: Seq<char>,
)
    requires
        components.len() == lookups.len(),
    ensures
        walked(components, lookups) == Err::<WalkView, Seq<char>>(error) <==> exists|i: int|
            0 <= i < components.len() && is_broken(#[trigger] components[i], lookups[i], error) && (
            forall|j: int|
                0 <= j < i ==> is_passed(#[trigger] components[j], lookups[j])),
        walked(components, lookups) is Ok ==> (walked(components, lookups)->Ok_0.stale
            <==> exists|i: int|
            0 <= i < components.len() && !is_passed(#[trigger] components[i], lookups[i])),
    decreases components.len(),
{
    if components.len() > 0 {
        let front = components.drop_last();
        let before = lookups.drop_last();
        let last = components.len() - 1;
        walks_fail_at_the_first_error(front, before, error);
        assert(components[last] == components.last());
        assert(lookups[last] == lookups.last());
        assert forall|j: int| 0 <= j < last implies front[j] == components[j] && before[j]
            == lookups[j] by {}
        let fails = |n: int|
            exists|i: int|
                0 <= i < n && is_broken(#[trigger] components[i], lookups[i], error) && (forall|
                    j: int,
                | 0 <= j < i ==> is_passed(#[trigger] components[j], lookups[j]));
        assert(walked(front, before) == Err::<WalkView, Seq<char>>(error) <==> fails(last)) by {
            if walked(front, before) == Err::<WalkView, Seq<char>>(error) {
                let i = choose|i: int|
                    0 <= i < front.len() && is_broken(#[trigger] front[i], before[i], error) && (
                    forall|j: int|
                        0 <= j < i ==> is_passed(#[trigger] front[j], before[j]));
                assert(is_broken(components[i], lookups[i], error));
                assert forall|j: int| 0 <= j < i implies is_passed(
                    #[trigger] components[j],
                    lookups[j],
                ) by {
                    assert(is_passed(front[j], before[j]));
                }
            }
            if fails(last) {
                let i = choose|i: int|
                    0 <= i < last && is_broken(#[trigger] components[i], lookups[i], error) && (
                    forall|j: int|
                        0 <= j < i ==> is_passed(#[trigger] components[j], lookups[j]));
                assert(is_broken(front[i], before[i], error));
                assert forall|j: int| 0 <= j < i implies is_passed(
                    #[trigger] front[j],
                    before[j],
                ) by {
                    assert(is_passed(components[j], lookups[j]));
                }
            }
        }
        match walked(front, before) {
            Err(other) => {
                walks_fail_at_the_first_error(front, before, other);
                let i = choose|i: int|
                    0 <= i < front.len() && is_broken(#[trigger] front[i], before[i], other) && (
                    forall|j: int|
                        0 <= j < i ==> is_passed(#[trigger] front[j], before[j]));
                assert(is_broken(components[i], lookups[i], other));
                assert(!is_passed(components[i], lookups[i]));
                if fails(components.len() as int) && !fails(last) {
                    assert(is_passed(components[i], lookups[i]));
                }
            },
            Ok(walk) => {
                if walk.stale {
                    let i = choose|i: int|
                        0 <= i < front.len() && !is_passed(#[trigger] front[i], before[i]);
                    assert(!is_passed(components[i], lookups[i]));
                    if fails(components.len() as int) && !fails(last) {
                        assert(is_passed(components[i], lookups[i]));
                    }
                } else {
                    assert forall|j: int| 0 <= j < last implies is_passed(
                        #[trigger] components[j],
                        lookups[j],
                    ) by {
                        assert(is_passed(front[j], before[j]));
                    }
                    if is_broken(components[last], lookups[last], error) {
                        assert(fails(components.len() as int));
                    }
                    if !is_passed(components[last], lookups[last]) {
                        assert(!is_passed(components[last], lookups[last]));
                    }
                }
            },
        }
        assert(walked(components, lookups) == Err::<WalkView, Seq<char>>(error) <==> fails(
            components.len() as int,
        ));
    }
}

/// A path is live, with its spelling and its file, exactly if no component was
/// missing, there is a directory at the spelling, and its file could be told.
pub proof fn a_path_is_live_iff_it_leads_to_a_directory(
    fs: FileSystem,
    path: Seq<char>,
    spelling: Seq<char>,
    id: FileId,
)
    ensures
        fs.probe(path).state == StateView::Live(id) && fs.probe(path).spelling == spelling
            <==> fs.recovered(path) == Ok::<(Seq<char>, bool), Seq<char>>((spelling, false))
            && (fs.inspect)(spelling) is Directory && (fs.identify)(spelling) == Ok::<
            FileId,
            Seq<char>,
        >(id),
{
}

/// A path is stale exactly if a component was missing, or there is nothing at
/// its spelling, or something that is no directory. Its spelling is the one on
/// disk, as far as that goes.
pub proof fn a_path_is_stale_iff_it_leads_nowhere(
    fs: FileSystem,
    path: Seq<char>,
    spelling: Seq<char>,
)
    ensures
        fs.probe(path).state is Stale && fs.probe(path).spelling == spelling <==> (fs.recovered(
            path,
        ) matches Ok((found, stale)) && found == spelling && (stale || match (fs.inspect)(
            spelling,
        ) {
            InspectionView::Directory => false,
            InspectionView::NoDirectory => true,
            InspectionView::Failed(kind, _) => kind is NotFound || kind is NotADirectory,
        })),
{
}

/// Looking at a path fails with an error exactly if finding its spelling did, or
/// inspecting what is there, or telling its file. It keeps its spelling then.
pub proof fn errors_are_passed_on(fs: FileSystem, path: Seq<char>, error: Seq<char>)
    ensures
        fs.probe(path).state == StateView::Error(error) <==> match fs.recovered(path) {
            Err(found) => found == error,
            Ok((spelling, stale)) => !stale && match (fs.inspect)(spelling) {
                InspectionView::Directory => (fs.identify)(spelling) == Err::<FileId, Seq<char>>(
                    error,
                ),
                InspectionView::NoDirectory => false,
                InspectionView::Failed(kind, found) => kind is Other && found == error,
            },
        },
        fs.probe(path).state is Error ==> fs.probe(path).spelling == path,
{
}

/// Of several candidates that are the requested file, the first is picked.
pub proof fn the_first_candidate_is_picked(ids: Seq<Option<FileId>>, id: FileId, k: int)
    ensures
        is_first_same(ids, id, k) <==> 0 <= k < ids.len() && ids[k] == Some(id) && (forall|j: int|
            0 <= j < k ==> #[trigger] ids[j] != Some(id)),
{
}

/// What is known of paths is seen as it is held.
pub proof fn probes_are_seen_as_they_are(probes: Seq<Option<Probe>>)
    ensures
        probe_views(probes).len() == probes.len(),
        forall|i: int|
            0 <= i < probes.len() ==> match probes[i] {
                Some(probe) => (#[trigger] probe_views(probes)[i]) is Some && probe_views(
                    probes,
                )[i]->0.spelling == probe.spelling@ && match probe.state {
                    ProbeState::Live(id) => probe_views(probes)[i]->0.state == StateView::Live(id),
                    ProbeState::Stale => probe_views(probes)[i]->0.state is Stale,
                    ProbeState::Error(error) => probe_views(probes)[i]->0.state
                        == StateView::Error(error@),
                },
                None => probe_views(probes)[i] is None,
            },
{
}

/// A walk that comes to its end keeps the text of every component that was not
/// looked up, or not found.
pub proof fn walks_keep_what_was_not_found(
    components: Seq<ComponentView>,
    lookups: Seq<Option<LookupView>>,
)
    requires
        components.len() == lookups.len(),
        walked(components, lookups) is Ok,
    ensures
        ({
            let corrected = walked(components, lookups)->Ok_0.corrected;
            &&& corrected.len() == components.len()
            &&& forall|i: int|
                0 <= i < components.len() && !(lookups[i] is Some && lookups[i]->0 is Found)
                    ==> #[trigger] corrected[i] == components[i].text()
            &&& forall|i: int|
                0 <= i < components.len() ==> (#[trigger] corrected[i]) == components[i].text() || (
                components[i] is Normal && lookups[i] == Some(LookupView::Found(corrected[i])))
        }),
    decreases components.len(),
{
    if components.len() > 0 {
        let front = components.drop_last();
        let before = lookups.drop_last();
        let last = components.len() - 1;
        walks_keep_what_was_not_found(front, before);
        assert(components[last] == components.last() && lookups[last] == lookups.last());
        let some = walked(front, before)->Ok_0.corrected;
        let all = walked(components, lookups)->Ok_0.corrected;
        assert forall|i: int| 0 <= i < last implies (#[trigger] all[i]) == some[i] && front[i]
            == components[i] && before[i] == lookups[i] by {}
    }
}

/// A component is written as the text that it holds.
pub proof fn components_are_seen_as_they_are(component: PathComponent, lookup: Lookup)
    ensures
        match component {
            PathComponent::Special(text) => component@ == ComponentView::Special(text@)
                && component@.text() == text@,
            PathComponent::Normal(text) => component@ == ComponentView::Normal(text@)
                && component@.text() == text@,
        },
        match lookup {
            Lookup::Found(actual) => lookup@ == LookupView::Found(actual@),
            Lookup::Failed(kind, error) => lookup@ == LookupView::Failed(kind, error@),
        },
{
}

} // verus!
