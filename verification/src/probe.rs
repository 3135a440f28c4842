//! What looking at a stored path tells of it.

use vstd::prelude::*;

use crate::fold::{fold_key, folded};
use crate::grouping::FileId;
use crate::sort::views;
use crate::text::same_text;

verus! {

/// What the file system says of a path.
#[derive(Debug)]
pub enum ProbeState {
    /// It leads to a directory.
    Live(FileId),
    /// It leads to nothing, or to something that is no directory.
    Stale,
    /// It could not be looked at.
    Error(String),
}

/// The spelling of a path on disk, and what the file system says of it.
#[derive(Debug)]
pub struct Probe {
    pub spelling: String,
    pub state: ProbeState,
}

/// What a state says.
pub enum StateView {
    Live(FileId),
    Stale,
    Error(Seq<char>),
}

/// What a probe says.
pub struct ProbeView {
    pub spelling: Seq<char>,
    pub state: StateView,
}

impl View for ProbeState {
    type V = StateView;

    open spec fn view(&self) -> StateView {
        match self {
            ProbeState::Live(id) => StateView::Live(*id),
            ProbeState::Stale => StateView::Stale,
            ProbeState::Error(error) => StateView::Error(error@),
        }
    }
}

impl View for Probe {
    type V = ProbeView;

    open spec fn view(&self) -> ProbeView {
        ProbeView { spelling: self.spelling@, state: self.state@ }
    }
}

/// What probes say, where there are any.
pub open spec fn probe_views(probes: Seq<Option<Probe>>) -> Seq<Option<ProbeView>> {
    probes.map_values(
        |probe: Option<Probe>|
            match probe {
                Some(probe) => Some(probe@),
                None => None::<ProbeView>,
            },
    )
}

/// What went wrong when looking at a path.
#[derive(Clone, Copy, Debug, PartialEq, Eq, Structural)]
pub enum Failure {
    NotFound,
    NotADirectory,
    Other,
}

/// Whether an error tells that a path leads to nothing.
pub fn is_missing(kind: Failure) -> (missing: bool)
    ensures
        missing == (kind == Failure::NotFound || kind == Failure::NotADirectory),
{
    match kind {
        Failure::NotFound => true,
        Failure::NotADirectory => true,
        Failure::Other => false,
    }
}

/// A component of a path.
#[derive(Debug)]
pub enum PathComponent {
    /// A prefix, the root, the current or the parent directory.
    Special(String),
    /// A name in a directory.
    Normal(String),
}

/// What a component says.
pub enum ComponentView {
    Special(Seq<char>),
    Normal(Seq<char>),
}

impl View for PathComponent {
    type V = ComponentView;

    open spec fn view(&self) -> ComponentView {
        match self {
            PathComponent::Special(text) => ComponentView::Special(text@),
            PathComponent::Normal(text) => ComponentView::Normal(text@),
        }
    }
}

impl ComponentView {
    /// The component with another spelling.
    pub open spec fn spelled(self, text: Seq<char>) -> ComponentView {
        match self {
            ComponentView::Special(_) => ComponentView::Special(text),
            ComponentView::Normal(_) => ComponentView::Normal(text),
        }
    }

    /// The component as it is written.
    pub open spec fn text(self) -> Seq<char> {
        match self {
            ComponentView::Special(text) => text,
            ComponentView::Normal(text) => text,
        }
    }
}

impl PathComponent {
    /// The component as it is written.
    pub fn as_str(&self) -> (text: &str)
        ensures
            text@ == self@.text(),
    {
        match self {
            PathComponent::Special(text) => text.as_str(),
            PathComponent::Normal(text) => text.as_str(),
        }
    }
}

/// What looking up a name in its directory gives: the spelling of the
/// directory entry, or an error.
#[derive(Debug)]
pub enum Lookup {
    Found(String),
    Failed(Failure, String),
}

/// What a lookup says.
pub enum LookupView {
    Found(Seq<char>),
    Failed(Failure, Seq<char>),
}

impl View for Lookup {
    type V = LookupView;

    open spec fn view(&self) -> LookupView {
        match self {
            Lookup::Found(actual) => LookupView::Found(actual@),
            Lookup::Failed(kind, error) => LookupView::Failed(*kind, error@),
        }
    }
}

/// The components of a path so far, each with its spelling on disk, and whether
/// one of them was missing.
#[derive(Debug)]
pub struct Walk {
    pub corrected: Vec<String>,
    pub stale: bool,
}

/// What a walk says.
#[verifier::ext_equal]
pub struct WalkView {
    pub corrected: Seq<Seq<char>>,
    pub stale: bool,
}

impl View for Walk {
    type V = WalkView;

    open spec fn view(&self) -> WalkView {
        WalkView { corrected: views(self.corrected@), stale: self.stale }
    }
}

impl WalkView {
    /// The walk with one component more.
    pub open spec fn with(self, text: Seq<char>, stale: bool) -> WalkView {
        WalkView { corrected: self.corrected.push(text), stale }
    }

    /// Whether a component is to be looked up in its directory: a name, unless
    /// one before it was missing.
    pub open spec fn needs_lookup(self, component: ComponentView) -> bool {
        !self.stale && component is Normal
    }

    /// The walk after a component. A name that was looked up gets the spelling
    /// of the directory entry. Where it is missing, it is kept as it is, and so
    /// is everything behind it. Any other error ends the walk.
    pub open spec fn advanced(
        self,
        component: ComponentView,
        lookup: Option<LookupView>,
    ) -> Result<WalkView, Seq<char>> {
        if !self.needs_lookup(component) {
            Ok(self.with(component.text(), self.stale))
        } else {
            match lookup {
                Some(LookupView::Found(actual)) => Ok(self.with(actual, false)),
                Some(LookupView::Failed(kind, error)) => if kind == Failure::Other {
                    Err(error)
                } else {
                    Ok(self.with(component.text(), true))
                },
                None => Ok(self.with(component.text(), false)),
            }
        }
    }
}

impl Walk {
    /// A walk that has not begun.
    pub fn new() -> (walk: Walk)
        ensures
            walk@ == (WalkView { corrected: Seq::empty(), stale: false }),
    {
        let walk = Walk { corrected: Vec::new(), stale: false };
        assert(walk@.corrected =~= Seq::empty());
        walk
    }

    /// Whether a component is to be looked up in its directory.
    pub fn needs_lookup(&self, component: &PathComponent) -> (needed: bool)
        ensures
            needed == self@.needs_lookup(component@),
    {
        match component {
            PathComponent::Special(_) => false,
            PathComponent::Normal(_) => !self.stale,
        }
    }

    /// Goes on with a component, and with what looking it up gave where that
    /// is needed.
    pub fn advance(&mut self, component: &PathComponent, lookup: Option<Lookup>) -> (result: Result<
        (),
        String,
    >)
        ensures
            ({
                let given = match lookup {
                    Some(lookup) => Some(lookup@),
                    None => None,
                };
                match old(self)@.advanced(component@, given) {
                    Ok(walk) => result is Ok && final(self)@ == walk,
                    Err(error) => result is Err && result->Err_0@ == error && final(self)@ == old(
                        self,
                    )@,
                }
            }),
    {
        let ghost before = self@.corrected;
        let mut spelling = component.as_str().to_owned();
        if self.needs_lookup(component) {
            match lookup {
                Some(Lookup::Found(actual)) => {
                    spelling = actual;
                },
                Some(Lookup::Failed(kind, error)) => {
                    if !is_missing(kind) {
                        return Err(error);
                    }
                    self.stale = true;
                },
                None => {},
            }
        }
        let ghost text = spelling@;
        self.corrected.push(spelling);
        assert(self@.corrected =~= before.push(text));
        Ok(())
    }
}

/// The walk along components, given what looking up each of them gave.
pub open spec fn walked(
    components: Seq<ComponentView>,
    lookups: Seq<Option<LookupView>>,
) -> Result<WalkView, Seq<char>>
    decreases components.len(),
{
    if components.len() == 0 {
        Ok(WalkView { corrected: Seq::empty(), stale: false })
    } else {
        match walked(components.drop_last(), lookups.drop_last()) {
            Ok(walk) => walk.advanced(components.last(), lookups.last()),
            Err(error) => Err(error),
        }
    }
}

/// Whether a name was looked up and is missing.
pub open spec fn found_missing(component: ComponentView, lookup: Option<LookupView>) -> bool {
    component is Normal && match lookup {
        Some(LookupView::Failed(kind, _)) => kind != Failure::Other,
        _ => false,
    }
}

/// The position of the first component that is missing, or their number.
pub open spec fn first_missing(
    components: Seq<ComponentView>,
    lookups: Seq<Option<LookupView>>,
) -> int
    decreases components.len(),
{
    if components.len() == 0 {
        0
    } else {
        let last = components.len() - 1;
        let before = first_missing(components.drop_last(), lookups.drop_last());
        if before < last || found_missing(components.last(), lookups.last()) {
            before
        } else {
            last + 1
        }
    }
}

/// A walk that comes to its end keeps every component. Each name before the
/// first that is missing has the spelling of its directory entry, and all that
/// follows is as it was.
pub proof fn walk_corrects_until_a_component_is_missing(
    components: Seq<ComponentView>,
    lookups: Seq<Option<LookupView>>,
)
    requires
        components.len() == lookups.len(),
        walked(components, lookups) is Ok,
        forall|i: int|
            0 <= i < components.len() && (#[trigger] components[i]) is Normal && i <= first_missing(
                components,
                lookups,
            ) ==> lookups[i] is Some,
    ensures
        ({
            let walk = walked(components, lookups)->Ok_0;
            let missing = first_missing(components, lookups);
            &&& walk.corrected.len() == components.len()
            &&& walk.stale == (missing < components.len())
            &&& forall|i: int|
                0 <= i < components.len() ==> #[trigger] walk.corrected[i] == (if i < missing
                    && components[i] is Normal {
                    lookups[i]->0->Found_0
                } else {
                    components[i].text()
                })
            &&& forall|i: int|
                0 <= i < missing && (#[trigger] components[i]) is Normal
                    ==> lookups[i]->0 is Found
            &&& 0 <= missing <= components.len()
        }),
    decreases components.len(),
{
    if components.len() > 0 {
        let fewer = components.drop_last();
        let known = lookups.drop_last();
        let last = components.len() - 1;
        let before = first_missing(fewer, known);
        lemma_first_missing(fewer, known);
        assert(components[last] == components.last() && lookups[last] == lookups.last());
        assert forall|i: int|
            0 <= i < fewer.len() && (#[trigger] fewer[i]) is Normal && i <= before implies known[i]
                is Some by {
            assert(components[i] is Normal);
        }
        walk_corrects_until_a_component_is_missing(fewer, known);
        let walk = walked(components, lookups)->Ok_0;
        let missing = first_missing(components, lookups);
        assert forall|i: int| 0 <= i < components.len() implies #[trigger] walk.corrected[i] == (
        if i < missing && components[i] is Normal {
            lookups[i]->0->Found_0
        } else {
            components[i].text()
        }) by {
            if i < last {
                assert(walked(fewer, known)->Ok_0.corrected[i] == walk.corrected[i]);
                assert(fewer[i] == components[i] && known[i] == lookups[i]);
            }
        }
        assert forall|i: int| 0 <= i < missing && (#[trigger] components[i]) is Normal implies
            lookups[i]->0 is Found by {
            if i < last {
                assert(fewer[i] is Normal);
            }
        }
    }
}

proof fn lemma_first_missing(components: Seq<ComponentView>, lookups: Seq<Option<LookupView>>)
    ensures
        0 <= first_missing(components, lookups) <= components.len(),
    decreases components.len(),
{
    if components.len() > 0 {
        lemma_first_missing(components.drop_last(), lookups.drop_last());
    }
}

/// The search for the directory entry that a name resolves to.
#[derive(Debug)]
pub struct Search {
    pub name: String,
    pub candidates: Vec<String>,
}

/// What a search says.
#[verifier::ext_equal]
pub struct SearchView {
    pub name: Seq<char>,
    pub candidates: Seq<Seq<char>>,
}

impl View for Search {
    type V = SearchView;

    open spec fn view(&self) -> SearchView {
        SearchView { name: self.name@, candidates: views(self.candidates@) }
    }
}

impl SearchView {
    /// Whether a directory entry is spelled as the name is, which ends the
    /// search, and the search after it. Another one whose spelling has the same
    /// folding is a candidate.
    pub open spec fn considered(self, actual: Seq<char>) -> (bool, SearchView) {
        if actual == self.name {
            (true, self)
        } else if folded(actual) == folded(self.name) {
            (false, SearchView { name: self.name, candidates: self.candidates.push(actual) })
        } else {
            (false, self)
        }
    }
}

/// The search through a listing, with a flag that tells whether it ended at an
/// entry that is spelled as the name is.
pub open spec fn searched(name: Seq<char>, listing: Seq<Seq<char>>) -> (bool, SearchView)
    decreases listing.len(),
{
    if listing.len() == 0 {
        (false, SearchView { name, candidates: Seq::empty() })
    } else {
        let (ended, search) = searched(name, listing.drop_last());
        if ended {
            (true, search)
        } else {
            search.considered(listing.last())
        }
    }
}

/// Whether a spelling has the folding of the name, as a function value.
pub open spec fn folds_like(name: Seq<char>) -> spec_fn(Seq<char>) -> bool {
    |actual: Seq<char>| folded(actual) == folded(name)
}

/// A search ends with the name itself exactly if the listing has it. Otherwise
/// the candidates are the entries of the listing with the folding of the name,
/// in their order.
pub proof fn search_finds_the_name_or_its_foldings(name: Seq<char>, listing: Seq<Seq<char>>)
    ensures
        searched(name, listing).1.name == name,
        searched(name, listing).0 == listing.contains(name),
        !listing.contains(name) ==> searched(name, listing).1.candidates == listing.filter(
            folds_like(name),
        ),
    decreases listing.len(),
{
    if listing.len() == 0 {
        broadcast use Seq::lemma_filter_len;

        assert(listing.filter(folds_like(name)).len() == 0);
        assert(listing.filter(folds_like(name)) =~= Seq::empty());
    } else {
        let front = listing.drop_last();
        let last = listing.last();
        search_finds_the_name_or_its_foldings(name, front);
        assert(listing =~= front.push(last));
        front.lemma_filter_push(last, folds_like(name));
        assert(listing[listing.len() - 1] == last);
        if front.contains(name) {
            let k = front.index_of(name);
            assert(listing[k] == name);
        }
        if listing.contains(name) && last != name {
            let k = listing.index_of(name);
            assert(front[k] == name);
        }
    }
}

/// A candidate that is picked is in the listing, has the folding of the name
/// and the requested file, and a search for it ends with itself.
pub proof fn a_picked_candidate_is_listed(
    name: Seq<char>,
    listing: Seq<Seq<char>>,
    ids: Seq<Option<FileId>>,
    id: FileId,
    k: int,
)
    requires
        !listing.contains(name),
        ids.len() == searched(name, listing).1.candidates.len(),
        is_first_same(ids, id, k),
    ensures
        ({
            let actual = searched(name, listing).1.candidates[k];
            &&& listing.contains(actual)
            &&& folded(actual) == folded(name)
            &&& ids[k] == Some(id)
            &&& searched(actual, listing).0
        }),
{
    broadcast use Seq::lemma_filter_pred;
    broadcast use Seq::lemma_filter_contains_rev;

    search_finds_the_name_or_its_foldings(name, listing);
    let found = listing.filter(folds_like(name));
    let actual = found[k];
    assert(found.contains(actual));
    assert(folds_like(name)(actual));
    search_finds_the_name_or_its_foldings(actual, listing);
}

/// Whether the candidate at `k` is the first with this file.
pub open spec fn is_first_same(ids: Seq<Option<FileId>>, id: FileId, k: int) -> bool {
    &&& 0 <= k < ids.len()
    &&& ids[k] == Some(id)
    &&& forall|j: int| 0 <= j < k ==> #[trigger] ids[j] != Some(id)
}

impl Search {
    /// A search for a name.
    pub fn new(name: &str) -> (search: Search)
        ensures
            search@ == (SearchView { name: name@, candidates: Seq::empty() }),
    {
        let search = Search { name: name.to_owned(), candidates: Vec::new() };
        assert(search@.candidates =~= Seq::empty());
        search
    }

    /// Considers a directory entry, and tells whether it is spelled as the
    /// name is, which ends the search. Another one whose spelling has the same
    /// folding is a candidate.
    pub fn consider(&mut self, actual: &str) -> (exact: bool)
        ensures
            (exact, final(self)@) == old(self)@.considered(actual@),
    {
        if same_text(actual, self.name.as_str()) {
            return true;
        }
        if same_text(fold_key(actual).as_str(), fold_key(self.name.as_str()).as_str()) {
            self.candidates.push(actual.to_owned());
            assert(self@.candidates =~= old(self)@.candidates.push(actual@));
        }
        false
    }

    /// The first candidate that is the requested file, or an error with the
    /// path that was requested.
    pub fn pick(
        &self,
        requested: &str,
        requested_id: FileId,
        ids: &Vec<Option<FileId>>,
    ) -> (picked: Result<String, String>)
        requires
            ids@.len() == self@.candidates.len(),
        ensures
            match picked {
                Ok(actual) => exists|k: int|
                    #[trigger] is_first_same(ids@, requested_id, k) && actual@
                        == self@.candidates[k],
                Err(error) => !ids@.contains(Some(requested_id)) && error@
                    == "could not recover the on-disk spelling of "@ + requested@,
            },
    {
        assert(self@.candidates.len() == self.candidates@.len());
        let mut k: usize = 0;
        while k < ids.len()
            invariant
                k <= ids@.len() == self.candidates@.len(),
                forall|j: int| 0 <= j < k ==> #[trigger] ids@[j] != Some(requested_id),
            decreases ids.len() - k,
        {
            let same = match ids[k] {
                Some(id) => id == requested_id,
                None => false,
            };
            if same {
                assert(is_first_same(ids@, requested_id, k as int));
                assert(self@.candidates[k as int] == self.candidates@[k as int]@);
                return Ok(self.candidates[k].as_str().to_owned());
            }
            k += 1;
        }
        let mut error = "could not recover the on-disk spelling of ".to_owned();
        error.append(requested);
        Err(error)
    }
}

/// The spelling on disk of a path, given what walking along it made of it. It
/// must have the folding of the path, or it is not one of its spellings.
pub open spec fn recovery(path: Seq<char>, spelling: Seq<char>) -> Result<Seq<char>, Seq<char>> {
    if folded(spelling) == folded(path) {
        Ok(spelling)
    } else {
        Err("on-disk spelling is not fold-equivalent to stored path"@)
    }
}

/// The spelling on disk of a path. It must have the folding of the path, or it
/// is not one of its spellings.
pub fn recovered(path: &str, spelling: String) -> (result: Result<String, String>)
    ensures
        recovery(path@, spelling@) == (match result {
            Ok(recovered) => Ok::<Seq<char>, Seq<char>>(recovered@),
            Err(error) => Err::<Seq<char>, Seq<char>>(error@),
        }),
{
    if same_text(fold_key(spelling.as_str()).as_str(), fold_key(path).as_str()) {
        Ok(spelling)
    } else {
        Err("on-disk spelling is not fold-equivalent to stored path".to_owned())
    }
}

/// What is at a path, following a final symlink.
#[derive(Debug)]
pub enum Inspection {
    Directory,
    NoDirectory,
    Failed(Failure, String),
}

/// What an inspection says.
pub enum InspectionView {
    Directory,
    NoDirectory,
    Failed(Failure, Seq<char>),
}

impl View for Inspection {
    type V = InspectionView;

    open spec fn view(&self) -> InspectionView {
        match self {
            Inspection::Directory => InspectionView::Directory,
            Inspection::NoDirectory => InspectionView::NoDirectory,
            Inspection::Failed(kind, error) => InspectionView::Failed(*kind, error@),
        }
    }
}

/// How looking at a path goes on: it is done, or what is at the spelling is to
/// be inspected, or its file is to be told.
#[derive(Debug)]
pub enum ProbeStep {
    Done(Probe),
    Inspect(String),
    Identify(String),
}

/// What a step says.
pub enum StepView {
    Done(ProbeView),
    Inspect(Seq<char>),
    Identify(Seq<char>),
}

impl View for ProbeStep {
    type V = StepView;

    open spec fn view(&self) -> StepView {
        match self {
            ProbeStep::Done(probe) => StepView::Done(probe@),
            ProbeStep::Inspect(spelling) => StepView::Inspect(spelling@),
            ProbeStep::Identify(spelling) => StepView::Identify(spelling@),
        }
    }
}

/// What is told of a path that could not be looked at: it keeps its spelling.
pub open spec fn failure(path: Seq<char>, error: Seq<char>) -> ProbeView {
    ProbeView { spelling: path, state: StateView::Error(error) }
}

/// What is told of a path that leads to no directory.
pub open spec fn staleness(spelling: Seq<char>) -> ProbeView {
    ProbeView { spelling, state: StateView::Stale }
}

/// How looking at a path goes on once its spelling was recovered.
pub open spec fn recovery_step(
    path: Seq<char>,
    recovered: Result<(Seq<char>, bool), Seq<char>>,
) -> StepView {
    match recovered {
        Ok((spelling, stale)) => if stale {
            StepView::Done(staleness(spelling))
        } else {
            StepView::Inspect(spelling)
        },
        Err(error) => StepView::Done(failure(path, error)),
    }
}

/// How looking at a path goes on once what is at its spelling was inspected.
pub open spec fn inspection_step(
    path: Seq<char>,
    spelling: Seq<char>,
    found: InspectionView,
) -> StepView {
    match found {
        InspectionView::Directory => StepView::Identify(spelling),
        InspectionView::NoDirectory => StepView::Done(staleness(spelling)),
        InspectionView::Failed(kind, error) => if kind == Failure::Other {
            StepView::Done(failure(path, error))
        } else {
            StepView::Done(staleness(spelling))
        },
    }
}

/// What looking at a path tells once its file was told.
pub open spec fn identification(
    path: Seq<char>,
    spelling: Seq<char>,
    id: Result<FileId, Seq<char>>,
) -> ProbeView {
    match id {
        Ok(id) => ProbeView { spelling, state: StateView::Live(id) },
        Err(error) => failure(path, error),
    }
}

/// A path that could not be looked at keeps its spelling.
fn failed(path: &str, error: String) -> (probe: Probe)
    ensures
        probe@ == failure(path@, error@),
{
    Probe { spelling: path.to_owned(), state: ProbeState::Error(error) }
}

/// How looking at a path goes on once its spelling on disk was recovered, with
/// a flag that tells whether a component was missing.
pub fn after_recovery(path: &str, recovered: Result<(String, bool), String>) -> (step: ProbeStep)
    ensures
        step@ == recovery_step(
            path@,
            match recovered {
                Ok((spelling, stale)) => Ok((spelling@, stale)),
                Err(error) => Err(error@),
            },
        ),
{
    match recovered {
        Ok((spelling, stale)) => if stale {
            ProbeStep::Done(Probe { spelling, state: ProbeState::Stale })
        } else {
            ProbeStep::Inspect(spelling)
        },
        Err(error) => ProbeStep::Done(failed(path, error)),
    }
}

/// How looking at a path goes on once what is at its spelling was inspected.
pub fn after_inspection(path: &str, spelling: String, found: Inspection) -> (step: ProbeStep)
    ensures
        step@ == inspection_step(path@, spelling@, found@),
{
    match found {
        Inspection::Directory => ProbeStep::Identify(spelling),
        Inspection::NoDirectory => ProbeStep::Done(Probe { spelling, state: ProbeState::Stale }),
        Inspection::Failed(kind, error) => if is_missing(kind) {
            ProbeStep::Done(Probe { spelling, state: ProbeState::Stale })
        } else {
            ProbeStep::Done(failed(path, error))
        },
    }
}

/// What looking at a path tells once its file was told.
pub fn after_identification(path: &str, spelling: String, id: Result<FileId, String>) -> (probe:
    Probe)
    ensures
        probe@ == identification(
            path@,
            spelling@,
            match id {
                Ok(id) => Ok(id),
                Err(error) => Err(error@),
            },
        ),
{
    match id {
        Ok(id) => Probe { spelling, state: ProbeState::Live(id) },
        Err(error) => failed(path, error),
    }
}

} // verus!
