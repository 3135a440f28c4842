//! Looking at paths in one file system that does not change.

use vstd::prelude::*;

use crate::fold::folded;
use crate::grouping::FileId;
use crate::probe::{a_picked_candidate_is_listed, identification, inspection_step, is_first_same};
use crate::probe::{recovery, recovery_step, search_finds_the_name_or_its_foldings, searched};
use crate::probe::{walked, ComponentView, Failure, InspectionView, LookupView, ProbeView};
use crate::probe::{StepView, WalkView};

verus! {

/// What a file system answers. A directory is given by the spellings of the
/// components that lead to it.
pub struct FileSystem {
    /// The components of a path.
    pub components: spec_fn(Seq<char>) -> Seq<ComponentView>,
    /// The path of components with these spellings.
    pub joined: spec_fn(Seq<Seq<char>>) -> Seq<char>,
    /// What is wrong with looking at a name in a directory, if anything.
    pub absent: spec_fn(Seq<Seq<char>>, Seq<char>) -> Option<(Failure, Seq<char>)>,
    /// The names in a directory, as far as they can be read, and what is wrong
    /// with reading on, if anything.
    pub listing: spec_fn(Seq<Seq<char>>) -> (Seq<Seq<char>>, Option<(Failure, Seq<char>)>),
    /// The file that a name in a directory stands for.
    pub entry: spec_fn(Seq<Seq<char>>, Seq<char>) -> Result<FileId, (Failure, Seq<char>)>,
    /// What is at a path.
    pub inspect: spec_fn(Seq<char>) -> InspectionView,
    /// The file that a path leads to.
    pub identify: spec_fn(Seq<char>) -> Result<FileId, Seq<char>>,
}

/// The position of the first candidate with this file.
pub open spec fn first_same(ids: Seq<Option<FileId>>, id: FileId) -> Option<int> {
    if exists|k: int| is_first_same(ids, id, k) {
        Some(choose|k: int| is_first_same(ids, id, k))
    } else {
        None
    }
}

/// Components with other spellings.
pub open spec fn respelled(
    components: Seq<ComponentView>,
    spellings: Seq<Seq<char>>,
) -> Seq<ComponentView> {
    Seq::new(components.len(), |i: int| components[i].spelled(spellings[i]))
}

impl FileSystem {
    /// The file of a name in a directory, where it can be told.
    pub open spec fn id_of(self, parent: Seq<Seq<char>>, name: Seq<char>) -> Option<FileId> {
        match (self.entry)(parent, name) {
            Ok(id) => Some(id),
            Err(_) => None,
        }
    }

    /// What looking up a name in a directory gives: the name itself where the
    /// directory lists it, or else the first of the listed spellings with its
    /// folding that stands for the same file.
    pub open spec fn lookup(self, parent: Seq<Seq<char>>, name: Seq<char>) -> LookupView {
        let (listing, broken) = (self.listing)(parent);
        let (ended, search) = searched(name, listing);
        match (self.absent)(parent, name) {
            Some((kind, error)) => LookupView::Failed(kind, error),
            None => if ended {
                LookupView::Found(name)
            } else {
                match broken {
                    Some((kind, error)) => LookupView::Failed(kind, error),
                    None => match (self.entry)(parent, name) {
                        Err((kind, error)) => LookupView::Failed(kind, error),
                        Ok(id) => {
                            let ids = search.candidates.map_values(
                                |actual: Seq<char>| self.id_of(parent, actual),
                            );
                            match first_same(ids, id) {
                                Some(k) => LookupView::Found(search.candidates[k]),
                                None => LookupView::Failed(
                                    Failure::Other,
                                    "could not recover the on-disk spelling of "@ + (self.joined)(
                                        parent.push(name),
                                    ),
                                ),
                            }
                        },
                    },
                }
            },
        }
    }

    /// What looking up each component gives on the walk along them, where that
    /// is needed.
    pub open spec fn lookups(self, components: Seq<ComponentView>) -> Seq<Option<LookupView>>
        decreases components.len(),
    {
        if components.len() == 0 {
            Seq::empty()
        } else {
            let before = self.lookups(components.drop_last());
            let name = components.last();
            before.push(
                match walked(components.drop_last(), before) {
                    Ok(walk) => if walk.needs_lookup(name) {
                        Some(self.lookup(walk.corrected, name.text()))
                    } else {
                        None
                    },
                    Err(_) => None,
                },
            )
        }
    }

    /// The walk along components.
    pub open spec fn walk(self, components: Seq<ComponentView>) -> Result<WalkView, Seq<char>> {
        walked(components, self.lookups(components))
    }

    /// The spelling of a path on disk, and whether a component was missing.
    pub open spec fn recovered(self, path: Seq<char>) -> Result<(Seq<char>, bool), Seq<char>> {
        match self.walk((self.components)(path)) {
            Ok(walk) => match recovery(path, (self.joined)(walk.corrected)) {
                Ok(spelling) => Ok((spelling, walk.stale)),
                Err(error) => Err(error),
            },
            Err(error) => Err(error),
        }
    }

    /// What looking at a path tells of it.
    pub open spec fn probe(self, path: Seq<char>) -> ProbeView {
        let step = match recovery_step(path, self.recovered(path)) {
            StepView::Inspect(spelling) => inspection_step(
                path,
                spelling,
                (self.inspect)(spelling),
            ),
            step => step,
        };
        match step {
            StepView::Done(probe) => probe,
            StepView::Inspect(spelling) | StepView::Identify(spelling) => identification(
                path,
                spelling,
                (self.identify)(spelling),
            ),
        }
    }

    /// Whether a name that a directory lists can be looked at, and a path that
    /// was put together from the spellings of its components has just these
    /// components.
    pub open spec fn coherent(self) -> bool {
        &&& forall|parent: Seq<Seq<char>>, name: Seq<char>|
            (self.listing)(parent).0.contains(name) ==> #[trigger] (self.absent)(parent, name)
                is None
        &&& forall|path: Seq<char>|
            {
                let components = #[trigger] (self.components)(path);
                match self.walk(components) {
                    Ok(walk) => (self.components)((self.joined)(walk.corrected)) == respelled(
                        components,
                        walk.corrected,
                    ),
                    Err(_) => true,
                }
            }
    }
}

/// What a lookup finds is in the directory, and is found as itself when it is
/// looked up again.
pub proof fn what_is_found_is_found_again(
    fs: FileSystem,
    parent: Seq<Seq<char>>,
    name: Seq<char>,
    actual: Seq<char>,
)
    requires
        fs.coherent(),
        fs.lookup(parent, name) == LookupView::Found(actual),
    ensures
        (fs.listing)(parent).0.contains(actual),
        fs.lookup(parent, actual) == LookupView::Found(actual),
        folded(actual) == folded(name),
{
    let listing = (fs.listing)(parent).0;
    search_finds_the_name_or_its_foldings(name, listing);
    if !listing.contains(name) {
        let candidates = searched(name, listing).1.candidates;
        let ids = candidates.map_values(|actual: Seq<char>| fs.id_of(parent, actual));
        let id = (fs.entry)(parent, name)->Ok_0;
        let k = first_same(ids, id)->0;
        assert(is_first_same(ids, id, k));
        a_picked_candidate_is_listed(name, listing, ids, id, k);
    }
    search_finds_the_name_or_its_foldings(actual, listing);
    assert((fs.absent)(parent, actual) is None);
}

/// Walking along the components with their recovered spellings comes to the
/// same end.
pub proof fn walking_again_corrects_nothing(fs: FileSystem, components: Seq<ComponentView>)
    requires
        fs.coherent(),
        fs.walk(components) is Ok,
    ensures
        ({
            let walk = fs.walk(components)->Ok_0;
            walk.corrected.len() == components.len() && fs.walk(
                respelled(components, walk.corrected),
            ) == Ok::<WalkView, Seq<char>>(walk)
        }),
    decreases components.len(),
{
    let walk = fs.walk(components)->Ok_0;
    let again = respelled(components, walk.corrected);
    let lookups = fs.lookups(components);
    if components.len() == 0 {
        assert(again =~= components);
    } else {
        let fewer = components.drop_last();
        let last = components.last();
        let index = components.len() - 1;
        assert(lookups.drop_last() =~= fs.lookups(fewer));
        walking_again_corrects_nothing(fs, fewer);
        let before = fs.walk(fewer)->Ok_0;
        assert(before.advanced(last, lookups.last()) == Ok::<WalkView, Seq<char>>(walk));
        assert(walk.corrected.len() == components.len());
        assert(before.corrected =~= walk.corrected.drop_last());
        assert(components[index] == last);
        let text = walk.corrected[index];
        assert(again.drop_last() =~= respelled(fewer, before.corrected));
        assert(again.last() == last.spelled(text));
        let found = fs.lookups(again);
        assert(found.drop_last() =~= fs.lookups(again.drop_last()));
        assert(fs.walk(again.drop_last()) == Ok::<WalkView, Seq<char>>(before));
        if before.needs_lookup(last) {
            let lookup = fs.lookup(before.corrected, last.text());
            assert(lookups.last() == Some(lookup));
            assert(found.last() == Some(fs.lookup(before.corrected, text)));
            match lookup {
                LookupView::Found(actual) => {
                    what_is_found_is_found_again(fs, before.corrected, last.text(), actual);
                },
                LookupView::Failed(_, _) => {},
            }
        }
        assert(walked(again, found) == before.advanced(again.last(), found.last()));
    }
}

/// Looking at the spelling of a path on disk tells the same as looking at the
/// path, and the spelling has the folding of the path. A path that cannot be
/// looked at keeps its spelling.
pub proof fn probing_the_spelling_tells_the_same(fs: FileSystem, path: Seq<char>)
    requires
        fs.coherent(),
    ensures
        ({
            let probe = fs.probe(path);
            if probe.state is Error {
                probe.spelling == path
            } else {
                folded(probe.spelling) == folded(path) && fs.probe(probe.spelling) == probe
            }
        }),
{
    let probe = fs.probe(path);
    if !(probe.state is Error) {
        let components = (fs.components)(path);
        let walk = fs.walk(components)->Ok_0;
        let spelling = (fs.joined)(walk.corrected);
        assert(fs.recovered(path) is Ok);
        walking_again_corrects_nothing(fs, components);
        assert((fs.components)(spelling) == respelled(components, walk.corrected));
        assert(fs.recovered(spelling) == fs.recovered(path));
        assert(probe.spelling == spelling);
    }
}

} // verus!
