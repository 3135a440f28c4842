//! What tidying makes of entries, given what is known of their paths.

use vstd::prelude::*;

use crate::db::total_rank;
use crate::dir::DirView;
use crate::fold::folded;
use crate::grouping::{entries_at, latest, members, top, united, FileId, KeyView};
use crate::merge::kept_positions;
use crate::probe::{ProbeView, StateView};
use crate::report::MergeView;
use crate::sort::stable_sort;
use crate::text::text_leq;

verus! {

/// The entries to tidy, which of them are selected, what the file system says
/// of their paths, and what is to be done.
pub struct Survey {
    pub dirs: Seq<DirView>,
    pub selected: Seq<bool>,
    pub probes: Seq<Option<ProbeView>>,
    pub prune: bool,
    pub normalize: bool,
    pub dedupe: bool,
    pub assume_insensitive: bool,
}

/// The outcome of tidying: the entries that there are then, and what is to be
/// reported.
pub struct PlanView {
    pub rows: Seq<DirView>,
    pub pruned: Seq<Seq<char>>,
    pub normalized: Seq<(Seq<char>, Seq<char>)>,
    pub merges: Seq<MergeView>,
    pub warnings: Seq<(Seq<char>, Seq<char>)>,
}

impl PlanView {
    /// Whether nothing is removed, changed or merged.
    pub open spec fn changes_nothing(self) -> bool {
        self.pruned.len() == 0 && self.normalized.len() == 0 && self.merges.len() == 0
    }
}

/// The order of pairs of texts: by the first, then by the second.
pub open spec fn pair_leq(a: (Seq<char>, Seq<char>), b: (Seq<char>, Seq<char>)) -> bool {
    if a.0 == b.0 {
        text_leq(a.1, b.1)
    } else {
        text_leq(a.0, b.0)
    }
}

/// The elements without those that equal the one before them.
pub open spec fn without_repeats<T>(s: Seq<T>) -> Seq<T>
    decreases s.len(),
{
    if s.len() <= 1 {
        s
    } else if s.last() == s[s.len() - 2] {
        without_repeats(s.drop_last())
    } else {
        without_repeats(s.drop_last()).push(s.last())
    }
}

impl Survey {
    /// Whether there is one flag and one probe, if any, for each entry.
    pub open spec fn wf(self) -> bool {
        self.selected.len() == self.dirs.len() && self.probes.len() == self.dirs.len()
    }

    /// Whether the entry is removed: it is selected, and its path is stale.
    pub open spec fn pruned(self, i: int) -> bool {
        self.prune && self.selected[i] && match self.probes[i] {
            Some(probe) => probe.state is Stale,
            None => false,
        }
    }

    /// Which entries are removed.
    pub open spec fn out(self) -> Seq<bool> {
        Seq::new(self.dirs.len(), |i: int| self.pruned(i))
    }

    /// The path of the entry after normalization: the spelling on disk, where
    /// the entry is selected and stays, and its path could be looked at.
    pub open spec fn path(self, i: int) -> Seq<char> {
        if self.normalize && self.selected[i] && !self.pruned(i) {
            match self.probes[i] {
                Some(probe) => if probe.state is Error {
                    self.dirs[i].path
                } else {
                    probe.spelling
                },
                None => self.dirs[i].path,
            }
        } else {
            self.dirs[i].path
        }
    }

    /// Whether normalization changes the path of the entry.
    pub open spec fn normalized(self, i: int) -> bool {
        self.path(i) != self.dirs[i].path
    }

    /// Whether the entry has the path of one that normalization changed.
    pub open spec fn collides(self, i: int) -> bool {
        !self.pruned(i) && exists|k: int|
            0 <= k < self.dirs.len() && !self.pruned(k) && #[trigger] self.normalized(k)
                && self.path(k) == self.path(i)
    }

    /// Entries that collide belong together where their paths are the same.
    pub open spec fn exact_keys(self) -> Seq<Option<KeyView>> {
        Seq::new(
            self.dirs.len(),
            |i: int|
                if self.collides(i) {
                    Some(KeyView { text: self.path(i), id: None })
                } else {
                    None
                },
        )
    }

    /// The partition of the entries by collisions.
    pub open spec fn exact_parts(self) -> Seq<int> {
        united(Seq::new(self.dirs.len(), |i: int| i), self.exact_keys())
    }

    /// The entries that collide with the entry `r`, which is the first of them.
    pub open spec fn exact_group(self, r: int) -> Seq<int> {
        members(self.exact_parts(), self.out(), r)
    }

    /// The file that the entry's path leads to, where that is known.
    pub open spec fn live_id(self, i: int) -> Option<FileId> {
        match self.probes[i] {
            Some(probe) => match probe.state {
                StateView::Live(id) => Some(id),
                _ => None,
            },
            None => None,
        }
    }

    /// The first entry of a group whose path leads to a directory.
    pub open spec fn first_live(self, group: Seq<int>) -> Option<int>
        decreases group.len(),
    {
        if group.len() == 0 {
            None
        } else {
            match self.first_live(group.drop_last()) {
                Some(i) => Some(i),
                None => if self.live_id(group.last()) is Some {
                    Some(group.last())
                } else {
                    None
                },
            }
        }
    }

    /// The file that a group stands for.
    pub open spec fn group_id(self, group: Seq<int>) -> Option<FileId> {
        match self.first_live(group) {
            Some(i) => self.live_id(i),
            None => None,
        }
    }

    /// Whether one of these entries is selected.
    pub open spec fn any_selected(self, group: Seq<int>) -> bool {
        exists|k: int| 0 <= k < group.len() && self.selected[#[trigger] group[k]]
    }

    /// Groups of colliding entries belong together where their paths have the
    /// same folding and, unless that is assumed, lead to the same file.
    pub open spec fn dedupe_keys(self) -> Seq<Option<KeyView>> {
        Seq::new(
            self.dirs.len(),
            |r: int|
                {
                    let group = self.exact_group(r);
                    let id = self.group_id(group);
                    if self.dedupe && self.any_selected(group) && (self.assume_insensitive
                        || id is Some) {
                        Some(
                            KeyView {
                                text: folded(self.path(r)),
                                id: if self.assume_insensitive {
                                    None
                                } else {
                                    id
                                },
                            },
                        )
                    } else {
                        None
                    }
                },
        )
    }

    /// The partition of the entries into those that become one.
    pub open spec fn parts(self) -> Seq<int> {
        united(self.exact_parts(), self.dedupe_keys())
    }

    /// The entries that become one with the entry `r`, which is the first of
    /// them.
    pub open spec fn group(self, r: int) -> Seq<int> {
        members(self.parts(), self.out(), r)
    }

    /// The entry that survives of a group.
    pub open spec fn survivor(self, r: int) -> int {
        top(self.dirs, self.group(r))
    }

    /// The spelling on disk that a group is given: that of the survivor's
    /// path, or else of the first path that leads to a directory.
    pub open spec fn spelling(self, r: int) -> Option<Seq<char>> {
        let survivor = self.survivor(r);
        if self.live_id(survivor) is Some {
            Some(self.probes[survivor]->0.spelling)
        } else {
            match self.first_live(self.group(r)) {
                Some(i) => Some(self.probes[i]->0.spelling),
                None => None,
            }
        }
    }

    /// The path that a group is given: where the file system confirmed it, the
    /// spelling on disk, else the survivor's path.
    pub open spec fn group_path(self, r: int) -> Seq<char> {
        if self.dedupe && !self.assume_insensitive && self.group(r).len() > 1 {
            match self.spelling(r) {
                Some(spelling) => spelling,
                None => self.path(self.survivor(r)),
            }
        } else {
            self.path(self.survivor(r))
        }
    }

    /// What a group becomes: the ranks are summed up, and the latest access
    /// stays.
    pub open spec fn row(self, r: int) -> DirView {
        let entries = entries_at(self.dirs, self.group(r));
        DirView {
            path: self.group_path(r),
            rank: total_rank(entries),
            last_accessed: latest(entries),
        }
    }

    /// Whether the entry survives.
    pub open spec fn survives(self, i: int) -> bool {
        !self.pruned(i) && self.survivor(self.parts()[i]) == i
    }

    /// Whether the entry does not survive, as a function value.
    pub open spec fn gone(self) -> spec_fn(int) -> bool {
        |i: int| !self.survives(i)
    }

    /// The positions of the entries that survive.
    pub open spec fn survivors(self) -> Seq<int> {
        kept_positions(self.dirs.len(), self.gone())
    }

    /// The entries that there are then, in the order of the survivors.
    pub open spec fn rows(self) -> Seq<DirView> {
        self.survivors().map_values(|i: int| self.row(self.parts()[i]))
    }

    /// What is left out of the report of removed paths.
    pub open spec fn not_pruned(self) -> spec_fn(int) -> bool {
        |i: int| !self.pruned(i)
    }

    /// What is left out of the report of changed paths.
    pub open spec fn not_normalized(self) -> spec_fn(int) -> bool {
        |i: int| !self.normalized(i)
    }

    /// What is left out of the report of merges.
    pub open spec fn not_merged(self) -> spec_fn(int) -> bool {
        |r: int| self.group(r).len() <= 1
    }

    /// What is left out of the warnings.
    pub open spec fn not_failed(self) -> spec_fn(int) -> bool {
        |i: int| !self.failed(i)
    }

    /// The paths that are removed, sorted.
    pub open spec fn pruned_paths(self) -> Seq<Seq<char>> {
        stable_sort(
            kept_positions(self.dirs.len(), self.not_pruned()).map_values(
                |i: int| self.dirs[i].path,
            ),
            |a: Seq<char>, b: Seq<char>| text_leq(a, b),
        )
    }

    /// The paths that change, each with its new spelling, sorted.
    pub open spec fn normalized_paths(self) -> Seq<(Seq<char>, Seq<char>)> {
        stable_sort(
            kept_positions(self.dirs.len(), self.not_normalized()).map_values(
                |i: int| (self.dirs[i].path, self.path(i)),
            ),
            |a: (Seq<char>, Seq<char>), b: (Seq<char>, Seq<char>)| pair_leq(a, b),
        )
    }

    /// The spellings that go away when a group becomes one entry, sorted.
    pub open spec fn merged_paths(self, r: int) -> Seq<Seq<char>> {
        stable_sort(
            entries_at(self.dirs, self.group(r)).map_values(|dir: DirView| dir.path).filter(
                |path: Seq<char>| path != self.group_path(r),
            ),
            |a: Seq<char>, b: Seq<char>| text_leq(a, b),
        )
    }

    /// What is reported of a group.
    pub open spec fn merge(self, r: int) -> MergeView {
        MergeView {
            path: self.group_path(r),
            merged: self.merged_paths(r),
            entries: self.group(r).len(),
        }
    }

    /// The groups of more than one entry, sorted by their path.
    pub open spec fn merges(self) -> Seq<MergeView> {
        stable_sort(
            kept_positions(self.dirs.len(), self.not_merged()).map_values(
                |r: int| self.merge(r),
            ),
            |a: MergeView, b: MergeView| text_leq(a.path, b.path),
        )
    }

    /// Whether the path of the entry could not be looked at.
    pub open spec fn failed(self, i: int) -> bool {
        match self.probes[i] {
            Some(probe) => probe.state is Error,
            None => false,
        }
    }

    /// The paths that could not be looked at, each with the error, sorted and
    /// without repetitions.
    pub open spec fn warnings(self) -> Seq<(Seq<char>, Seq<char>)> {
        without_repeats(
            stable_sort(
                kept_positions(self.dirs.len(), self.not_failed()).map_values(
                    |i: int| (self.dirs[i].path, self.probes[i]->0.state->Error_0),
                ),
                |a: (Seq<char>, Seq<char>), b: (Seq<char>, Seq<char>)| pair_leq(a, b),
            ),
        )
    }

    /// The outcome of tidying.
    pub open spec fn plan(self) -> PlanView {
        PlanView {
            rows: self.rows(),
            pruned: self.pruned_paths(),
            normalized: self.normalized_paths(),
            merges: self.merges(),
            warnings: self.warnings(),
        }
    }
}

} // verus!
