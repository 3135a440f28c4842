//! What merging equivalent entries makes of them, given what is known of their
//! paths.

use vstd::prelude::*;

use crate::dir::DirView;
use crate::fold::folded;
use crate::grouping::{entries_at, lemma_first_like, lemma_members, lemma_top, members, top, united};
use crate::grouping::{FileId, KeyView};
use crate::merge::{after_merge, kept_positions, lemma_kept_positions, valid_groups, Group};
use crate::report::MergeView;
use crate::sort::{all_are, lemma_sort_all, lemma_sort_pairwise, pairwise, stable_sort};
use crate::text::text_leq;

verus! {

/// The entries, which of them are selected, the files that their paths lead
/// to and the spellings of their paths on disk, where those are known.
pub struct Census {
    pub dirs: Seq<DirView>,
    pub selected: Seq<bool>,
    pub ids: Seq<Option<FileId>>,
    pub spellings: Seq<Option<Seq<char>>>,
    pub assume_insensitive: bool,
}

/// Entries that become one: the survivor, those that go away, the path that
/// the survivor gets, and the spellings that go away.
pub struct FusionView {
    pub survivor: int,
    pub victims: Seq<int>,
    pub path: Seq<char>,
    pub merged: Seq<Seq<char>>,
}

impl FusionView {
    /// The positions of the survivor and of those that go away.
    pub open spec fn group(self) -> Group {
        (self.survivor, self.victims)
    }

    /// What is reported.
    pub open spec fn report(self) -> MergeView {
        MergeView { path: self.path, merged: self.merged, entries: self.victims.len() + 1 }
    }
}

/// The positions that become one.
pub open spec fn fusion_groups(fusions: Seq<FusionView>) -> Seq<Group> {
    fusions.map_values(|fusion: FusionView| fusion.group())
}

/// What is reported of entries that become one.
pub open spec fn fusion_reports(fusions: Seq<FusionView>) -> Seq<MergeView> {
    fusions.map_values(|fusion: FusionView| fusion.report())
}

/// The entries after the survivors got their paths.
pub open spec fn respelled(dirs: Seq<DirView>, fusions: Seq<FusionView>) -> Seq<DirView>
    decreases fusions.len(),
{
    if fusions.len() == 0 {
        dirs
    } else {
        let before = respelled(dirs, fusions.drop_last());
        let fusion = fusions.last();
        before.update(
            fusion.survivor,
            DirView { path: fusion.path, ..before[fusion.survivor] },
        )
    }
}

/// Whether a number is not this one.
pub open spec fn other_than(x: int) -> spec_fn(int) -> bool {
    |i: int| i != x
}

impl Census {
    /// Whether there is one flag, and one file and spelling if any, for each
    /// entry.
    pub open spec fn wf(self) -> bool {
        self.selected.len() == self.dirs.len() && self.ids.len() == self.dirs.len()
            && self.spellings.len() == self.dirs.len()
    }

    /// Selected entries belong together where their paths have the same
    /// folding and, unless that is assumed, lead to the same file.
    pub open spec fn keys(self) -> Seq<Option<KeyView>> {
        Seq::new(
            self.dirs.len(),
            |i: int|
                if self.selected[i] && (self.assume_insensitive || self.ids[i] is Some) {
                    Some(
                        KeyView {
                            text: folded(self.dirs[i].path),
                            id: if self.assume_insensitive {
                                None
                            } else {
                                self.ids[i]
                            },
                        },
                    )
                } else {
                    None
                },
        )
    }

    /// The partition of the entries into those that become one.
    pub open spec fn parts(self) -> Seq<int> {
        united(Seq::new(self.dirs.len(), |i: int| i), self.keys())
    }

    /// The entries that become one with the entry `r`, which is the first of
    /// them.
    pub open spec fn group(self, r: int) -> Seq<int> {
        members(self.parts(), Seq::new(self.dirs.len(), |i: int| false), r)
    }

    /// The entry that survives of a group.
    pub open spec fn survivor(self, r: int) -> int {
        top(self.dirs, self.group(r))
    }

    /// The entries of a group that go away.
    pub open spec fn victims(self, r: int) -> Seq<int> {
        self.group(r).filter(other_than(self.survivor(r)))
    }

    /// The path that a group is given: the spelling on disk of the survivor's
    /// path where it is known, else that path.
    pub open spec fn path(self, r: int) -> Seq<char> {
        let survivor = self.survivor(r);
        if !self.assume_insensitive && self.spellings[survivor] is Some {
            self.spellings[survivor]->0
        } else {
            self.dirs[survivor].path
        }
    }

    /// The spellings of a group that go away, sorted.
    pub open spec fn merged(self, r: int) -> Seq<Seq<char>> {
        stable_sort(
            entries_at(self.dirs, self.group(r)).map_values(|dir: DirView| dir.path).filter(
                |path: Seq<char>| path != self.path(r),
            ),
            |a: Seq<char>, b: Seq<char>| text_leq(a, b),
        )
    }

    /// What becomes of a group.
    pub open spec fn fusion(self, r: int) -> FusionView {
        FusionView {
            survivor: self.survivor(r),
            victims: self.victims(r),
            path: self.path(r),
            merged: self.merged(r),
        }
    }

    /// The first entries of the groups of more than one entry.
    pub open spec fn leaders(self) -> Seq<int> {
        kept_positions(self.dirs.len(), self.alone())
    }

    /// Whether an entry leads no group of more than one entry.
    pub open spec fn alone(self) -> spec_fn(int) -> bool {
        |r: int| self.group(r).len() <= 1
    }

    /// What becomes of the groups of more than one entry, sorted by path.
    pub open spec fn fusions(self) -> Seq<FusionView> {
        stable_sort(
            self.leaders().map_values(|r: int| self.fusion(r)),
            |a: FusionView, b: FusionView| text_leq(a.path, b.path),
        )
    }

    /// The entries that there are then.
    pub open spec fn outcome(self) -> Seq<DirView> {
        after_merge(respelled(self.dirs, self.fusions()), fusion_groups(self.fusions()))
    }
}

/// Whether a group names entries of a list of length `n`, each once, and has
/// something to merge.
pub open spec fn sound(group: Group, n: int) -> bool {
    &&& 0 <= group.0 < n
    &&& !group.1.contains(group.0)
    &&& group.1.no_duplicates()
    &&& group.1.len() > 0
    &&& forall|k: int| 0 <= k < group.1.len() ==> 0 <= #[trigger] group.1[k] < n
}

/// Whether two groups share no entry.
pub open spec fn apart(a: Group, b: Group) -> bool {
    &&& a.0 != b.0
    &&& !a.1.contains(b.0)
    &&& !b.1.contains(a.0)
    &&& forall|i: int| !(#[trigger] a.1.contains(i) && b.1.contains(i))
}

/// The first member of each part represents it.
pub proof fn lemma_census_parts(census: Census)
    requires
        census.wf(),
    ensures
        census.parts().len() == census.dirs.len(),
        forall|i: int|
            0 <= i < census.dirs.len() ==> {
                let r = #[trigger] census.parts()[i];
                0 <= r <= i && census.parts()[r] == r
            },
{
    assert forall|i: int| 0 <= i < census.dirs.len() implies {
        let r = #[trigger] census.parts()[i];
        0 <= r <= i && census.parts()[r] == r
    } by {
        lemma_first_like(census.keys(), i);
    }
}

/// The members of a group, its survivor and those that go away.
pub proof fn lemma_census_group(census: Census, r: int)
    requires
        census.wf(),
        0 <= r < census.dirs.len(),
        census.group(r).len() > 0,
    ensures
        census.group(r).contains(census.survivor(r)),
        census.group(r).no_duplicates(),
        forall|i: int|
            #[trigger] census.victims(r).contains(i) <==> census.group(r).contains(i) && i
                != census.survivor(r),
        census.victims(r).no_duplicates(),
        census.victims(r).len() == census.group(r).len() - 1,
        forall|i: int|
            #[trigger] census.group(r).contains(i) ==> 0 <= i < census.dirs.len()
                && census.parts()[i] == r,
{
    let group = census.group(r);
    let survivor = census.survivor(r);
    let stays = other_than(survivor);
    let out = Seq::new(census.dirs.len(), |i: int| false);
    lemma_census_parts(census);
    lemma_members(census.parts(), out, r);
    lemma_top(census.dirs, group);
    assert(group.no_duplicates()) by {
        assert forall|a: int, b: int| 0 <= a < group.len() && 0 <= b < group.len() && a
            != b implies group[a] != group[b] by {
            if a < b {
                assert(group[a] < group[b]);
            } else {
                assert(group[b] < group[a]);
            }
        }
    }
    assert(census.victims(r) == group.filter(stays));
    lemma_filter_one(group, survivor);
    assert forall|i: int| #[trigger] group.contains(i) implies 0 <= i < census.dirs.len()
        && census.parts()[i] == r by {
        let k = group.index_of(i);
        assert(group[k] == i);
    }
}

/// Filtering out one element of several that are all different.
proof fn lemma_filter_one(s: Seq<int>, x: int)
    requires
        s.no_duplicates(),
    ensures
        s.filter(other_than(x)).no_duplicates(),
        s.filter(other_than(x)).len() == s.len() - (if s.contains(x) {
            1int
        } else {
            0
        }),
        forall|i: int|
            #[trigger] s.filter(other_than(x)).contains(i) <==> s.contains(i) && i != x,
    decreases s.len(),
{
    let stays = other_than(x);
    let kept = s.filter(stays);
    if s.len() == 0 {
        broadcast use Seq::lemma_filter_len;

        assert(kept.len() == 0);
    } else {
        let front = s.drop_last();
        let last = s.last();
        assert(s =~= front.push(last));
        lemma_filter_one(front, x);
        front.lemma_filter_push(last, stays);
        let before = front.filter(stays);
        assert(s[s.len() - 1] == last);
        assert(!front.contains(last)) by {
            if front.contains(last) {
                let k = front.index_of(last);
                assert(s[k] == last);
            }
        }
        assert forall|i: int| s.contains(i) <==> front.contains(i) || i == last by {
            if front.contains(i) {
                let k = front.index_of(i);
                assert(s[k] == i);
            }
            if s.contains(i) && i != last {
                let k = s.index_of(i);
                assert(front[k] == i);
            }
        }
        assert forall|i: int| #[trigger] kept.contains(i) <==> s.contains(i) && i != x by {
            assert(before.contains(i) <==> front.contains(i) && i != x);
            if last == x {
                assert(kept == before);
            } else {
                assert(kept == before.push(last));
                if before.contains(i) {
                    let k = before.index_of(i);
                    assert(kept[k] == i);
                }
                if i == last {
                    assert(kept[kept.len() - 1] == i);
                }
                if kept.contains(i) && i != last {
                    let k = kept.index_of(i);
                    assert(before[k] == i);
                }
            }
        }
        if last != x {
            assert(kept == before.push(last));
            assert(!before.contains(last));
            assert(kept.no_duplicates());
        }
    }
}

/// The groups that become one can be merged, and each has something to merge.
pub proof fn lemma_fusions_valid(census: Census)
    requires
        census.wf(),
    ensures
        valid_groups(fusion_groups(census.fusions()), census.dirs.len() as int),
        forall|g: int|
            0 <= g < census.fusions().len() ==> sound(
                #[trigger] fusion_groups(census.fusions())[g],
                census.dirs.len() as int,
            ),
{
    let n = census.dirs.len() as int;
    let leaders = census.leaders();
    let unsorted = leaders.map_values(|r: int| census.fusion(r));
    let leq = |a: FusionView, b: FusionView| text_leq(a.path, b.path);
    let is_sound = |fusion: FusionView| sound(fusion.group(), n);
    let are_apart = |a: FusionView, b: FusionView| apart(a.group(), b.group());
    lemma_kept_positions(census.dirs.len(), census.alone());
    assert forall|g: int| 0 <= g < leaders.len() implies 0 <= #[trigger] leaders[g] < n
        && census.group(leaders[g]).len() > 1 by {
        assert(!census.alone()(leaders[g]));
    }
    assert(all_are(unsorted, is_sound)) by {
        assert forall|g: int| 0 <= g < unsorted.len() implies is_sound(#[trigger] unsorted[g]) by {
            let r = leaders[g];
            lemma_census_group(census, r);
            let group = unsorted[g].group();
            assert(group == (census.survivor(r), census.victims(r)));
            assert forall|k: int| 0 <= k < group.1.len() implies 0 <= #[trigger] group.1[k] < n by {
                assert(census.victims(r).contains(group.1[k]));
                assert(census.group(r).contains(group.1[k]));
            }
            assert(census.group(r).contains(census.survivor(r)));
            assert(!census.victims(r).contains(census.survivor(r)));
        }
    }
    assert(pairwise(unsorted, are_apart)) by {
        assert forall|g: int, h: int|
            0 <= g < unsorted.len() && 0 <= h < unsorted.len() && g != h implies are_apart(
            #[trigger] unsorted[g],
            #[trigger] unsorted[h],
        ) by {
            let q = leaders[g];
            let r = leaders[h];
            if g < h {
                assert(leaders[g] < leaders[h]);
            } else {
                assert(leaders[h] < leaders[g]);
            }
            lemma_census_group(census, q);
            lemma_census_group(census, r);
            let a = unsorted[g].group();
            let b = unsorted[h].group();
            assert(a == (census.survivor(q), census.victims(q)));
            assert(b == (census.survivor(r), census.victims(r)));
            assert(census.group(q).contains(a.0) && census.group(r).contains(b.0));
            assert forall|i: int| !(#[trigger] a.1.contains(i) && b.1.contains(i)) by {
                if census.victims(q).contains(i) && census.victims(r).contains(i) {
                    assert(census.group(q).contains(i) && census.group(r).contains(i));
                }
            }
            if census.victims(q).contains(b.0) {
                assert(census.group(q).contains(b.0));
            }
            if census.victims(r).contains(a.0) {
                assert(census.group(r).contains(a.0));
            }
        }
    }
    lemma_sort_all(unsorted, leq, is_sound);
    lemma_sort_pairwise(unsorted, leq, are_apart);
    let fusions = census.fusions();
    assert(fusions == stable_sort(unsorted, leq));
    let groups = fusion_groups(fusions);
    assert forall|g: int| 0 <= g < fusions.len() implies sound(#[trigger] groups[g], n) by {
        assert(is_sound(fusions[g]));
    }
    assert forall|g: int, h: int|
        0 <= g < groups.len() && 0 <= h < groups.len() && g != h implies {
        let a = #[trigger] groups[g];
        let b = #[trigger] groups[h];
        &&& a.0 != b.0
        &&& !a.1.contains(b.0)
        &&& forall|i: int| !(#[trigger] a.1.contains(i) && b.1.contains(i))
    } by {
        assert(are_apart(fusions[g], fusions[h]));
    }
}

} // verus!
