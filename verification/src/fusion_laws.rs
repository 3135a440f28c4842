//! Which entries a dedupe command makes one of, and what it makes of them, in
//! terms of its options, the selection and what is known of the paths.

use vstd::prelude::*;
use vstd::utf8::encode_utf8;

use crate::census::{fusion_groups, fusion_reports, lemma_census_group, lemma_census_parts};
use crate::census::{lemma_fusions_valid, other_than, respelled, Census, FusionView};
use crate::cmd::Dedupe;
use crate::dedupe::{spelling_views, Merge};
use crate::dedupe_laws::{entries_become_one_iff_equivalent, is_fusion, lemma_fusions};
use crate::dedupe_laws::{lemma_respelled_at, lemma_respelled_len, lemma_respelled_other};
use crate::dir::DirView;
use crate::entry_laws::merging_takes_in_each_group;
use crate::fold::folded;
use crate::grouping::{entries_at, lemma_members, survivor_is_the_first_of_the_highest, FileId};
use crate::merge::absorbed;
use crate::sort::{lemma_sort_ascending, lemma_sort_permutes, total_preorder};
use crate::text::{bytes_leq, lemma_text_leq_order, text_leq};

verus! {

/// What a command is run on: the entries, which of them are selected, the files
/// that their paths lead to and their spellings on disk, where those are known.
pub struct Situation {
    pub dedupe: Dedupe,
    pub dirs: Seq<DirView>,
    pub selected: Seq<bool>,
    pub ids: Seq<Option<FileId>>,
    pub spellings: Seq<Option<Seq<char>>>,
}

impl Situation {
    pub open spec fn wf(self) -> bool {
        self.selected.len() == self.dirs.len() && self.ids.len() == self.dirs.len()
            && self.spellings.len() == self.dirs.len()
    }

    pub open spec fn census(self) -> Census {
        self.dedupe.census(self.dirs, self.selected, self.ids, self.spellings)
    }

    /// Whether entries are spellings of one directory.
    pub open spec fn alike(self, i: int, j: int) -> bool {
        &&& 0 <= i < self.dirs.len()
        &&& 0 <= j < self.dirs.len()
        &&& self.selected[i] && self.selected[j]
        &&& folded(self.dirs[i].path) == folded(self.dirs[j].path)
        &&& self.dedupe.assume_insensitive || (self.ids[i] is Some && self.ids[i] == self.ids[j])
    }
}

/// A dry run finds the same to merge as a run that is none.
pub proof fn dry_runs_find_the_same(
    a: Dedupe,
    b: Dedupe,
    dirs: Seq<DirView>,
    selected: Seq<bool>,
    ids: Seq<Option<FileId>>,
    spellings: Seq<Option<Seq<char>>>,
)
    requires
        a.assume_insensitive == b.assume_insensitive,
    ensures
        a.census(dirs, selected, ids, spellings).fusions() == b.census(
            dirs,
            selected,
            ids,
            spellings,
        ).fusions(),
        a.census(dirs, selected, ids, spellings).outcome() == b.census(
            dirs,
            selected,
            ids,
            spellings,
        ).outcome(),
{
}

/// Whether an entry takes part in a merge.
pub open spec fn takes_part(fusion: FusionView, i: int) -> bool {
    i == fusion.survivor || fusion.victims.contains(i)
}

/// Whether a merge is of all the entries that are spellings of one directory,
/// and more than one. The survivor is none of the others, which are in order.
pub open spec fn is_whole(situation: Situation, fusion: FusionView) -> bool {
    &&& 0 <= fusion.survivor < situation.dirs.len()
    &&& fusion.victims.len() > 0
    &&& !fusion.victims.contains(fusion.survivor)
    &&& forall|k: int|
        0 <= k < fusion.victims.len() ==> 0 <= #[trigger] fusion.victims[k] < situation.dirs.len()
    &&& forall|k: int, m: int|
        0 <= k < m < fusion.victims.len() ==> #[trigger] fusion.victims[k]
            < #[trigger] fusion.victims[m]
    &&& forall|i: int|
        0 <= i < situation.dirs.len() ==> (#[trigger] takes_part(fusion, i) <==> i
            == fusion.survivor || situation.alike(fusion.survivor, i))
}

/// Whether a merge has the path that it is to have, the spelling on disk of the
/// survivor's path where that is known and the file system counts, and tells of
/// all other spellings in order.
pub open spec fn is_named(situation: Situation, fusion: FusionView) -> bool {
    let spelling = situation.spellings[fusion.survivor];
    let members = situation.census().group(situation.census().parts()[fusion.survivor]);
    &&& !situation.dedupe.assume_insensitive && spelling is Some ==> fusion.path == spelling->0
    &&& situation.dedupe.assume_insensitive || spelling is None ==> fusion.path
        == situation.dirs[fusion.survivor].path
    &&& forall|i: int| #[trigger] members.contains(i) <==> takes_part(fusion, i)
    &&& fusion.merged.to_multiset() == members.map_values(
        |i: int| situation.dirs[i].path,
    ).filter(|path: Seq<char>| path != fusion.path).to_multiset()
    &&& forall|a: int, b: int|
        0 <= a < b < fusion.merged.len() ==> bytes_leq(
            encode_utf8(#[trigger] fusion.merged[a]),
            encode_utf8(#[trigger] fusion.merged[b]),
        )
}

/// Whether the survivor is the first of those with the highest rank.
pub open spec fn has_the_highest(situation: Situation, fusion: FusionView) -> bool {
    forall|k: int|
        0 <= k < fusion.victims.len() ==> {
            let other = situation.dirs[#[trigger] fusion.victims[k]].rank.value();
            let kept = situation.dirs[fusion.survivor].rank.value();
            other <= kept && (fusion.victims[k] < fusion.survivor ==> other < kept)
        }
}

/// A part of a sequence in strictly ascending order is in that order too.
proof fn lemma_filter_ascending(s: Seq<int>, keep: spec_fn(int) -> bool)
    requires
        forall|a: int, b: int| 0 <= a < b < s.len() ==> #[trigger] s[a] < #[trigger] s[b],
    ensures
        forall|a: int, b: int|
            0 <= a < b < s.filter(keep).len() ==> #[trigger] s.filter(keep)[a]
                < #[trigger] s.filter(keep)[b],
        forall|a: int|
            0 <= a < s.filter(keep).len() ==> s.contains(#[trigger] s.filter(keep)[a]),
    decreases s.len(),
{
    if s.len() == 0 {
        broadcast use Seq::lemma_filter_len;

        assert(s.filter(keep).len() == 0);
    } else {
        let front = s.drop_last();
        let last = s.last();
        let kept = s.filter(keep);
        let before = front.filter(keep);
        assert(s =~= front.push(last));
        assert(s[s.len() - 1] == last);
        assert forall|a: int, b: int| 0 <= a < b < front.len() implies #[trigger] front[a]
            < #[trigger] front[b] by {
            assert(s[a] < s[b]);
        }
        lemma_filter_ascending(front, keep);
        front.lemma_filter_push(last, keep);
        assert forall|a: int| 0 <= a < before.len() implies (#[trigger] before[a]) < last
            && s.contains(before[a]) by {
            let k = front.index_of(before[a]);
            assert(s[k] == before[a]);
            assert(s[k] < s[s.len() - 1]);
        }
        assert forall|a: int| 0 <= a < kept.len() implies s.contains(#[trigger] kept[a]) by {
            if a < before.len() {
                assert(kept[a] == before[a]);
            }
        }
        assert forall|a: int, b: int| 0 <= a < b < kept.len() implies #[trigger] kept[a]
            < #[trigger] kept[b] by {
            assert(kept[a] == before[a]);
            if b < before.len() {
                assert(kept[b] == before[b]);
            }
        }
    }
}

proof fn lemma_fusion(situation: Situation, r: int)
    requires
        situation.wf(),
        0 <= r < situation.dirs.len(),
        situation.census().group(r).len() > 1,
    ensures
        is_whole(situation, situation.census().fusion(r)),
        is_named(situation, situation.census().fusion(r)),
        (forall|i: int|
            0 <= i < situation.dirs.len() ==> !(#[trigger] situation.dirs[i]).rank.is_nan())
            ==> has_the_highest(situation, situation.census().fusion(r)),
{
    let census = situation.census();
    let fusion = census.fusion(r);
    let members = census.group(r);
    let out = Seq::new(census.dirs.len(), |i: int| false);
    lemma_census_parts(census);
    lemma_census_group(census, r);
    lemma_members(census.parts(), out, r);
    lemma_filter_ascending(members, other_than(census.survivor(r)));
    assert(census.parts()[fusion.survivor] == r);
    assert forall|k: int| 0 <= k < fusion.victims.len() implies 0 <= #[trigger] fusion.victims[k]
        < situation.dirs.len() by {
        assert(fusion.victims.contains(fusion.victims[k]));
        assert(members.contains(fusion.victims[k]));
    }
    assert forall|i: int| 0 <= i < situation.dirs.len() implies (#[trigger] takes_part(fusion, i)
        <==> i == fusion.survivor || situation.alike(fusion.survivor, i)) by {
        if i != fusion.survivor {
            entries_become_one_iff_equivalent(census, fusion.survivor, i);
            assert(fusion.victims.contains(i) <==> members.contains(i));
            if census.parts()[i] == r {
                assert(!out[i]);
                assert(members.contains(i));
            }
        }
    }
    assert forall|i: int| #[trigger] members.contains(i) <==> takes_part(fusion, i) by {
        assert(fusion.victims.contains(i) <==> members.contains(i) && i != fusion.survivor);
    }
    let by_text = |a: Seq<char>, b: Seq<char>| text_leq(a, b);
    let differs = |path: Seq<char>| path != census.path(r);
    let paths = entries_at(census.dirs, members).map_values(|dir: DirView| dir.path);
    assert(paths =~= members.map_values(|i: int| situation.dirs[i].path));
    assert(differs =~= |path: Seq<char>| path != fusion.path);
    lemma_text_leq_order();
    assert(total_preorder(by_text)) by {
        assert forall|a: Seq<char>, b: Seq<char>| #[trigger] by_text(a, b) || by_text(b, a) by {
            assert(text_leq(a, b) || text_leq(b, a));
        }
    }
    lemma_sort_permutes(paths.filter(differs), by_text);
    lemma_sort_ascending(paths.filter(differs), by_text);
    if forall|i: int|
        0 <= i < situation.dirs.len() ==> !(#[trigger] situation.dirs[i]).rank.is_nan() {
        assert forall|k: int| 0 <= k < members.len() implies !census.dirs[
            #[trigger] members[k]
        ].rank.is_nan() by {
            assert(!situation.dirs[members[k]].rank.is_nan());
        }
        let at = survivor_is_the_first_of_the_highest(census.dirs, members);
        assert forall|k: int| 0 <= k < fusion.victims.len() implies {
            let other = situation.dirs[#[trigger] fusion.victims[k]].rank.value();
            let kept = situation.dirs[fusion.survivor].rank.value();
            other <= kept && (fusion.victims[k] < fusion.survivor ==> other < kept)
        } by {
            assert(fusion.victims.contains(fusion.victims[k]));
            let m = members.index_of(fusion.victims[k]);
            assert(members[m] == fusion.victims[k]);
            assert(!situation.dirs[members[m]].rank.is_nan());
            assert(!situation.dirs[members[at]].rank.is_nan());
            if m > at {
                assert(members[at] < members[m]);
            }
        }
    }
}

/// What is merged are the entries that are spellings of one directory: each
/// merge is of all of them, into the first of those with the highest rank, and
/// every entry that is a spelling of the directory of another takes part in one
/// merge only. Merges come in the order of their paths' bytes.
pub proof fn spellings_of_one_directory_are_merged(situation: Situation)
    requires
        situation.wf(),
    ensures
        ({
            let fusions = situation.census().fusions();
            &&& forall|g: int|
                0 <= g < fusions.len() ==> is_whole(situation, #[trigger] fusions[g]) && is_named(
                    situation,
                    fusions[g],
                )
            &&& forall|i: int, j: int|
                i != j && #[trigger] situation.alike(i, j) ==> exists|g: int|
                    0 <= g < fusions.len() && takes_part(#[trigger] fusions[g], i)
            &&& forall|g: int, h: int, i: int|
                0 <= g < fusions.len() && 0 <= h < fusions.len() && #[trigger] takes_part(
                    fusions[g],
                    i,
                ) && #[trigger] takes_part(fusions[h], i) ==> g == h
            &&& forall|g: int, h: int|
                0 <= g < h < fusions.len() ==> bytes_leq(
                    encode_utf8((#[trigger] fusions[g]).path),
                    encode_utf8((#[trigger] fusions[h]).path),
                )
            &&& (forall|i: int|
                0 <= i < situation.dirs.len() ==> !(#[trigger] situation.dirs[i]).rank.is_nan())
                ==> forall|g: int|
                0 <= g < fusions.len() ==> has_the_highest(situation, #[trigger] fusions[g])
        }),
{
    let census = situation.census();
    let fusions = census.fusions();
    let good = |fusion: FusionView| is_fusion(census, fusion);
    let by_path = |a: FusionView, b: FusionView| text_leq(a.path, b.path);
    lemma_fusions(census);
    lemma_fusions_valid(census);
    assert forall|g: int| 0 <= g < fusions.len() implies is_whole(situation, #[trigger] fusions[g])
        && is_named(situation, fusions[g]) by {
        assert(good(fusions[g]));
        let r = choose|r: int|
            0 <= r < census.dirs.len() && census.group(r).len() > 1 && fusions[g]
                == #[trigger] census.fusion(r);
        lemma_fusion(situation, r);
    }
    if forall|i: int|
        0 <= i < situation.dirs.len() ==> !(#[trigger] situation.dirs[i]).rank.is_nan() {
        assert forall|g: int| 0 <= g < fusions.len() implies has_the_highest(
            situation,
            #[trigger] fusions[g],
        ) by {
            assert(good(fusions[g]));
            let r = choose|r: int|
                0 <= r < census.dirs.len() && census.group(r).len() > 1 && fusions[g]
                    == #[trigger] census.fusion(r);
            lemma_fusion(situation, r);
        }
    }
    assert forall|i: int, j: int| i != j && #[trigger] situation.alike(i, j) implies exists|g: int|
        0 <= g < fusions.len() && takes_part(#[trigger] fusions[g], i) by {
        let r = census.parts()[i];
        let out = Seq::new(census.dirs.len(), |i: int| false);
        let members = census.group(r);
        lemma_census_parts(census);
        entries_become_one_iff_equivalent(census, i, j);
        lemma_members(census.parts(), out, r);
        assert(!out[i] && !out[j] && census.parts()[j] == r);
        assert(members.contains(i) && members.contains(j));
        let a = members.index_of(i);
        let b = members.index_of(j);
        assert(members[a] == i && members[b] == j);
        assert(members.len() > 1);
        lemma_census_group(census, r);
        let g = fusions.index_of(census.fusion(r));
        assert(fusions.contains(census.fusion(r)));
        assert(census.victims(r).contains(i) <==> members.contains(i) && i != census.survivor(r));
        assert(takes_part(fusions[g], i));
    }
    let groups = fusion_groups(fusions);
    assert forall|g: int, h: int, i: int|
        0 <= g < fusions.len() && 0 <= h < fusions.len() && #[trigger] takes_part(fusions[g], i)
            && #[trigger] takes_part(fusions[h], i) implies g == h by {
        assert(groups[g] == fusions[g].group());
        assert(groups[h] == fusions[h].group());
        if g != h {
            assert(groups[g].0 != groups[h].0);
            assert(!groups[g].1.contains(groups[h].0));
            assert(!groups[h].1.contains(groups[g].0));
            assert(!(groups[g].1.contains(i) && groups[h].1.contains(i)));
        }
    }
    lemma_text_leq_order();
    assert(total_preorder(by_path)) by {
        assert forall|a: FusionView, b: FusionView|
            #[trigger] by_path(a, b) || by_path(b, a) by {
            assert(text_leq(a.path, b.path) || text_leq(b.path, a.path));
        }
    }
    lemma_sort_ascending(census.leaders().map_values(|r: int| census.fusion(r)), by_path);
}

/// Merging removes the entries that are merged into others, and leaves each of
/// the others once: a survivor gets the path of the merge and takes in the
/// others in their order, and an entry that takes part in no merge stays as it
/// is.
pub proof fn merging_leaves_the_survivors(situation: Situation) -> (left: Seq<int>)
    requires
        situation.wf(),
    ensures
        ({
            let fusions = situation.census().fusions();
            let rows = situation.census().outcome();
            &&& left.no_duplicates()
            &&& left.len() == rows.len()
            &&& forall|a: int| 0 <= a < left.len() ==> 0 <= #[trigger] left[a] < situation.dirs.len()
            &&& forall|i: int|
                0 <= i < situation.dirs.len() ==> (#[trigger] left.contains(i) <==> forall|g: int|
                    0 <= g < fusions.len() ==> !(#[trigger] fusions[g]).victims.contains(i))
            &&& forall|a: int, g: int|
                0 <= a < left.len() && 0 <= g < fusions.len() && (#[trigger] fusions[g]).survivor
                    == #[trigger] left[a] ==> rows[a] == absorbed(
                    (DirView { path: fusions[g].path, ..situation.dirs[left[a]] }),
                    fusions[g].victims.map_values(|i: int| situation.dirs[i]),
                )
            &&& forall|a: int|
                0 <= a < left.len() && (forall|g: int|
                    0 <= g < fusions.len() ==> (#[trigger] fusions[g]).survivor != left[a])
                    ==> #[trigger] rows[a] == situation.dirs[left[a]]
        }),
{
    let census = situation.census();
    let fusions = census.fusions();
    let groups = fusion_groups(fusions);
    let before = respelled(census.dirs, fusions);
    let rows = census.outcome();
    lemma_fusions(census);
    lemma_fusions_valid(census);
    lemma_respelled_len(census, fusions);
    let left = merging_takes_in_each_group(before, groups);
    assert forall|i: int| 0 <= i < situation.dirs.len() implies (#[trigger] left.contains(i)
        <==> forall|g: int|
        0 <= g < fusions.len() ==> !(#[trigger] fusions[g]).victims.contains(i)) by {
        if left.contains(i) {
            assert forall|g: int| 0 <= g < fusions.len() implies !(
            #[trigger] fusions[g]).victims.contains(i) by {
                assert(!groups[g].1.contains(i));
            }
        }
        if forall|g: int|
            0 <= g < fusions.len() ==> !(#[trigger] fusions[g]).victims.contains(i) {
            assert forall|g: int| 0 <= g < groups.len() implies !(
            #[trigger] groups[g]).1.contains(i) by {
                assert(!fusions[g].victims.contains(i));
            }
        }
    }
    assert forall|a: int, g: int|
        0 <= a < left.len() && 0 <= g < fusions.len() && (#[trigger] fusions[g]).survivor
            == #[trigger] left[a] implies rows[a] == absorbed(
        (DirView { path: fusions[g].path, ..situation.dirs[left[a]] }),
        fusions[g].victims.map_values(|i: int| situation.dirs[i]),
    ) by {
        assert(groups[g].0 == left[a]);
        assert forall|h: int| 0 <= h < fusions.len() && h != g implies (
        #[trigger] fusions[h]).survivor != fusions[g].survivor by {
            assert(groups[h].0 != groups[g].0);
        }
        lemma_respelled_at(census, fusions, g);
        let victims = fusions[g].victims;
        assert(groups[g].1 == victims);
        assert(victims.map_values(|i: int| before[i]) =~= victims.map_values(
            |i: int| situation.dirs[i],
        )) by {
            assert forall|k: int| 0 <= k < victims.len() implies before[#[trigger] victims[k]]
                == situation.dirs[victims[k]] by {
                let i = victims[k];
                assert(victims.contains(i));
                assert(0 <= groups[g].1[k] < situation.dirs.len());
                assert forall|h: int| 0 <= h < fusions.len() implies (
                #[trigger] fusions[h]).survivor != i by {
                    assert(groups[h].0 == fusions[h].survivor);
                    if h == g {
                        assert(!groups[g].1.contains(groups[g].0));
                    } else {
                        assert(!groups[g].1.contains(groups[h].0));
                    }
                }
                lemma_respelled_other(census, fusions, i);
            }
        }
    }
    assert forall|a: int|
        0 <= a < left.len() && (forall|g: int|
            0 <= g < fusions.len() ==> (#[trigger] fusions[g]).survivor != left[a])
        implies #[trigger] rows[a] == situation.dirs[left[a]] by {
        assert(0 <= left[a] < situation.dirs.len());
        assert forall|g: int| 0 <= g < groups.len() implies (#[trigger] groups[g]).0
            != left[a] by {
            assert(fusions[g].survivor != left[a]);
        }
        lemma_respelled_other(census, fusions, left[a]);
    }
    left
}

/// What is reported of merges is told of each: its path, the spellings that go
/// away, and the number of its entries.
pub proof fn each_merge_is_reported(fusions: Seq<FusionView>)
    ensures
        fusion_reports(fusions).len() == fusions.len(),
        forall|g: int|
            0 <= g < fusions.len() ==> {
                let report = #[trigger] fusion_reports(fusions)[g];
                &&& report.path == fusions[g].path
                &&& report.merged == fusions[g].merged
                &&& report.entries == fusions[g].victims.len() + 1
            },
{
}

/// A merge and what is known of spellings are seen as what they hold.
pub proof fn merges_are_seen_as_they_are(merge: Merge, spellings: Seq<Option<String>>)
    ensures
        merge@.survivor == merge.survivor_idx,
        merge@.victims.len() == merge.victim_idxs@.len(),
        forall|k: int|
            0 <= k < merge.victim_idxs@.len() ==> #[trigger] merge@.victims[k]
                == merge.victim_idxs@[k],
        merge@.path == merge.path@,
        merge@.merged.len() == merge.merged@.len(),
        forall|k: int|
            0 <= k < merge.merged@.len() ==> #[trigger] merge@.merged[k] == merge.merged@[k]@,
        spelling_views(spellings).len() == spellings.len(),
        forall|i: int|
            0 <= i < spellings.len() ==> match spellings[i] {
                Some(spelling) => (#[trigger] spelling_views(spellings)[i]) == Some(spelling@),
                None => spelling_views(spellings)[i] is None,
            },
{
}

} // verus!
