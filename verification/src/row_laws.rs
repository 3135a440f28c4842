//! Which entries a tidy command makes one of, and what it makes of them, in
//! terms of its options, the selection and what the file system says of the
//! paths.

use vstd::prelude::*;
use vstd::utf8::encode_utf8;

use crate::cmd::Tidy;
use crate::db::total_rank;
use crate::dir::DirView;
use crate::fold::folded;
use crate::grouping::{entries_at, latest_access_is_kept, lemma_members, FileId};
use crate::grouping::survivor_is_the_first_of_the_highest;
use crate::merge::{kept_positions, lemma_kept_positions};
use crate::plan_laws::{is_removed, lemma_listed, new_path, planned};
use crate::probe::{ProbeView, StateView};
use crate::report::MergeView;
use crate::sort::lemma_sort_permutes;
use crate::survey::Survey;
use crate::text::{bytes_leq, text_leq};
use crate::tidy::{lemma_exact_parts, lemma_parts};
use crate::tidy_laws::{confirmed, entries_become_one_iff_they_belong_together};
use crate::tidy_laws::{every_entry_that_stays_has_a_row, lemma_first_live, lemma_spots};
use crate::tidy_laws::{reports_are_sorted, same_spot, spot_id, spot_selected};

verus! {

/// What a command is run on: the entries, which of them are selected, and what
/// the file system says of their paths.
pub struct Setting {
    pub tidy: Tidy,
    pub dirs: Seq<DirView>,
    pub selected: Seq<bool>,
    pub probes: Seq<Option<ProbeView>>,
}

impl Setting {
    pub open spec fn wf(self) -> bool {
        self.selected.len() == self.dirs.len() && self.probes.len() == self.dirs.len()
    }

    /// Whether an entry stays.
    pub open spec fn stays(self, i: int) -> bool {
        0 <= i < self.dirs.len() && !is_removed(self.tidy, self.selected, self.probes, i)
    }

    /// The path of an entry after normalizing.
    pub open spec fn path(self, i: int) -> Seq<char> {
        new_path(self.tidy, self.dirs, self.selected, self.probes, i)
    }

    /// Whether entries have one path after normalizing, which was not the path
    /// of all that have it.
    pub open spec fn met(self, i: int, j: int) -> bool {
        &&& self.stays(i)
        &&& self.stays(j)
        &&& self.path(i) == self.path(j)
        &&& exists|k: int|
            #[trigger] self.stays(k) && self.path(k) == self.path(i) && self.path(k)
                != self.dirs[k].path
    }

    /// Whether an entry, or one that it met, is selected.
    pub open spec fn is_chosen(self, i: int) -> bool {
        exists|k: int|
            #[trigger] self.stays(k) && (k == i || self.met(i, k)) && self.selected[k]
    }

    /// Whether an entry's path leads to this directory.
    pub open spec fn is_live(self, i: int, id: FileId) -> bool {
        self.probes[i] is Some && self.probes[i]->0.state == StateView::Live(id)
    }

    /// Whether the first of an entry and those that it met whose path leads to a
    /// directory leads to this one.
    pub open spec fn leads_to(self, i: int, id: FileId) -> bool {
        exists|k: int|
            #[trigger] self.stays(k) && (k == i || self.met(i, k)) && self.is_live(k, id) && (
            forall|m: int|
                0 <= m < k && #[trigger] self.stays(m) && (m == i || self.met(i, m))
                    ==> !(self.probes[m] is Some && self.probes[m]->0.state is Live))
    }

    /// Whether entries are spellings of one directory that are to be merged.
    pub open spec fn alike(self, i: int, j: int) -> bool {
        &&& self.tidy.dedupe || self.tidy.all
        &&& self.is_chosen(i)
        &&& self.is_chosen(j)
        &&& folded(self.path(i)) == folded(self.path(j))
        &&& self.tidy.assume_insensitive || exists|id: FileId|
            #[trigger] self.leads_to(i, id) && self.leads_to(j, id)
    }

    pub open spec fn survey(self) -> Survey {
        self.tidy.survey(self.dirs, self.selected, self.probes)
    }
}

proof fn lemma_basics(setting: Setting, i: int)
    requires
        setting.wf(),
        0 <= i < setting.dirs.len(),
    ensures
        setting.survey().pruned(i) == !setting.stays(i),
        setting.survey().path(i) == setting.path(i),
{
}

proof fn lemma_met(setting: Setting, i: int, j: int)
    requires
        setting.wf(),
        0 <= i < setting.dirs.len(),
        0 <= j < setting.dirs.len(),
    ensures
        same_spot(setting.survey(), i, j) <==> i == j || setting.met(i, j),
{
    let survey = setting.survey();
    lemma_basics(setting, i);
    lemma_basics(setting, j);
    if same_spot(survey, i, j) && i != j {
        let k = choose|k: int|
            0 <= k < survey.dirs.len() && !survey.pruned(k) && #[trigger] survey.normalized(k)
                && survey.path(k) == survey.path(i);
        lemma_basics(setting, k);
        assert(setting.stays(k));
    }
    if setting.met(i, j) {
        let k = choose|k: int|
            #[trigger] setting.stays(k) && setting.path(k) == setting.path(i) && setting.path(k)
                != setting.dirs[k].path;
        lemma_basics(setting, k);
        assert(survey.normalized(k));
    }
}

proof fn lemma_chosen(setting: Setting, i: int)
    requires
        setting.wf(),
        0 <= i < setting.dirs.len(),
    ensures
        spot_selected(setting.survey(), i) <==> setting.is_chosen(i),
{
    let survey = setting.survey();
    if spot_selected(survey, i) {
        let k = choose|k: int|
            0 <= k < survey.dirs.len() && !survey.pruned(k) && same_spot(survey, i, k)
                && #[trigger] survey.selected[k];
        lemma_basics(setting, k);
        lemma_met(setting, i, k);
        assert(setting.stays(k));
    }
    if setting.is_chosen(i) {
        let k = choose|k: int|
            #[trigger] setting.stays(k) && (k == i || setting.met(i, k)) && setting.selected[k];
        lemma_basics(setting, k);
        lemma_met(setting, i, k);
        assert(survey.selected[k]);
    }
}

proof fn lemma_leads(setting: Setting, i: int, id: FileId)
    requires
        setting.wf(),
        setting.stays(i),
    ensures
        spot_id(setting.survey(), i) == Some(id) <==> setting.leads_to(i, id),
{
    let survey = setting.survey();
    let e = survey.exact_parts()[i];
    let group = survey.exact_group(e);
    lemma_exact_parts(survey);
    lemma_members(survey.exact_parts(), survey.out(), e);
    lemma_first_live(survey, group);
    assert forall|x: int| 0 <= x < setting.dirs.len() implies (#[trigger] group.contains(x)
        <==> setting.stays(x) && (x == i || setting.met(i, x))) by {
        lemma_basics(setting, x);
        lemma_met(setting, i, x);
        lemma_spots(survey, i, x);
        if group.contains(x) {
            let at = group.index_of(x);
            assert(group[at] == x);
        }
        if setting.stays(x) && (x == i || setting.met(i, x)) {
            assert(survey.exact_parts()[x] == e);
        }
    }
    assert forall|x: int| #[trigger] group.contains(x) implies 0 <= x < setting.dirs.len() by {
        let at = group.index_of(x);
        assert(group[at] == x);
    }
    if spot_id(survey, i) == Some(id) {
        let k = survey.first_live(group)->0;
        let at = choose|at: int|
            0 <= at < group.len() && #[trigger] group[at] == k && (forall|m: int|
                0 <= m < at ==> survey.live_id(#[trigger] group[m]) is None);
        assert(setting.stays(k) && setting.is_live(k, id));
        assert forall|m: int|
            0 <= m < k && #[trigger] setting.stays(m) && (m == i || setting.met(i, m)) implies !(
        setting.probes[m] is Some && setting.probes[m]->0.state is Live) by {
            assert(group.contains(m));
            let b = group.index_of(m);
            if b > at {
                assert(group[at] < group[b]);
            }
            assert(survey.live_id(group[b]) is None);
        }
    }
    if setting.leads_to(i, id) {
        let k = choose|k: int|
            #[trigger] setting.stays(k) && (k == i || setting.met(i, k)) && setting.is_live(k, id)
                && (forall|m: int|
                0 <= m < k && #[trigger] setting.stays(m) && (m == i || setting.met(i, m)) ==> !(
                setting.probes[m] is Some && setting.probes[m]->0.state is Live));
        assert(group.contains(k));
        let b = group.index_of(k);
        assert(survey.live_id(group[b]) is Some);
        let f = survey.first_live(group)->0;
        let at = choose|at: int|
            0 <= at < group.len() && #[trigger] group[at] == f && (forall|m: int|
                0 <= m < at ==> survey.live_id(#[trigger] group[m]) is None);
        assert(setting.stays(f));
        if f < k {
            assert(setting.probes[f] is Some && setting.probes[f]->0.state is Live);
        }
        if at > b {
            assert(survey.live_id(group[b]) is None);
        } else if at < b {
            assert(group[at] < group[b]);
        }
        assert(f == k);
    }
}

/// Two entries that stay become one exactly if they met by normalizing, or are
/// spellings of one directory that are to be merged.
proof fn lemma_alike(setting: Setting, i: int, j: int)
    requires
        setting.wf(),
        setting.stays(i),
        setting.stays(j),
    ensures
        setting.survey().parts()[i] == setting.survey().parts()[j] <==> i == j || setting.met(i, j)
            || setting.alike(i, j),
{
    let survey = setting.survey();
    entries_become_one_iff_they_belong_together(survey, i, j);
    lemma_basics(setting, i);
    lemma_basics(setting, j);
    lemma_met(setting, i, j);
    lemma_chosen(setting, i);
    lemma_chosen(setting, j);
    if confirmed(survey, i, j) && !setting.tidy.assume_insensitive {
        let id = spot_id(survey, i)->0;
        lemma_leads(setting, i, id);
        lemma_leads(setting, j, id);
    }
    if setting.alike(i, j) && !setting.tidy.assume_insensitive {
        let id = choose|id: FileId| #[trigger] setting.leads_to(i, id) && setting.leads_to(j, id);
        lemma_leads(setting, i, id);
        lemma_leads(setting, j, id);
    }
}

/// What the rows of a plan are made of: the members of each, and the one that
/// the row stands in the place of.
pub struct Makeup {
    pub members: Seq<Seq<int>>,
    pub heads: Seq<int>,
}

/// Whether each entry that stays is in one row, with exactly those that it
/// belongs together with, and no other entry is in any.
pub open spec fn gathers(setting: Setting, makeup: Makeup) -> bool {
    let members = makeup.members;
    &&& makeup.heads.len() == members.len()
    &&& forall|a: int, k: int|
        0 <= a < members.len() && 0 <= k < members[a].len() ==> setting.stays(
            #[trigger] members[a][k],
        )
    &&& forall|a: int, k: int, m: int|
        0 <= a < members.len() && 0 <= k < m < members[a].len() ==> #[trigger] members[a][k]
            < #[trigger] members[a][m]
    &&& forall|i: int| #[trigger]
        setting.stays(i) ==> exists|a: int|
            0 <= a < members.len() && (#[trigger] members[a]).contains(i)
    &&& forall|a: int, i: int, j: int|
        0 <= a < members.len() && members[a].contains(i) && setting.stays(j) ==> (
        #[trigger] members[a].contains(j) <==> i == j || #[trigger] setting.met(i, j)
            || setting.alike(i, j))
    &&& forall|a: int, b: int, i: int|
        0 <= a < members.len() && 0 <= b < members.len() && #[trigger] members[a].contains(i)
            && #[trigger] members[b].contains(i) ==> a == b
    &&& forall|a: int|
        0 <= a < members.len() ==> (#[trigger] members[a]).contains(makeup.heads[a])
    &&& forall|a: int, b: int|
        0 <= a < b < members.len() ==> #[trigger] makeup.heads[a] < #[trigger] makeup.heads[b]
}

/// Whether a row has the rank and the access of its members: the ranks are added
/// up in their order, and the latest access stays.
pub open spec fn adds_up(setting: Setting, row: DirView, members: Seq<int>) -> bool {
    &&& row.rank == total_rank(members.map_values(|i: int| setting.dirs[i]))
    &&& forall|k: int|
        0 <= k < members.len() ==> setting.dirs[#[trigger] members[k]].last_accessed
            <= row.last_accessed
    &&& exists|k: int|
        0 <= k < members.len() && setting.dirs[#[trigger] members[k]].last_accessed
            == row.last_accessed
}

/// Whether the head is the first of the members with the highest rank.
pub open spec fn is_first_of_highest(setting: Setting, members: Seq<int>, head: int) -> bool {
    &&& forall|k: int|
        0 <= k < members.len() ==> setting.dirs[#[trigger] members[k]].rank.value()
            <= setting.dirs[head].rank.value()
    &&& forall|k: int|
        0 <= k < members.len() && #[trigger] members[k] < head
            ==> setting.dirs[members[k]].rank.value() < setting.dirs[head].rank.value()
}

/// Whether a row has the path that its members are to have: the path of the head
/// after normalizing; but where several were merged because the file system says
/// that they are one, its spelling on disk of the head's path, or else of the
/// first member's path that leads to a directory.
pub open spec fn is_path_of(
    setting: Setting,
    path: Seq<char>,
    members: Seq<int>,
    head: int,
) -> bool {
    if (setting.tidy.dedupe || setting.tidy.all) && !setting.tidy.assume_insensitive
        && members.len() > 1 {
        let live = |i: int| setting.probes[i] is Some && setting.probes[i]->0.state is Live;
        if live(head) {
            path == setting.probes[head]->0.spelling
        } else {
            ||| exists|k: int|
                0 <= k < members.len() && live(#[trigger] members[k]) && path
                    == setting.probes[members[k]]->0.spelling && (forall|m: int|
                    0 <= m < k ==> !live(#[trigger] members[m]))
            ||| path == setting.path(head) && (forall|m: int|
                0 <= m < members.len() ==> !live(#[trigger] members[m]))
        }
    } else {
        path == setting.path(head)
    }
}

proof fn lemma_row(setting: Setting, a: int)
    requires
        setting.wf(),
        0 <= a < setting.survey().survivors().len(),
    ensures
        ({
            let survey = setting.survey();
            let head = survey.survivors()[a];
            let members = survey.group(survey.parts()[head]);
            let row = survey.rows()[a];
            &&& members.contains(head)
            &&& setting.stays(head)
            &&& head == survey.survivor(survey.parts()[head])
            &&& row.path == survey.group_path(survey.parts()[head])
            &&& adds_up(setting, row, members)
            &&& is_path_of(setting, row.path, members, head)
            &&& (forall|k: int|
                0 <= k < members.len() ==> !setting.dirs[#[trigger] members[k]].rank.is_nan())
                ==> is_first_of_highest(setting, members, head)
        }),
{
    let survey = setting.survey();
    let head = survey.survivors()[a];
    let r = survey.parts()[head];
    let members = survey.group(r);
    let row = survey.rows()[a];
    lemma_parts(survey);
    lemma_kept_positions(survey.dirs.len(), survey.gone());
    assert(!survey.gone()(head));
    lemma_members(survey.parts(), survey.out(), r);
    assert(members.contains(head));
    assert(row == survey.row(r));
    let entries = entries_at(survey.dirs, members);
    assert(entries =~= members.map_values(|i: int| setting.dirs[i]));
    let place = latest_access_is_kept(entries);
    assert(setting.dirs[members[place]].last_accessed == row.last_accessed);
    assert forall|k: int| 0 <= k < members.len() implies setting.dirs[
        #[trigger] members[k]
    ].last_accessed <= row.last_accessed by {
        assert(entries[k] == setting.dirs[members[k]]);
    }
    lemma_first_live(survey, members);
    lemma_basics(setting, head);
    let live = |i: int| setting.probes[i] is Some && setting.probes[i]->0.state is Live;
    if survey.dedupe && !survey.assume_insensitive && members.len() > 1 && !live(head) {
        match survey.first_live(members) {
            Some(i) => {
                let k = choose|k: int|
                    0 <= k < members.len() && #[trigger] members[k] == i && (forall|m: int|
                        0 <= m < k ==> survey.live_id(#[trigger] members[m]) is None);
                assert(live(members[k]));
                assert forall|m: int| 0 <= m < k implies !live(#[trigger] members[m]) by {
                    assert(survey.live_id(members[m]) is None);
                }
            },
            None => {
                assert forall|m: int| 0 <= m < members.len() implies !live(
                    #[trigger] members[m],
                ) by {
                    assert(survey.live_id(members[m]) is None);
                }
            },
        }
    }
    if forall|k: int|
        0 <= k < members.len() ==> !setting.dirs[#[trigger] members[k]].rank.is_nan() {
        let at = survivor_is_the_first_of_the_highest(survey.dirs, members);
        assert(members[at] == head);
        assert forall|k: int| 0 <= k < members.len() && #[trigger] members[k] < head implies
            setting.dirs[members[k]].rank.value() < setting.dirs[head].rank.value() by {
            if k > at {
                assert(members[at] < members[k]);
            }
        }
        assert forall|k: int| 0 <= k < members.len() implies setting.dirs[
            #[trigger] members[k]
        ].rank.value() <= setting.dirs[head].rank.value() by {
            assert(!setting.dirs[members[k]].rank.greater(setting.dirs[head].rank));
            assert(!setting.dirs[members[at]].rank.is_nan());
        }
    }
}

/// The makeup of the rows of a plan.
pub open spec fn makeup_of(setting: Setting) -> Makeup {
    let survey = setting.survey();
    Makeup {
        members: survey.survivors().map_values(|i: int| survey.group(survey.parts()[i])),
        heads: survey.survivors(),
    }
}

/// Tidying leaves one row for each set of entries that stay and belong together.
/// The row has their summed rank, their latest access and the path that they are
/// to have, and stands in the place of the first of those with the highest rank.
#[verifier::rlimit(40)]
pub proof fn rows_gather_what_belongs_together(setting: Setting) -> (makeup: Makeup)
    requires
        setting.wf(),
    ensures
        makeup == makeup_of(setting),
        gathers(setting, makeup),
        ({
            let rows = planned(
                setting.tidy,
                setting.dirs,
                setting.selected,
                setting.probes,
            ).rows;
            &&& rows.len() == makeup.members.len()
            &&& forall|a: int|
                0 <= a < rows.len() ==> adds_up(
                    setting,
                    #[trigger] rows[a],
                    makeup.members[a],
                ) && is_path_of(setting, rows[a].path, makeup.members[a], makeup.heads[a])
        }),
        (forall|i: int|
            0 <= i < setting.dirs.len() ==> !(#[trigger] setting.dirs[i]).rank.is_nan())
            ==> forall|a: int|
            0 <= a < makeup.members.len() ==> is_first_of_highest(
                setting,
                #[trigger] makeup.members[a],
                makeup.heads[a],
            ),
{
    let survey = setting.survey();
    let makeup = makeup_of(setting);
    let members = makeup.members;
    let heads = makeup.heads;
    lemma_parts(survey);
    lemma_kept_positions(survey.dirs.len(), survey.gone());
    assert forall|a: int, i: int| 0 <= a < members.len() implies (#[trigger] members[a].contains(i)
        <==> setting.stays(i) && survey.parts()[i] == survey.parts()[heads[a]]) by {
        lemma_members(survey.parts(), survey.out(), survey.parts()[heads[a]]);
        if members[a].contains(i) {
            let at = members[a].index_of(i);
            assert(members[a][at] == i);
            lemma_basics(setting, i);
        }
        if setting.stays(i) && survey.parts()[i] == survey.parts()[heads[a]] {
            lemma_basics(setting, i);
        }
    }
    assert forall|a: int, k: int| 0 <= a < members.len() && 0 <= k < members[a].len() implies
        setting.stays(#[trigger] members[a][k]) by {
        assert(members[a].contains(members[a][k]));
    }
    assert forall|a: int, k: int, m: int|
        0 <= a < members.len() && 0 <= k < m < members[a].len() implies #[trigger] members[a][k]
        < #[trigger] members[a][m] by {
        lemma_members(survey.parts(), survey.out(), survey.parts()[heads[a]]);
    }
    assert forall|i: int| #[trigger] setting.stays(i) implies exists|a: int|
        0 <= a < members.len() && (#[trigger] members[a]).contains(i) by {
        lemma_basics(setting, i);
        every_entry_that_stays_has_a_row(survey, i);
        let a = choose|a: int|
            0 <= a < survey.rows().len() && survey.parts()[#[trigger] survey.survivors()[a]]
                == survey.parts()[i] && survey.rows()[a] == survey.row(survey.parts()[i]);
        assert(heads[a] == survey.survivors()[a]);
        assert(members[a].contains(i));
    }
    assert forall|a: int, i: int, j: int|
        0 <= a < members.len() && members[a].contains(i) && setting.stays(j) implies (
    #[trigger] members[a].contains(j) <==> i == j || #[trigger] setting.met(i, j)
        || setting.alike(i, j)) by {
        lemma_alike(setting, i, j);
    }
    assert forall|a: int, b: int, i: int|
        0 <= a < members.len() && 0 <= b < members.len() && #[trigger] members[a].contains(i)
            && #[trigger] members[b].contains(i) implies a == b by {
        lemma_basics(setting, i);
        every_entry_that_stays_has_a_row(survey, i);
        assert(survey.parts()[survey.survivors()[a]] == survey.parts()[survey.survivors()[b]]);
    }
    assert forall|a: int| 0 <= a < members.len() implies (#[trigger] members[a]).contains(
        heads[a],
    ) by {
        lemma_row(setting, a);
    }
    let rows = planned(setting.tidy, setting.dirs, setting.selected, setting.probes).rows;
    assert(rows == survey.rows());
    assert forall|a: int| 0 <= a < rows.len() implies adds_up(
        setting,
        #[trigger] rows[a],
        members[a],
    ) && is_path_of(setting, rows[a].path, members[a], heads[a]) by {
        lemma_row(setting, a);
    }
    if forall|i: int|
        0 <= i < setting.dirs.len() ==> !(#[trigger] setting.dirs[i]).rank.is_nan() {
        assert forall|a: int| 0 <= a < members.len() implies is_first_of_highest(
            setting,
            #[trigger] members[a],
            heads[a],
        ) by {
            lemma_row(setting, a);
        }
    }
    makeup
}

/// Whether a report tells of a row: its path, how many entries it is made of,
/// and their other spellings in order.
pub open spec fn tells_of(
    setting: Setting,
    report: MergeView,
    row: DirView,
    members: Seq<int>,
) -> bool {
    &&& report.path == row.path
    &&& report.entries == members.len()
    &&& report.merged.to_multiset() == members.map_values(
        |i: int| setting.dirs[i].path,
    ).filter(|path: Seq<char>| path != row.path).to_multiset()
    &&& forall|a: int, b: int|
        0 <= a < b < report.merged.len() ==> bytes_leq(
            encode_utf8(#[trigger] report.merged[a]),
            encode_utf8(#[trigger] report.merged[b]),
        )
}

/// Whether a report tells of a row that is made of more than one entry.
pub open spec fn tells_of_some_row(setting: Setting, report: MergeView) -> bool {
    let members = makeup_of(setting).members;
    let plan = planned(setting.tidy, setting.dirs, setting.selected, setting.probes);
    exists|a: int|
        0 <= a < members.len() && (#[trigger] members[a]).len() > 1 && tells_of(
            setting,
            report,
            plan.rows[a],
            members[a],
        )
}

/// Whether a row is made of no more than one entry, as a function value.
pub open spec fn is_lone(setting: Setting) -> spec_fn(int) -> bool {
    |a: int| makeup_of(setting).members[a].len() <= 1
}

proof fn lemma_tells(setting: Setting, a: int)
    requires
        setting.wf(),
        0 <= a < setting.survey().survivors().len(),
    ensures
        ({
            let survey = setting.survey();
            let r = survey.parts()[survey.survivors()[a]];
            tells_of(setting, survey.merge(r), survey.rows()[a], survey.group(r))
        }),
{
    let survey = setting.survey();
    let r = survey.parts()[survey.survivors()[a]];
    let members = survey.group(r);
    let row = survey.rows()[a];
    lemma_row(setting, a);
    let by_text = |a: Seq<char>, b: Seq<char>| text_leq(a, b);
    let differs = |path: Seq<char>| path != survey.group_path(r);
    let paths = entries_at(survey.dirs, members).map_values(|dir: DirView| dir.path);
    assert(paths =~= members.map_values(|i: int| setting.dirs[i].path));
    assert(differs =~= |path: Seq<char>| path != row.path);
    crate::text::lemma_text_leq_order();
    assert(crate::sort::total_preorder(by_text)) by {
        assert forall|a: Seq<char>, b: Seq<char>| #[trigger] by_text(a, b) || by_text(b, a) by {
            assert(text_leq(a, b) || text_leq(b, a));
        }
    }
    lemma_sort_permutes(paths.filter(differs), by_text);
    crate::sort::lemma_sort_ascending(paths.filter(differs), by_text);
}

/// Every row that is made of more than one entry is reported as merged, and
/// nothing else is. The reports are in the order of their paths' bytes.
#[verifier::rlimit(40)]
pub proof fn rows_of_several_entries_are_reported(setting: Setting)
    requires
        setting.wf(),
    ensures
        ({
            let plan = planned(
                setting.tidy,
                setting.dirs,
                setting.selected,
                setting.probes,
            );
            let members = makeup_of(setting).members;
            &&& forall|a: int|
                0 <= a < members.len() && (#[trigger] members[a]).len() > 1 ==> exists|m: int|
                    0 <= m < plan.merges.len() && tells_of(
                        setting,
                        #[trigger] plan.merges[m],
                        plan.rows[a],
                        members[a],
                    )
            &&& forall|m: int|
                0 <= m < plan.merges.len() ==> tells_of_some_row(setting, #[trigger] plan.merges[m])
            &&& plan.merges.len() == kept_positions(members.len(), is_lone(setting)).len()
            &&& forall|m: int, l: int|
                0 <= m < l < plan.merges.len() ==> bytes_leq(
                    encode_utf8((#[trigger] plan.merges[m]).path),
                    encode_utf8((#[trigger] plan.merges[l]).path),
                )
        }),
{
    let survey = setting.survey();
    let plan = planned(setting.tidy, setting.dirs, setting.selected, setting.probes);
    let makeup = makeup_of(setting);
    let members = makeup.members;
    let heads = makeup.heads;
    let gone = survey.not_merged();
    let told = |r: int| survey.merge(r);
    let n = setting.dirs.len();
    reports_are_sorted(survey);
    lemma_listed(n, gone, told, |a: MergeView, b: MergeView| text_leq(a.path, b.path));
    lemma_parts(survey);
    lemma_kept_positions(survey.dirs.len(), survey.gone());
    assert forall|a: int| 0 <= a < members.len() && (#[trigger] members[a]).len() > 1 implies exists|
        m: int,
    |
        0 <= m < plan.merges.len() && tells_of(
            setting,
            #[trigger] plan.merges[m],
            plan.rows[a],
            members[a],
        ) by {
        let r = survey.parts()[heads[a]];
        lemma_tells(setting, a);
        assert(!gone(r));
        let m = plan.merges.index_of(told(r));
        assert(plan.merges.contains(told(r)));
        assert(plan.merges[m] == survey.merge(r));
    }
    assert forall|m: int| 0 <= m < plan.merges.len() implies tells_of_some_row(
        setting,
        #[trigger] plan.merges[m],
    ) by {
        let r = choose|r: int|
            0 <= r < n && !(#[trigger] gone(r)) && told(r) == plan.merges[m];
        let a = lemma_row_of(setting, r);
        lemma_tells(setting, a);
        assert(members[a] == survey.group(r));
    }
    lemma_report_count(setting);
}

/// The row of a group, by the first entry of the group.
proof fn lemma_row_of(setting: Setting, r: int) -> (a: int)
    requires
        setting.wf(),
        0 <= r < setting.dirs.len(),
        setting.survey().group(r).len() > 0,
    ensures
        0 <= a < setting.survey().survivors().len(),
        setting.survey().parts()[setting.survey().survivors()[a]] == r,
{
    let survey = setting.survey();
    let i = survey.group(r)[0];
    lemma_members(survey.parts(), survey.out(), r);
    every_entry_that_stays_has_a_row(survey, i);
    choose|a: int|
        0 <= a < survey.rows().len() && survey.parts()[#[trigger] survey.survivors()[a]]
            == survey.parts()[i] && survey.rows()[a] == survey.row(survey.parts()[i])
}

/// There are as many reports of merges as rows of several entries.
proof fn lemma_report_count(setting: Setting)
    requires
        setting.wf(),
    ensures
        setting.survey().merges().len() == kept_positions(
            makeup_of(setting).members.len(),
            is_lone(setting),
        ).len(),
{
    let survey = setting.survey();
    let members = makeup_of(setting).members;
    let heads = makeup_of(setting).heads;
    let n = setting.dirs.len();
    let lone = is_lone(setting);
    let groups = kept_positions(n, survey.not_merged());
    let rows = kept_positions(members.len(), lone);
    lemma_listed(
        n,
        survey.not_merged(),
        |r: int| survey.merge(r),
        |a: MergeView, b: MergeView| text_leq(a.path, b.path),
    );
    lemma_parts(survey);
    lemma_kept_positions(n, survey.not_merged());
    lemma_kept_positions(members.len(), lone);
    lemma_kept_positions(n, survey.gone());
    // Each row of several entries has its own group, and each such group its own row.
    let to_group = |a: int| survey.parts()[heads[a]];
    assert forall|a: int, b: int|
        0 <= a < heads.len() && 0 <= b < heads.len() && #[trigger] to_group(a)
            == #[trigger] to_group(b) implies a == b by {
        assert(!survey.gone()(heads[a]));
        assert(!survey.gone()(heads[b]));
        assert(heads[a] == heads[b]);
        if a < b {
            assert(heads[a] < heads[b]);
        } else if b < a {
            assert(heads[b] < heads[a]);
        }
    }
    let images = rows.map_values(to_group);
    assert(images.no_duplicates()) by {
        assert forall|x: int, y: int|
            0 <= x < images.len() && 0 <= y < images.len() && x != y implies images[x]
            != images[y] by {
            if images[x] == images[y] {
                assert(to_group(rows[x]) == to_group(rows[y]));
                if x < y {
                    assert(rows[x] < rows[y]);
                } else {
                    assert(rows[y] < rows[x]);
                }
            }
        }
    }
    assert(groups.no_duplicates()) by {
        assert forall|x: int, y: int|
            0 <= x < groups.len() && 0 <= y < groups.len() && x != y implies groups[x]
            != groups[y] by {
            if x < y {
                assert(groups[x] < groups[y]);
            } else {
                assert(groups[y] < groups[x]);
            }
        }
    }
    images.unique_seq_to_set();
    groups.unique_seq_to_set();
    assert(images.to_set() =~= groups.to_set()) by {
        assert forall|r: int| #[trigger] images.contains(r) implies groups.contains(r) by {
            let x = images.index_of(r);
            let a = rows[x];
            assert(images[x] == r);
            assert(!lone(a));
            assert(members[a] == survey.group(r));
            assert(0 <= heads[a] < n);
            assert(0 <= r < n);
            assert(!survey.not_merged()(r));
        }
        assert forall|r: int| #[trigger] groups.contains(r) implies images.contains(r) by {
            let y = groups.index_of(r);
            assert(groups[y] == r);
            assert(!survey.not_merged()(r));
            let a = lemma_row_of(setting, r);
            assert(members[a] == survey.group(r));
            assert(!lone(a));
            assert(rows.contains(a));
            let x = rows.index_of(a);
            assert(images[x] == r);
        }
    }
}

} // verus!
