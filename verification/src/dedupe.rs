//! Merging entries that refer to the same directory.

use vstd::prelude::*;

use crate::census::{fusion_groups, fusion_reports, lemma_census_parts};
use crate::census::{lemma_fusions_valid, other_than, respelled, sound, Census, FusionView};
use crate::cmd::Dedupe;
use crate::db::{Database, DatabaseView};
use crate::dir::{Dir, DirView};
use crate::fold::fold_key;
use crate::globs::{is_refusal, is_selection, select, InvalidGlob};
use crate::grouping::{collect_groups, entries_at, has_twin, key_views, lemma_members, positions};
use crate::grouping::{top_member, union_by_key, with_twin, within, FileId, Key, UnionFind};
use crate::merge::{groups_of, kept_positions, nothing_to_merge};
use crate::report::{append_counted, append_merge, counted, merge_lines, total_entries, MergeView};
use crate::sort::{leq_of, sort, views, Ordered};
use crate::text::{append_decimal, decimal, lemma_text_leq_order, same_text, text_leq};
use crate::text::text_not_after;

verus! {

/// Entries that become one: the survivor, those that go away, and what is
/// reported of them.
#[derive(Debug)]
pub struct Merge {
    pub survivor_idx: usize,
    pub victim_idxs: Vec<usize>,
    /// The spelling the merged entry will have.
    pub path: String,
    /// The spellings that will disappear from the database.
    pub merged: Vec<String>,
}

impl View for Merge {
    type V = FusionView;

    open spec fn view(&self) -> FusionView {
        FusionView {
            survivor: self.survivor_idx as int,
            victims: positions(self.victim_idxs@),
            path: self.path@,
            merged: views(self.merged@),
        }
    }
}

/// Merges are sorted by path.
impl Ordered for Merge {
    open spec fn leq(a: FusionView, b: FusionView) -> bool {
        text_leq(a.path, b.path)
    }

    proof fn leq_is_total_preorder() {
        lemma_text_leq_order();
        assert forall|a: FusionView, b: FusionView| #[trigger]
            Self::leq(a, b) || Self::leq(b, a) by {
            assert(text_leq(a.path, b.path) || text_leq(b.path, a.path));
        }
    }

    fn not_after(&self, other: &Self) -> (leq: bool) {
        text_not_after(self.path.as_str(), other.path.as_str())
    }
}

/// What spellings say, where there are any.
pub open spec fn spelling_views(spellings: Seq<Option<String>>) -> Seq<Option<Seq<char>>> {
    spellings.map_values(
        |spelling: Option<String>|
            match spelling {
                Some(spelling) => Some(spelling@),
                None => None::<Seq<char>>,
            },
    )
}

/// What is reported of merges: each of them, and the totals.
pub open spec fn dedupe_report(merges: Seq<MergeView>, dry_run: bool) -> Seq<char> {
    let verb = if dry_run {
        "would merge"@
    } else {
        "merged"@
    };
    if merges.len() == 0 {
        "no duplicate entries found\n"@
    } else {
        merge_lines(verb, merges) + verb + " "@ + decimal(total_entries(merges))
            + " entries into "@ + counted(merges.len(), "directory"@, "directories"@) + "\n"@
    }
}

/// What the merges are found from.
struct Work<'a> {
    dirs: &'a [Dir],
    selected: &'a Vec<bool>,
    ids: &'a Vec<Option<FileId>>,
    spellings: &'a Vec<Option<String>>,
    assume_insensitive: bool,
}

impl<'a> View for Work<'a> {
    type V = Census;

    closed spec fn view(&self) -> Census {
        Census {
            dirs: views(self.dirs@),
            selected: self.selected@,
            ids: self.ids@,
            spellings: spelling_views(self.spellings@),
            assume_insensitive: self.assume_insensitive,
        }
    }
}

impl<'a> Work<'a> {
    /// The keys of the entries.
    fn keys(&self) -> (keys: Vec<Option<Key>>)
        requires
            self@.wf(),
        ensures
            key_views(keys@) == self@.keys(),
    {
        let n = self.dirs.len();
        let mut keys: Vec<Option<Key>> = Vec::new();
        let mut i: usize = 0;
        while i < n
            invariant
                self@.wf(),
                i <= n == self@.dirs.len(),
                keys@.len() == i,
                key_views(keys@) == self@.keys().take(i as int),
            decreases n - i,
        {
            let ghost before = keys@;
            assert(self@.dirs[i as int].path == self.dirs@[i as int].path@);
            if self.selected[i] && self.assume_insensitive {
                keys.push(Some(Key { text: fold_key(self.dirs[i].path.as_str()), id: None }));
            } else if self.selected[i] && self.ids[i].is_some() {
                keys.push(
                    Some(Key { text: fold_key(self.dirs[i].path.as_str()), id: self.ids[i] }),
                );
            } else {
                keys.push(None);
            }
            proof {
                let all = self@.keys();
                assert(all.take(i + 1) =~= all.take(i as int).push(all[i as int]));
                assert(key_views(keys@) =~= key_views(before).push(all[i as int]));
            }
            i += 1;
        }
        assert(self@.keys().take(n as int) =~= self@.keys());
        keys
    }

    /// The groups of entries that become one, indexed by their first entry.
    fn groups(&self) -> (groups: Vec<Vec<usize>>)
        requires
            self@.wf(),
        ensures
            groups@.len() == self@.dirs.len(),
            forall|r: int|
                0 <= r < groups@.len() ==> positions((#[trigger] groups@[r])@) == self@.group(r),
            forall|r: int|
                0 <= r < groups@.len() ==> within(
                    (#[trigger] groups@[r])@,
                    self@.dirs.len() as int,
                ),
    {
        let n = self.dirs.len();
        let mut unions = UnionFind::new(n);
        let keys = self.keys();
        assert(key_views(keys@).len() == keys@.len());
        union_by_key(&mut unions, &keys);
        assert(unions@ == self@.parts());
        let mut out: Vec<bool> = Vec::new();
        while out.len() < n
            invariant
                out@.len() <= n,
                forall|i: int| 0 <= i < out@.len() ==> !(#[trigger] out@[i]),
            decreases n - out.len(),
        {
            out.push(false);
        }
        proof {
            lemma_census_parts(self@);
            assert(out@ =~= Seq::new(self@.dirs.len(), |i: int| false));
        }
        let groups = collect_groups(&mut unions, &out);
        assert forall|r: int| 0 <= r < groups@.len() implies within(
            (#[trigger] groups@[r])@,
            self@.dirs.len() as int,
        ) by {
            lemma_members(self@.parts(), out@, r);
            let group = groups@[r]@;
            assert forall|k: int| 0 <= k < group.len() implies #[trigger] group[k]
                < self@.dirs.len() by {
                assert(positions(group)[k] == group[k]);
            }
        }
        groups
    }

    /// The entries of a group that go away.
    fn victims(&self, r: usize, group: &Vec<usize>, survivor: usize) -> (victims: Vec<usize>)
        requires
            self@.wf(),
            positions(group@) == self@.group(r as int),
            survivor == self@.survivor(r as int),
        ensures
            positions(victims@) == self@.victims(r as int),
    {
        let ghost all = self@.group(r as int);
        let ghost stays = other_than(survivor as int);
        let mut victims: Vec<usize> = Vec::new();
        let mut k: usize = 0;
        proof {
            broadcast use Seq::lemma_filter_len;

            assert(positions(group@).len() == group@.len());
            assert(all.take(0) =~= Seq::empty());
            assert(all.take(0).filter(stays).len() == 0);
            assert(positions(victims@) =~= all.take(0).filter(stays));
        }
        while k < group.len()
            invariant
                k <= group@.len() == all.len(),
                positions(group@) == all,
                stays == other_than(survivor as int),
                positions(victims@) == all.take(k as int).filter(stays),
            decreases group.len() - k,
        {
            let ghost before = victims@;
            let idx = group[k];
            proof {
                assert(positions(group@)[k as int] == idx);
                assert(all.take(k + 1) =~= all.take(k as int).push(all[k as int]));
                all.take(k as int).lemma_filter_push(all[k as int], stays);
            }
            if idx != survivor {
                victims.push(idx);
                assert(positions(victims@) =~= positions(before).push(all[k as int]));
            }
            k += 1;
        }
        assert(all.take(k as int) =~= all);
        victims
    }

    /// The spellings of a group that go away, sorted.
    fn merged(&self, r: usize, group: &Vec<usize>, path: &str) -> (merged: Vec<String>)
        requires
            self@.wf(),
            positions(group@) == self@.group(r as int),
            within(group@, self@.dirs.len() as int),
            path@ == self@.path(r as int),
        ensures
            views(merged@) == self@.merged(r as int),
    {
        let ghost all = entries_at(self@.dirs, self@.group(r as int)).map_values(
            |dir: DirView| dir.path,
        );
        let ghost differs = |path: Seq<char>| path != self@.path(r as int);
        let mut merged: Vec<String> = Vec::new();
        let mut k: usize = 0;
        proof {
            broadcast use Seq::lemma_filter_len;

            assert(positions(group@).len() == group@.len());
            assert(all.take(0) =~= Seq::empty());
            assert(all.take(0).filter(differs).len() == 0);
            assert(views(merged@) =~= all.take(0).filter(differs));
        }
        while k < group.len()
            invariant
                self@.wf(),
                k <= group@.len() == all.len(),
                positions(group@) == self@.group(r as int),
                within(group@, self@.dirs.len() as int),
                path@ == self@.path(r as int),
                all == entries_at(self@.dirs, self@.group(r as int)).map_values(
                    |dir: DirView| dir.path,
                ),
                differs == |path: Seq<char>| path != self@.path(r as int),
                views(merged@) == all.take(k as int).filter(differs),
            decreases group.len() - k,
        {
            let ghost before = merged@;
            let idx = group[k];
            proof {
                assert(positions(group@)[k as int] == idx);
                assert(self@.dirs[idx as int].path == self.dirs@[idx as int].path@);
                assert(all[k as int] == self.dirs@[idx as int].path@);
                assert(all.take(k + 1) =~= all.take(k as int).push(all[k as int]));
                all.take(k as int).lemma_filter_push(all[k as int], differs);
            }
            if !same_text(self.dirs[idx].path.as_str(), path) {
                merged.push(self.dirs[idx].path.as_str().to_owned());
                assert(views(merged@) =~= views(before).push(all[k as int]));
            }
            k += 1;
        }
        assert(all.take(k as int) =~= all);
        assert(leq_of::<String>() =~= (|a: Seq<char>, b: Seq<char>| text_leq(a, b)));
        sort(merged)
    }

    /// What becomes of the groups of more than one entry, sorted by path.
    fn merges(&self) -> (merges: Vec<Merge>)
        requires
            self@.wf(),
        ensures
            views(merges@) == self@.fusions(),
    {
        let n = self.dirs.len();
        let groups = self.groups();
        let ghost skip = self@.alone();
        let ghost told = |r: int| self@.fusion(r);
        let mut merges: Vec<Merge> = Vec::new();
        let mut r: usize = 0;
        assert(views(merges@) =~= kept_positions(0, skip).map_values(told));
        while r < n
            invariant
                self@.wf(),
                r <= n == self@.dirs.len() == groups@.len(),
                forall|r: int|
                    0 <= r < groups@.len() ==> positions((#[trigger] groups@[r])@) == self@.group(
                        r,
                    ),
                forall|r: int|
                    0 <= r < groups@.len() ==> within(
                        (#[trigger] groups@[r])@,
                        self@.dirs.len() as int,
                    ),
                skip == self@.alone(),
                told == |r: int| self@.fusion(r),
                views(merges@) == kept_positions(r as nat, skip).map_values(told),
            decreases n - r,
        {
            let ghost before = merges@;
            let group = &groups[r];
            assert(positions(group@) == self@.group(r as int));
            assert(positions(group@).len() == group@.len());
            if group.len() > 1 {
                // The highest-ranked member survives. Its spelling is the
                // fallback where the one on disk is not known.
                let survivor_idx = top_member(self.dirs, group);
                assert(self@.dirs[survivor_idx as int].path
                    == self.dirs@[survivor_idx as int].path@);
                let mut path: &str = self.dirs[survivor_idx].path.as_str();
                if !self.assume_insensitive {
                    match &self.spellings[survivor_idx] {
                        Some(spelling) => {
                            assert(self@.spellings[survivor_idx as int] == Some(spelling@));
                            path = spelling.as_str();
                        },
                        None => {
                            assert(self@.spellings[survivor_idx as int] is None);
                        },
                    }
                }
                assert(path@ == self@.path(r as int));
                let victim_idxs = self.victims(r, group, survivor_idx);
                let merged = self.merged(r, group, path);
                merges.push(Merge { survivor_idx, victim_idxs, path: path.to_owned(), merged });
                assert(views(merges@) =~= views(before).push(told(r as int)));
            }
            assert(views(merges@) =~= kept_positions((r + 1) as nat, skip).map_values(told));
            r += 1;
        }
        assert(leq_of::<Merge>() =~= (|a: FusionView, b: FusionView| text_leq(a.path, b.path)));
        sort(merges)
    }
}

impl Dedupe {
    /// The entries with what is known of their paths.
    pub open spec fn census(
        self,
        dirs: Seq<DirView>,
        selected: Seq<bool>,
        ids: Seq<Option<FileId>>,
        spellings: Seq<Option<Seq<char>>>,
    ) -> Census {
        Census {
            dirs,
            selected,
            ids,
            spellings,
            assume_insensitive: self.assume_insensitive,
        }
    }

    /// Which entries the globs select.
    pub fn select(&self, db: &Database) -> (selection: Result<Vec<bool>, InvalidGlob>)
        ensures
            match selection {
                Ok(selected) => is_selection(views(self.pathglobs@), db@.dirs, selected@),
                Err(error) => is_refusal(views(self.pathglobs@), error.glob@, error.cause@),
            },
    {
        select(&self.pathglobs, db)
    }

    /// Which entries' files are to be told: those that are selected and share
    /// the folding of their path with another one that is, unless the file
    /// system is not to be looked at.
    pub fn needs_id(&self, db: &Database, selected: &Vec<bool>) -> (needed: Vec<bool>)
        requires
            selected@.len() == db@.dirs.len(),
        ensures
            needed@ == Seq::new(
                db@.dirs.len(),
                |i: int|
                    !self.assume_insensitive && selected@[i] && has_twin(db@.dirs, selected@, i),
            ),
    {
        let needed = if self.assume_insensitive {
            let mut none: Vec<bool> = Vec::new();
            let n = selected.len();
            while none.len() < n
                invariant
                    none@.len() <= n,
                    forall|i: int| 0 <= i < none@.len() ==> !(#[trigger] none@[i]),
                decreases n - none.len(),
            {
                none.push(false);
            }
            none
        } else {
            with_twin(db.dirs(), selected)
        };
        assert(needed@ =~= Seq::new(
            db@.dirs.len(),
            |i: int| !self.assume_insensitive && selected@[i] && has_twin(db@.dirs, selected@, i),
        ));
        needed
    }

    /// What is to be merged, given which entries are selected, the files that
    /// their paths lead to, and the spellings of their paths on disk.
    pub fn merges(
        &self,
        db: &Database,
        selected: &Vec<bool>,
        ids: &Vec<Option<FileId>>,
        spellings: &Vec<Option<String>>,
    ) -> (merges: Vec<Merge>)
        requires
            selected@.len() == db@.dirs.len(),
            ids@.len() == db@.dirs.len(),
            spellings@.len() == db@.dirs.len(),
        ensures
            views(merges@) == self.census(
                db@.dirs,
                selected@,
                ids@,
                spelling_views(spellings@),
            ).fusions(),
    {
        let work = Work {
            dirs: db.dirs(),
            selected,
            ids,
            spellings,
            assume_insensitive: self.assume_insensitive,
        };
        assert(work@ == self.census(db@.dirs, selected@, ids@, spelling_views(spellings@)));
        work.merges()
    }

    /// Merges the selected entries that refer to the same directory, unless
    /// this is a dry run, and tells what was or would be merged.
    pub fn dedupe(
        &self,
        db: &mut Database,
        selected: &Vec<bool>,
        ids: &Vec<Option<FileId>>,
        spellings: &Vec<Option<String>>,
    ) -> (report: String)
        requires
            selected@.len() == old(db)@.dirs.len(),
            ids@.len() == old(db)@.dirs.len(),
            spellings@.len() == old(db)@.dirs.len(),
        ensures
            ({
                let census = self.census(
                    old(db)@.dirs,
                    selected@,
                    ids@,
                    spelling_views(spellings@),
                );
                &&& report@ == dedupe_report(fusion_reports(census.fusions()), self.dry_run)
                &&& self.dry_run || census.fusions().len() == 0 ==> final(db)@ == old(db)@
                &&& !self.dry_run && census.fusions().len() > 0 ==> final(db)@ == (DatabaseView {
                    dirs: census.outcome(),
                    dirty: true,
                })
            }),
    {
        let merges = self.merges(db, selected, ids, spellings);
        let ghost census = self.census(db@.dirs, selected@, ids@, spelling_views(spellings@));
        assert(views(merges@).len() == merges@.len());
        if !self.dry_run && merges.len() > 0 {
            apply(db, &merges, Ghost(census));
        }
        report(&merges, self.dry_run)
    }
}

/// Gives the survivors their paths, and merges the others into them. All
/// indices refer to the database before, so the paths come first.
fn apply(db: &mut Database, merges: &Vec<Merge>, census: Ghost<Census>)
    requires
        census@.wf(),
        census@.dirs == old(db)@.dirs,
        views(merges@) == census@.fusions(),
        merges@.len() > 0,
    ensures
        final(db)@ == (DatabaseView { dirs: census@.outcome(), dirty: true }),
{
    let ghost fusions = census@.fusions();
    let ghost n = census@.dirs.len();
    proof {
        lemma_fusions_valid(census@);
        assert(views(merges@).len() == merges@.len());
    }
    let mut groups: Vec<(usize, Vec<usize>)> = Vec::new();
    let mut g: usize = 0;
    assert(fusions.take(0) =~= Seq::empty());
    assert(groups_of(groups@) =~= fusion_groups(fusions).take(0));
    while g < merges.len()
        invariant
            g <= merges@.len() == fusions.len(),
            views(merges@) == fusions,
            fusions == census@.fusions(),
            n == census@.dirs.len(),
            db@.dirs == respelled(census@.dirs, fusions.take(g as int)),
            db@.dirs.len() == n,
            groups_of(groups@) == fusion_groups(fusions).take(g as int),
            forall|g: int|
                0 <= g < fusions.len() ==> sound(
                    #[trigger] fusion_groups(fusions)[g],
                    n as int,
                ),
        decreases merges.len() - g,
    {
        let ghost before = groups@;
        let merge = &merges[g];
        proof {
            assert(fusions[g as int] == merge@);
            assert(sound(fusion_groups(fusions)[g as int], n as int));
            assert(fusion_groups(fusions)[g as int] == merge@.group());
            assert(fusions.take(g + 1).drop_last() =~= fusions.take(g as int));
        }
        db.set_path(merge.survivor_idx, merge.path.as_str());
        let mut victims: Vec<usize> = Vec::new();
        let mut k: usize = 0;
        while k < merge.victim_idxs.len()
            invariant
                k <= merge.victim_idxs@.len(),
                victims@ == merge.victim_idxs@.take(k as int),
            decreases merge.victim_idxs.len() - k,
        {
            victims.push(merge.victim_idxs[k]);
            k += 1;
            assert(victims@ =~= merge.victim_idxs@.take(k as int));
        }
        assert(victims@ =~= merge.victim_idxs@);
        groups.push((merge.survivor_idx, victims));
        proof {
            let all = fusion_groups(fusions);
            assert(all.take(g + 1) =~= all.take(g as int).push(all[g as int]));
            assert(groups_of(groups@) =~= groups_of(before).push(merge@.group()));
        }
        g += 1;
    }
    proof {
        assert(fusions.take(g as int) =~= fusions);
        assert(fusion_groups(fusions).take(g as int) =~= fusion_groups(fusions));
        assert(sound(fusion_groups(fusions)[0], n as int));
        assert(!nothing_to_merge(groups_of(groups@)));
    }
    db.merge_entries(groups.as_slice());
}

/// What is told of merges.
fn report(merges: &Vec<Merge>, dry_run: bool) -> (text: String)
    ensures
        text@ == dedupe_report(fusion_reports(views(merges@)), dry_run),
{
    let verb = if dry_run {
        "would merge"
    } else {
        "merged"
    };
    let ghost all = fusion_reports(views(merges@));
    assert(all.len() == merges@.len());
    if merges.len() == 0 {
        return "no duplicate entries found\n".to_owned();
    }
    let mut text = "".to_owned();
    let mut total: u128 = 0;
    let mut i: usize = 0;
    proof {
        reveal_strlit("");
        assert(text@ =~= merge_lines(verb@, all.take(0)));
        assert(all.take(0) =~= Seq::empty());
    }
    while i < merges.len()
        invariant
            i <= merges@.len() == all.len(),
            all == fusion_reports(views(merges@)),
            text@ == merge_lines(verb@, all.take(i as int)),
            total == total_entries(all.take(i as int)),
            total <= i * (usize::MAX + 1),
        decreases merges.len() - i,
    {
        let merge = &merges[i];
        let entries: u128 = merge.victim_idxs.len() as u128 + 1;
        proof {
            assert(all.take(i + 1).drop_last() =~= all.take(i as int));
            assert(all[i as int] == merge@.report());
            assert(merge@.victims.len() == merge.victim_idxs@.len());
            assert((i + 1) * (usize::MAX + 1) == i * (usize::MAX + 1) + (usize::MAX + 1))
                by (nonlinear_arith);
            assert((i + 1) * (usize::MAX + 1) <= u128::MAX) by (nonlinear_arith)
                requires
                    i + 1 <= usize::MAX,
                    usize::MAX <= 0xffff_ffff_ffff_ffff,
            ;
        }
        append_merge(&mut text, verb, merge.path.as_str(), &merge.merged);
        total += entries;
        i += 1;
    }
    assert(all.take(i as int) =~= all);
    text.append(verb);
    text.append(" ");
    append_decimal(&mut text, total);
    text.append(" entries into ");
    append_counted(&mut text, merges.len() as u128, "directory", "directories");
    text.append("\n");
    text
}

} // verus!
