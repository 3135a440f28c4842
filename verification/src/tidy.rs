//! Tidying the database: pruning stale entries, normalizing spellings, and
//! merging entries for the same directory.

use vstd::prelude::*;

use crate::cmd::Tidy;
use crate::db::{rows_of, Database};
use crate::dir::{Dir, DirView, Epoch};
use crate::fold::fold_key;
use crate::globs::{is_refusal, is_selection, select, InvalidGlob};
use crate::grouping::{collect_groups, entries_at, first_like, group_score, has_twin, key_views};
use crate::grouping::{lemma_first_like, lemma_members, members, positions, top_member};
use crate::grouping::{union_by_key, with_twin, within, FileId, Key, UnionFind};
use crate::merge::kept_positions;
use crate::probe::{probe_views, Probe, ProbeState, ProbeView};
use crate::rank::Rank;
use crate::report::{append_counted, append_lines, append_merges, counted, entry_total, lines};
use crate::report::{merge_lines, total_entries, MergeReport, MergeView};
use crate::sort::{leq_of, sort, views, Ordered};
use crate::survey::{pair_leq, without_repeats, PlanView, Survey};
use crate::text::{lemma_text_leq_order, same_text, text_leq, text_not_after};

verus! {

/// Any two pairs compare, and comparing is transitive.
pub proof fn lemma_pair_leq_order()
    ensures
        forall|a: (Seq<char>, Seq<char>), b: (Seq<char>, Seq<char>)|
            #[trigger] pair_leq(a, b) || pair_leq(b, a),
        forall|
            a: (Seq<char>, Seq<char>),
            b: (Seq<char>, Seq<char>),
            c: (Seq<char>, Seq<char>),
        |
            #[trigger] pair_leq(a, b) && #[trigger] pair_leq(b, c) ==> pair_leq(a, c),
{
    lemma_text_leq_order();
    assert forall|a: (Seq<char>, Seq<char>), b: (Seq<char>, Seq<char>)|
        #[trigger] pair_leq(a, b) || pair_leq(b, a) by {
        assert(text_leq(a.0, b.0) || text_leq(b.0, a.0));
        assert(text_leq(a.1, b.1) || text_leq(b.1, a.1));
    }
    assert forall|
        a: (Seq<char>, Seq<char>),
        b: (Seq<char>, Seq<char>),
        c: (Seq<char>, Seq<char>),
    | #[trigger] pair_leq(a, b) && #[trigger] pair_leq(b, c) implies pair_leq(a, c) by {
        if a.0 == c.0 && a.0 != b.0 {
            assert(text_leq(a.0, b.0) && text_leq(b.0, a.0));
        }
    }
}

/// A path that could not be looked at, with the error.
#[derive(Debug)]
pub struct Warning {
    pub path: String,
    pub error: String,
}

impl View for Warning {
    type V = (Seq<char>, Seq<char>);

    open spec fn view(&self) -> (Seq<char>, Seq<char>) {
        (self.path@, self.error@)
    }
}

/// Warnings are sorted by path, then by error.
impl Ordered for Warning {
    open spec fn leq(a: (Seq<char>, Seq<char>), b: (Seq<char>, Seq<char>)) -> bool {
        pair_leq(a, b)
    }

    proof fn leq_is_total_preorder() {
        lemma_pair_leq_order();
    }

    fn not_after(&self, other: &Self) -> (leq: bool) {
        if same_text(self.path.as_str(), other.path.as_str()) {
            text_not_after(self.error.as_str(), other.error.as_str())
        } else {
            text_not_after(self.path.as_str(), other.path.as_str())
        }
    }
}

/// A path that is normalized, with its new spelling.
#[derive(Debug)]
pub struct NormalizeReport {
    pub from: String,
    pub to: String,
}

impl View for NormalizeReport {
    type V = (Seq<char>, Seq<char>);

    open spec fn view(&self) -> (Seq<char>, Seq<char>) {
        (self.from@, self.to@)
    }
}

/// Normalized paths are sorted by their old, then by their new spelling.
impl Ordered for NormalizeReport {
    open spec fn leq(a: (Seq<char>, Seq<char>), b: (Seq<char>, Seq<char>)) -> bool {
        pair_leq(a, b)
    }

    proof fn leq_is_total_preorder() {
        lemma_pair_leq_order();
    }

    fn not_after(&self, other: &Self) -> (leq: bool) {
        if same_text(self.from.as_str(), other.from.as_str()) {
            text_not_after(self.to.as_str(), other.to.as_str())
        } else {
            text_not_after(self.from.as_str(), other.from.as_str())
        }
    }
}

/// The outcome of tidying: the entries that there are then, and what is to be
/// reported.
#[derive(Debug)]
pub struct TidyPlan {
    pub entries: Vec<(String, Rank, Epoch)>,
    pub pruned: Vec<String>,
    pub normalized: Vec<NormalizeReport>,
    pub merges: Vec<MergeReport>,
    pub warnings: Vec<Warning>,
}

impl View for TidyPlan {
    type V = PlanView;

    open spec fn view(&self) -> PlanView {
        PlanView {
            rows: rows_of(self.entries@),
            pruned: views(self.pruned@),
            normalized: views(self.normalized@),
            merges: views(self.merges@),
            warnings: views(self.warnings@),
        }
    }
}

/// What a plan is made from.
struct Work<'a> {
    dirs: &'a [Dir],
    selected: &'a Vec<bool>,
    probes: &'a Vec<Option<Probe>>,
    prune: bool,
    normalize: bool,
    dedupe: bool,
    assume_insensitive: bool,
}

impl<'a> View for Work<'a> {
    type V = Survey;

    closed spec fn view(&self) -> Survey {
        Survey {
            dirs: views(self.dirs@),
            selected: self.selected@,
            probes: probe_views(self.probes@),
            prune: self.prune,
            normalize: self.normalize,
            dedupe: self.dedupe,
            assume_insensitive: self.assume_insensitive,
        }
    }
}

/// The order of texts as a function value.
proof fn lemma_text_order()
    ensures
        leq_of::<String>() == (|a: Seq<char>, b: Seq<char>| text_leq(a, b)),
{
    assert(leq_of::<String>() =~= (|a: Seq<char>, b: Seq<char>| text_leq(a, b)));
}

impl<'a> Work<'a> {
    fn is_stale(&self, i: usize) -> (stale: bool)
        requires
            self@.wf(),
            i < self@.dirs.len(),
        ensures
            stale == match self@.probes[i as int] {
                Some(probe) => probe.state is Stale,
                None => false,
            },
    {
        match &self.probes[i] {
            Some(probe) => match &probe.state {
                ProbeState::Stale => true,
                _ => false,
            },
            None => false,
        }
    }

    /// Which entries are removed.
    fn pruned_flags(&self) -> (out: Vec<bool>)
        requires
            self@.wf(),
        ensures
            out@ == self@.out(),
    {
        let n = self.dirs.len();
        let mut out: Vec<bool> = Vec::new();
        let mut i: usize = 0;
        while i < n
            invariant
                self@.wf(),
                i <= n == self@.dirs.len(),
                out@.len() == i,
                forall|j: int| 0 <= j < i ==> #[trigger] out@[j] == self@.pruned(j),
            decreases n - i,
        {
            out.push(self.prune && self.selected[i] && self.is_stale(i));
            i += 1;
        }
        assert(out@ =~= self@.out());
        out
    }

    /// The paths of the entries after normalization.
    fn new_paths(&self, out: &Vec<bool>) -> (paths: Vec<String>)
        requires
            self@.wf(),
            out@ == self@.out(),
        ensures
            views(paths@) == Seq::new(self@.dirs.len(), |i: int| self@.path(i)),
    {
        let n = self.dirs.len();
        let mut paths: Vec<String> = Vec::new();
        let mut i: usize = 0;
        while i < n
            invariant
                self@.wf(),
                i <= n == self@.dirs.len(),
                out@ == self@.out(),
                paths@.len() == i,
                forall|j: int| 0 <= j < i ==> #[trigger] paths@[j]@ == self@.path(j),
            decreases n - i,
        {
            assert(self@.dirs[i as int].path == self.dirs@[i as int].path@);
            let mut path: &str = self.dirs[i].path.as_str();
            if self.normalize && self.selected[i] && !out[i] {
                match &self.probes[i] {
                    Some(probe) => match &probe.state {
                        ProbeState::Error(_) => {},
                        _ => {
                            path = probe.spelling.as_str();
                        },
                    },
                    None => {},
                }
            }
            assert(path@ == self@.path(i as int));
            paths.push(path.to_owned());
            i += 1;
        }
        assert(views(paths@) =~= Seq::new(self@.dirs.len(), |i: int| self@.path(i)));
        paths
    }

    /// The paths that are removed, sorted.
    fn pruned_paths(&self, out: &Vec<bool>) -> (paths: Vec<String>)
        requires
            self@.wf(),
            out@ == self@.out(),
        ensures
            views(paths@) == self@.pruned_paths(),
    {
        let n = self.dirs.len();
        let ghost skip = self@.not_pruned();
        let ghost told = |i: int| self@.dirs[i].path;
        let mut paths: Vec<String> = Vec::new();
        let mut i: usize = 0;
        assert(views(paths@) =~= kept_positions(0, skip).map_values(told));
        while i < n
            invariant
                self@.wf(),
                i <= n == self@.dirs.len(),
                out@ == self@.out(),
                skip == self@.not_pruned(),
                told == |i: int| self@.dirs[i].path,
                views(paths@) == kept_positions(i as nat, skip).map_values(told),
            decreases n - i,
        {
            let ghost before = paths@;
            assert(self@.dirs[i as int].path == self.dirs@[i as int].path@);
            if out[i] {
                paths.push(self.dirs[i].path.as_str().to_owned());
                assert(views(paths@) =~= views(before).push(told(i as int)));
            }
            assert(views(paths@) =~= kept_positions((i + 1) as nat, skip).map_values(told));
            i += 1;
        }
        proof {
            lemma_text_order();
        }
        sort(paths)
    }

    /// The paths that are normalized, sorted.
    fn normalize_reports(&self, paths: &Vec<String>) -> (reports: Vec<NormalizeReport>)
        requires
            self@.wf(),
            views(paths@) == Seq::new(self@.dirs.len(), |i: int| self@.path(i)),
        ensures
            views(reports@) == self@.normalized_paths(),
    {
        let n = self.dirs.len();
        let ghost skip = self@.not_normalized();
        let ghost told = |i: int| (self@.dirs[i].path, self@.path(i));
        let mut reports: Vec<NormalizeReport> = Vec::new();
        let mut i: usize = 0;
        assert(views(paths@).len() == paths@.len());
        assert(views(reports@) =~= kept_positions(0, skip).map_values(told));
        while i < n
            invariant
                self@.wf(),
                i <= n == self@.dirs.len() == paths@.len(),
                views(paths@) == Seq::new(self@.dirs.len(), |i: int| self@.path(i)),
                skip == self@.not_normalized(),
                told == |i: int| (self@.dirs[i].path, self@.path(i)),
                views(reports@) == kept_positions(i as nat, skip).map_values(told),
            decreases n - i,
        {
            let ghost before = reports@;
            assert(self@.dirs[i as int].path == self.dirs@[i as int].path@);
            assert(views(paths@)[i as int] == paths@[i as int]@);
            if !same_text(paths[i].as_str(), self.dirs[i].path.as_str()) {
                reports.push(
                    NormalizeReport {
                        from: self.dirs[i].path.as_str().to_owned(),
                        to: paths[i].as_str().to_owned(),
                    },
                );
                assert(views(reports@) =~= views(before).push(told(i as int)));
            }
            assert(views(reports@) =~= kept_positions((i + 1) as nat, skip).map_values(told));
            i += 1;
        }
        assert(leq_of::<NormalizeReport>() =~= (|
            a: (Seq<char>, Seq<char>),
            b: (Seq<char>, Seq<char>),
        | pair_leq(a, b)));
        sort(reports)
    }

    /// The paths that could not be looked at, sorted and without repetitions.
    fn warnings(&self) -> (warnings: Vec<Warning>)
        requires
            self@.wf(),
        ensures
            views(warnings@) == self@.warnings(),
    {
        let n = self.dirs.len();
        let ghost skip = self@.not_failed();
        let ghost told = |i: int| (self@.dirs[i].path, self@.probes[i]->0.state->Error_0);
        let mut warnings: Vec<Warning> = Vec::new();
        let mut i: usize = 0;
        assert(views(warnings@) =~= kept_positions(0, skip).map_values(told));
        while i < n
            invariant
                self@.wf(),
                i <= n == self@.dirs.len(),
                skip == self@.not_failed(),
                told == |i: int| (self@.dirs[i].path, self@.probes[i]->0.state->Error_0),
                views(warnings@) == kept_positions(i as nat, skip).map_values(told),
            decreases n - i,
        {
            let ghost before = warnings@;
            assert(self@.dirs[i as int].path == self.dirs@[i as int].path@);
            match &self.probes[i] {
                Some(probe) => match &probe.state {
                    ProbeState::Error(error) => {
                        assert(self@.probes[i as int] == Some(probe@));
                        warnings.push(
                            Warning {
                                path: self.dirs[i].path.as_str().to_owned(),
                                error: error.as_str().to_owned(),
                            },
                        );
                        assert(views(warnings@) =~= views(before).push(told(i as int)));
                    },
                    _ => {},
                },
                None => {},
            }
            assert(views(warnings@) =~= kept_positions((i + 1) as nat, skip).map_values(told));
            i += 1;
        }
        assert(leq_of::<Warning>() =~= (|a: (Seq<char>, Seq<char>), b: (Seq<char>, Seq<char>)|
            pair_leq(a, b)));
        remove_repeats(sort(warnings))
    }
}

/// Whether the entry has the path of one that normalization changed.
fn collides(paths: &Vec<String>, out: &Vec<bool>, changed: &Vec<bool>, i: usize) -> (collides: bool)
    requires
        paths@.len() == out@.len() == changed@.len(),
        i < paths@.len(),
    ensures
        collides == (!out@[i as int] && exists|k: int|
            0 <= k < paths@.len() && !out@[k] && #[trigger] changed@[k] && paths@[k]@
                == paths@[i as int]@),
{
    if out[i] {
        return false;
    }
    let mut k: usize = 0;
    while k < paths.len()
        invariant
            k <= paths@.len() == out@.len() == changed@.len(),
            i < paths@.len(),
            !out@[i as int],
            forall|j: int|
                0 <= j < k && !out@[j] && #[trigger] changed@[j] ==> paths@[j]@
                    != paths@[i as int]@,
        decreases paths.len() - k,
    {
        if changed[k] && !out[k] && same_text(paths[k].as_str(), paths[i].as_str()) {
            return true;
        }
        k += 1;
    }
    false
}

impl<'a> Work<'a> {
    /// The keys of entries that collide after normalization.
    fn exact_keys(&self, out: &Vec<bool>, paths: &Vec<String>) -> (keys: Vec<Option<Key>>)
        requires
            self@.wf(),
            out@ == self@.out(),
            views(paths@) == Seq::new(self@.dirs.len(), |i: int| self@.path(i)),
        ensures
            key_views(keys@) == self@.exact_keys(),
    {
        let n = self.dirs.len();
        assert(views(paths@).len() == paths@.len());
        assert forall|i: int| 0 <= i < n implies #[trigger] paths@[i]@ == self@.path(i) by {
            assert(views(paths@)[i] == paths@[i]@);
        }
        let mut changed: Vec<bool> = Vec::new();
        let mut i: usize = 0;
        while i < n
            invariant
                self@.wf(),
                i <= n == self@.dirs.len() == paths@.len(),
                forall|i: int| 0 <= i < n ==> #[trigger] paths@[i]@ == self@.path(i),
                changed@.len() == i,
                forall|j: int| 0 <= j < i ==> #[trigger] changed@[j] == self@.normalized(j),
            decreases n - i,
        {
            assert(self@.dirs[i as int].path == self.dirs@[i as int].path@);
            changed.push(!same_text(paths[i].as_str(), self.dirs[i].path.as_str()));
            i += 1;
        }
        let mut keys: Vec<Option<Key>> = Vec::new();
        i = 0;
        while i < n
            invariant
                self@.wf(),
                i <= n == self@.dirs.len() == paths@.len() == changed@.len(),
                out@ == self@.out(),
                forall|i: int| 0 <= i < n ==> #[trigger] paths@[i]@ == self@.path(i),
                forall|i: int| 0 <= i < n ==> #[trigger] changed@[i] == self@.normalized(i),
                keys@.len() == i,
                key_views(keys@) == self@.exact_keys().take(i as int),
            decreases n - i,
        {
            let ghost before = keys@;
            let found = collides(paths, out, &changed, i);
            proof {
                if found {
                    let k = choose|k: int|
                        0 <= k < n && !out@[k] && #[trigger] changed@[k] && paths@[k]@
                            == paths@[i as int]@;
                    assert(self@.normalized(k));
                    assert(self@.collides(i as int));
                } else if self@.collides(i as int) {
                    let k = choose|k: int|
                        0 <= k < n && !self@.pruned(k) && #[trigger] self@.normalized(k)
                            && self@.path(k) == self@.path(i as int);
                    assert(changed@[k]);
                    assert(paths@[k]@ == self@.path(k));
                }
            }
            if found {
                keys.push(Some(Key { text: paths[i].as_str().to_owned(), id: None }));
            } else {
                keys.push(None);
            }
            proof {
                let all = self@.exact_keys();
                assert(all.take(i + 1) =~= all.take(i as int).push(all[i as int]));
                assert(key_views(keys@) =~= key_views(before).push(all[i as int]));
            }
            i += 1;
        }
        assert(self@.exact_keys().take(n as int) =~= self@.exact_keys());
        keys
    }

    /// The first entry of a group whose path leads to a directory, with the
    /// file that it leads to.
    fn first_live(&self, group: &Vec<usize>) -> (found: Option<(usize, FileId)>)
        requires
            self@.wf(),
            within(group@, self@.dirs.len() as int),
        ensures
            match found {
                Some((i, id)) => self@.first_live(positions(group@)) == Some(i as int) && i
                    < self@.dirs.len() && self@.live_id(i as int) == Some(id),
                None => self@.first_live(positions(group@)) is None,
            },
    {
        let ghost all = positions(group@);
        let mut k: usize = 0;
        assert(all.take(0) =~= Seq::empty());
        while k < group.len()
            invariant
                self@.wf(),
                k <= group@.len() == all.len(),
                within(group@, self@.dirs.len() as int),
                all == positions(group@),
                self@.first_live(all.take(k as int)) is None,
            decreases group.len() - k,
        {
            let i = group[k];
            proof {
                let next = all.take(k + 1);
                assert(next.drop_last() =~= all.take(k as int));
                assert(next.last() == i);
            }
            match &self.probes[i] {
                Some(probe) => match &probe.state {
                    ProbeState::Live(id) => {
                        proof {
                            assert(self@.probes[i as int] == Some(probe@));
                            lemma_first_live_prefix(self@, all, k + 1);
                        }
                        return Some((i, *id));
                    },
                    _ => {
                        assert(self@.probes[i as int] == Some(probe@));
                    },
                },
                None => {},
            }
            k += 1;
        }
        assert(all.take(k as int) =~= all);
        None
    }

    /// Whether one of these entries is selected.
    fn any_selected(&self, group: &Vec<usize>) -> (any: bool)
        requires
            self@.wf(),
            within(group@, self@.dirs.len() as int),
        ensures
            any == self@.any_selected(positions(group@)),
    {
        let ghost all = positions(group@);
        let mut k: usize = 0;
        while k < group.len()
            invariant
                self@.wf(),
                k <= group@.len() == all.len(),
                within(group@, self@.dirs.len() as int),
                all == positions(group@),
                forall|j: int| 0 <= j < k ==> !self@.selected[#[trigger] all[j]],
            decreases group.len() - k,
        {
            assert(all[k as int] == group@[k as int]);
            if self.selected[group[k]] {
                return true;
            }
            k += 1;
        }
        false
    }

    /// The keys of groups of colliding entries: by folding and by file.
    fn dedupe_keys(&self, groups: &Vec<Vec<usize>>, paths: &Vec<String>) -> (keys: Vec<Option<Key>>)
        requires
            self@.wf(),
            self@.dedupe,
            groups@.len() == self@.dirs.len(),
            forall|r: int|
                0 <= r < groups@.len() ==> positions((#[trigger] groups@[r])@)
                    == self@.exact_group(r),
            views(paths@) == Seq::new(self@.dirs.len(), |i: int| self@.path(i)),
        ensures
            key_views(keys@) == self@.dedupe_keys(),
    {
        let n = self.dirs.len();
        assert(views(paths@).len() == paths@.len());
        let mut keys: Vec<Option<Key>> = Vec::new();
        let mut r: usize = 0;
        while r < n
            invariant
                self@.wf(),
                self@.dedupe,
                r <= n == self@.dirs.len() == groups@.len() == paths@.len(),
                forall|r: int|
                    0 <= r < groups@.len() ==> positions((#[trigger] groups@[r])@)
                        == self@.exact_group(r),
                views(paths@) == Seq::new(self@.dirs.len(), |i: int| self@.path(i)),
                keys@.len() == r,
                key_views(keys@) == self@.dedupe_keys().take(r as int),
            decreases n - r,
        {
            let ghost before = keys@;
            let group = &groups[r];
            proof {
                assert(positions(group@) == self@.exact_group(r as int));
                lemma_members_within(self@.exact_parts(), self@.out(), r as int, group@);
                assert(views(paths@)[r as int] == paths@[r as int]@);
            }
            if !self.any_selected(group) {
                keys.push(None);
            } else if self.assume_insensitive {
                keys.push(Some(Key { text: fold_key(paths[r].as_str()), id: None }));
            } else {
                match self.first_live(group) {
                    Some((_, id)) => {
                        keys.push(Some(Key { text: fold_key(paths[r].as_str()), id: Some(id) }));
                    },
                    None => {
                        keys.push(None);
                    },
                }
            }
            proof {
                let all = self@.dedupe_keys();
                assert(all.take(r + 1) =~= all.take(r as int).push(all[r as int]));
                assert(key_views(keys@) =~= key_views(before).push(all[r as int]));
            }
            r += 1;
        }
        assert(self@.dedupe_keys().take(n as int) =~= self@.dedupe_keys());
        keys
    }

    /// The groups of entries that become one, indexed by their first entry,
    /// and the first entry of each entry's group.
    fn groups(&self, out: &Vec<bool>, paths: &Vec<String>) -> (result: (
        Vec<Vec<usize>>,
        Vec<usize>,
    ))
        requires
            self@.wf(),
            out@ == self@.out(),
            views(paths@) == Seq::new(self@.dirs.len(), |i: int| self@.path(i)),
        ensures
            result.0@.len() == self@.dirs.len(),
            forall|r: int|
                0 <= r < result.0@.len() ==> positions((#[trigger] result.0@[r])@) == self@.group(
                    r,
                ),
            positions(result.1@) == self@.parts(),
            within(result.1@, self@.dirs.len() as int),
    {
        let n = self.dirs.len();
        let mut unions = UnionFind::new(n);
        // Normalization must not create byte-identical rows. Exact collisions
        // are consolidated even when another member is not selected.
        let keys = self.exact_keys(out, paths);
        proof {
            assert(key_views(keys@).len() == keys@.len());
        }
        union_by_key(&mut unions, &keys);
        assert(unions@ == self@.exact_parts());
        proof {
            lemma_exact_parts(self@);
        }
        if self.dedupe {
            let groups = collect_groups(&mut unions, out);
            let keys = self.dedupe_keys(&groups, paths);
            proof {
                assert(key_views(keys@).len() == keys@.len());
                assert forall|r: int| 0 <= r < n && (#[trigger] keys@[r]) is Some implies unions@[r]
                    == r by {
                    assert(key_views(keys@)[r] is Some);
                    lemma_keyed_is_first(self@, r);
                }
            }
            union_by_key(&mut unions, &keys);
        } else {
            proof {
                lemma_no_dedupe(self@);
            }
        }
        assert(unions@ == self@.parts());
        proof {
            lemma_parts(self@);
        }
        let groups = collect_groups(&mut unions, out);
        let mut firsts: Vec<usize> = Vec::new();
        let mut i: usize = 0;
        while i < n
            invariant
                self@.wf(),
                i <= n == self@.dirs.len(),
                unions.wf(),
                unions@ == self@.parts(),
                self@.parts().len() == n,
                firsts@.len() == i,
                forall|j: int| 0 <= j < i ==> #[trigger] firsts@[j] == self@.parts()[j],
                within(firsts@, n as int),
            decreases n - i,
        {
            firsts.push(unions.find(i));
            i += 1;
        }
        assert(positions(firsts@) =~= self@.parts());
        (groups, firsts)
    }
}

impl<'a> Work<'a> {
    /// The path that a group is given.
    fn group_path(&self, r: usize, group: &Vec<usize>, survivor: usize, paths: &Vec<String>) -> (path:
        String)
        requires
            self@.wf(),
            positions(group@) == self@.group(r as int),
            within(group@, self@.dirs.len() as int),
            survivor == self@.survivor(r as int),
            survivor < self@.dirs.len(),
            views(paths@) == Seq::new(self@.dirs.len(), |i: int| self@.path(i)),
        ensures
            path@ == self@.group_path(r as int),
    {
        proof {
            assert(views(paths@).len() == paths@.len());
            assert(views(paths@)[survivor as int] == paths@[survivor as int]@);
        }
        if self.dedupe && !self.assume_insensitive && group.len() > 1 {
            let mut source: Option<usize> = None;
            match &self.probes[survivor] {
                Some(probe) => {
                    assert(self@.probes[survivor as int] == Some(probe@));
                    match &probe.state {
                        ProbeState::Live(_) => {
                            source = Some(survivor);
                        },
                        _ => {},
                    }
                },
                None => {},
            }
            if source.is_none() {
                match self.first_live(group) {
                    Some((i, _)) => {
                        source = Some(i);
                    },
                    None => {},
                }
            }
            match source {
                Some(i) => match &self.probes[i] {
                    Some(probe) => {
                        assert(self@.probes[i as int] == Some(probe@));
                        return probe.spelling.as_str().to_owned();
                    },
                    None => {},
                },
                None => {},
            }
        }
        paths[survivor].as_str().to_owned()
    }

    /// The spellings that go away when a group becomes one entry, sorted.
    fn merged_paths(&self, r: usize, group: &Vec<usize>, path: &str) -> (merged: Vec<String>)
        requires
            self@.wf(),
            positions(group@) == self@.group(r as int),
            within(group@, self@.dirs.len() as int),
            path@ == self@.group_path(r as int),
        ensures
            views(merged@) == self@.merged_paths(r as int),
    {
        let ghost all = entries_at(self@.dirs, self@.group(r as int)).map_values(
            |dir: DirView| dir.path,
        );
        let ghost differs = |path: Seq<char>| path != self@.group_path(r as int);
        let mut merged: Vec<String> = Vec::new();
        let mut k: usize = 0;
        assert(positions(group@).len() == group@.len());
        proof {
            broadcast use Seq::lemma_filter_len;

            assert(all.take(0) =~= Seq::empty());
            assert(all.take(0).filter(differs).len() == 0);
            assert(views(merged@) =~= all.take(0).filter(differs));
        }
        while k < group.len()
            invariant
                self@.wf(),
                k <= group@.len() == all.len(),
                positions(group@) == self@.group(r as int),
                within(group@, self@.dirs.len() as int),
                path@ == self@.group_path(r as int),
                all == entries_at(self@.dirs, self@.group(r as int)).map_values(
                    |dir: DirView| dir.path,
                ),
                differs == |path: Seq<char>| path != self@.group_path(r as int),
                views(merged@) == all.take(k as int).filter(differs),
            decreases group.len() - k,
        {
            let ghost before = merged@;
            let idx = group[k];
            proof {
                assert(positions(group@)[k as int] == idx);
                assert(self@.dirs[idx as int].path == self.dirs@[idx as int].path@);
                assert(all[k as int] == self.dirs@[idx as int].path@);
                assert(all.take(k + 1) =~= all.take(k as int).push(all[k as int]));
                all.take(k as int).lemma_filter_push(all[k as int], differs);
            }
            if !same_text(self.dirs[idx].path.as_str(), path) {
                merged.push(self.dirs[idx].path.as_str().to_owned());
                assert(views(merged@) =~= views(before).push(all[k as int]));
            }
            k += 1;
        }
        proof {
            assert(all.take(k as int) =~= all);
            lemma_text_order();
        }
        sort(merged)
    }

    /// The survivor of each group; a group without entries has none.
    fn survivors(&self, groups: &Vec<Vec<usize>>) -> (survivors: Vec<usize>)
        requires
            self@.wf(),
            groups@.len() == self@.dirs.len(),
            forall|r: int|
                0 <= r < groups@.len() ==> positions((#[trigger] groups@[r])@) == self@.group(r),
        ensures
            survivors@.len() == self@.dirs.len(),
            forall|r: int|
                0 <= r < survivors@.len() && self@.group(r).len() > 0 ==> #[trigger] survivors@[r]
                    == self@.survivor(r) && survivors@[r] < self@.dirs.len(),
    {
        let n = self.dirs.len();
        let mut survivors: Vec<usize> = Vec::new();
        let mut r: usize = 0;
        while r < n
            invariant
                self@.wf(),
                r <= n == groups@.len() == self@.dirs.len(),
                forall|r: int|
                    0 <= r < groups@.len() ==> positions((#[trigger] groups@[r])@) == self@.group(
                        r,
                    ),
                survivors@.len() == r,
                forall|q: int|
                    0 <= q < r && self@.group(q).len() > 0 ==> #[trigger] survivors@[q]
                        == self@.survivor(q) && survivors@[q] < self@.dirs.len(),
            decreases n - r,
        {
            let group = &groups[r];
            proof {
                assert(positions(group@) == self@.group(r as int));
                assert(positions(group@).len() == group@.len());
                lemma_parts(self@);
                lemma_members_within(self@.parts(), self@.out(), r as int, group@);
            }
            if group.len() > 0 {
                survivors.push(top_member(self.dirs, group));
            } else {
                survivors.push(r);
            }
            r += 1;
        }
        survivors
    }

    /// The entries that there are after tidying.
    fn rows(
        &self,
        out: &Vec<bool>,
        paths: &Vec<String>,
        groups: &Vec<Vec<usize>>,
        firsts: &Vec<usize>,
        survivors: &Vec<usize>,
    ) -> (rows: Vec<(String, Rank, Epoch)>)
        requires
            self@.wf(),
            out@ == self@.out(),
            views(paths@) == Seq::new(self@.dirs.len(), |i: int| self@.path(i)),
            groups@.len() == self@.dirs.len(),
            forall|r: int|
                0 <= r < groups@.len() ==> positions((#[trigger] groups@[r])@) == self@.group(r),
            positions(firsts@) == self@.parts(),
            within(firsts@, self@.dirs.len() as int),
            survivors@.len() == self@.dirs.len(),
            forall|r: int|
                0 <= r < survivors@.len() && self@.group(r).len() > 0 ==> #[trigger] survivors@[r]
                    == self@.survivor(r) && survivors@[r] < self@.dirs.len(),
        ensures
            rows_of(rows@) == self@.rows(),
    {
        let n = self.dirs.len();
        let ghost skip = self@.gone();
        let ghost told = |i: int| self@.row(self@.parts()[i]);
        let mut rows: Vec<(String, Rank, Epoch)> = Vec::new();
        let mut i: usize = 0;
        proof {
            lemma_parts(self@);
            assert(positions(firsts@).len() == firsts@.len());
            assert(rows_of(rows@) =~= kept_positions(0, skip).map_values(told));
        }
        while i < n
            invariant
                self@.wf(),
                i <= n == self@.dirs.len() == groups@.len() == firsts@.len() == survivors@.len(),
                out@ == self@.out(),
                self@.parts().len() == n,
                views(paths@) == Seq::new(self@.dirs.len(), |i: int| self@.path(i)),
                forall|r: int|
                    0 <= r < groups@.len() ==> positions((#[trigger] groups@[r])@) == self@.group(
                        r,
                    ),
                positions(firsts@) == self@.parts(),
                within(firsts@, self@.dirs.len() as int),
                forall|r: int|
                    0 <= r < survivors@.len() && self@.group(r).len() > 0
                        ==> #[trigger] survivors@[r] == self@.survivor(r) && survivors@[r]
                        < self@.dirs.len(),
                skip == self@.gone(),
                told == |i: int| self@.row(self@.parts()[i]),
                rows_of(rows@) == kept_positions(i as nat, skip).map_values(told),
            decreases n - i,
        {
            let ghost before = rows@;
            let r = firsts[i];
            let group = &groups[r];
            proof {
                assert(positions(firsts@)[i as int] == r);
                assert(positions(group@) == self@.group(r as int));
                lemma_members_within(self@.parts(), self@.out(), r as int, group@);
                if !out@[i as int] {
                    lemma_members(self@.parts(), self@.out(), r as int);
                    assert(self@.parts()[i as int] == r);
                    assert(self@.group(r as int).contains(i as int));
                    assert(self@.group(r as int).len() > 0);
                    assert(survivors@[r as int] == self@.survivor(r as int));
                }
            }
            if !out[i] && survivors[r] == i {
                let path = self.group_path(r, group, i, paths);
                let (rank, last_accessed) = group_score(self.dirs, group);
                rows.push((path, rank, last_accessed));
                assert(rows_of(rows@) =~= rows_of(before).push(told(i as int)));
            }
            assert(rows_of(rows@) =~= kept_positions((i + 1) as nat, skip).map_values(told));
            i += 1;
        }
        rows
    }

    /// The groups of more than one entry, sorted by their path.
    fn merges(
        &self,
        paths: &Vec<String>,
        groups: &Vec<Vec<usize>>,
        survivors: &Vec<usize>,
    ) -> (merges: Vec<MergeReport>)
        requires
            self@.wf(),
            views(paths@) == Seq::new(self@.dirs.len(), |i: int| self@.path(i)),
            groups@.len() == self@.dirs.len(),
            forall|r: int|
                0 <= r < groups@.len() ==> positions((#[trigger] groups@[r])@) == self@.group(r),
            survivors@.len() == self@.dirs.len(),
            forall|r: int|
                0 <= r < survivors@.len() && self@.group(r).len() > 0 ==> #[trigger] survivors@[r]
                    == self@.survivor(r) && survivors@[r] < self@.dirs.len(),
        ensures
            views(merges@) == self@.merges(),
    {
        let n = self.dirs.len();
        let ghost skip = self@.not_merged();
        let ghost told = |r: int| self@.merge(r);
        let mut merges: Vec<MergeReport> = Vec::new();
        let mut r: usize = 0;
        assert(views(merges@) =~= kept_positions(0, skip).map_values(told));
        while r < n
            invariant
                self@.wf(),
                r <= n == self@.dirs.len() == groups@.len() == survivors@.len(),
                views(paths@) == Seq::new(self@.dirs.len(), |i: int| self@.path(i)),
                forall|r: int|
                    0 <= r < groups@.len() ==> positions((#[trigger] groups@[r])@) == self@.group(
                        r,
                    ),
                forall|r: int|
                    0 <= r < survivors@.len() && self@.group(r).len() > 0
                        ==> #[trigger] survivors@[r] == self@.survivor(r) && survivors@[r]
                        < self@.dirs.len(),
                skip == self@.not_merged(),
                told == |r: int| self@.merge(r),
                views(merges@) == kept_positions(r as nat, skip).map_values(told),
            decreases n - r,
        {
            let ghost before = merges@;
            let group = &groups[r];
            proof {
                assert(positions(group@) == self@.group(r as int));
                assert(positions(group@).len() == group@.len());
                lemma_parts(self@);
                lemma_members_within(self@.parts(), self@.out(), r as int, group@);
            }
            if group.len() > 1 {
                let survivor = survivors[r];
                let path = self.group_path(r, group, survivor, paths);
                let merged = self.merged_paths(r, group, path.as_str());
                merges.push(MergeReport { path, merged, entries: group.len() });
                assert(views(merges@) =~= views(before).push(told(r as int)));
            }
            assert(views(merges@) =~= kept_positions((r + 1) as nat, skip).map_values(told));
            r += 1;
        }
        assert(leq_of::<MergeReport>() =~= (|a: MergeView, b: MergeView|
            text_leq(a.path, b.path)));
        sort(merges)
    }

    /// The outcome of tidying.
    fn plan(&self) -> (plan: TidyPlan)
        requires
            self@.wf(),
        ensures
            plan@ == self@.plan(),
    {
        let warnings = self.warnings();
        let out = self.pruned_flags();
        let pruned = self.pruned_paths(&out);
        let paths = self.new_paths(&out);
        let normalized = self.normalize_reports(&paths);
        let (groups, firsts) = self.groups(&out, &paths);
        let survivors = self.survivors(&groups);
        let entries = self.rows(&out, &paths, &groups, &firsts, &survivors);
        let merges = self.merges(&paths, &groups, &survivors);
        TidyPlan { entries, pruned, normalized, merges, warnings }
    }
}

proof fn lemma_first_live_prefix(survey: Survey, group: Seq<int>, n: int)
    requires
        0 <= n <= group.len(),
        survey.first_live(group.take(n)) is Some,
    ensures
        survey.first_live(group) == survey.first_live(group.take(n)),
    decreases group.len() - n,
{
    if n < group.len() {
        let next = group.take(n + 1);
        assert(next.drop_last() =~= group.take(n));
        lemma_first_live_prefix(survey, group, n + 1);
    } else {
        assert(group.take(n) =~= group);
    }
}

/// The members of a part are positions.
proof fn lemma_members_within(parts: Seq<int>, out: Seq<bool>, r: int, group: Seq<usize>)
    requires
        positions(group) == members(parts, out, r),
    ensures
        within(group, parts.len() as int),
{
    let all = positions(group);
    lemma_members(parts, out, r);
    assert forall|k: int| 0 <= k < group.len() implies #[trigger] group[k] < parts.len() by {
        assert(all[k] == group[k]);
    }
}

/// Each entry's part by collisions is represented by an entry that is not
/// behind it, and that represents itself.
pub proof fn lemma_exact_parts(survey: Survey)
    requires
        survey.wf(),
    ensures
        survey.exact_parts().len() == survey.dirs.len(),
        forall|i: int|
            0 <= i < survey.dirs.len() ==> {
                let r = #[trigger] survey.exact_parts()[i];
                0 <= r <= i && survey.exact_parts()[r] == r && r == first_like(
                    survey.exact_keys(),
                    i,
                )
            },
{
    assert forall|i: int| 0 <= i < survey.dirs.len() implies {
        let r = #[trigger] survey.exact_parts()[i];
        0 <= r <= i && survey.exact_parts()[r] == r && r == first_like(survey.exact_keys(), i)
    } by {
        lemma_first_like(survey.exact_keys(), i);
    }
}

/// An entry with a key for merging represents its part.
pub proof fn lemma_keyed_is_first(survey: Survey, r: int)
    requires
        survey.wf(),
        0 <= r < survey.dirs.len(),
        survey.dedupe_keys()[r] is Some,
    ensures
        survey.exact_parts()[r] == r,
{
    let group = survey.exact_group(r);
    assert(survey.any_selected(group));
    let k = choose|k: int| 0 <= k < group.len() && survey.selected[#[trigger] group[k]];
    lemma_exact_parts(survey);
    lemma_members(survey.exact_parts(), survey.out(), r);
    assert(survey.exact_parts()[group[k]] == r);
}

/// Without merging, the parts are those by collisions.
proof fn lemma_no_dedupe(survey: Survey)
    requires
        survey.wf(),
        !survey.dedupe,
    ensures
        survey.parts() == survey.exact_parts(),
{
    lemma_exact_parts(survey);
    assert forall|i: int| 0 <= i < survey.dirs.len() implies survey.parts()[i]
        == survey.exact_parts()[i] by {
        assert(survey.dedupe_keys()[survey.exact_parts()[i]] is None);
    }
    assert(survey.parts() =~= survey.exact_parts());
}

/// Each entry's part is represented by an entry that is not behind it, and
/// that represents itself.
pub proof fn lemma_parts(survey: Survey)
    requires
        survey.wf(),
    ensures
        survey.parts().len() == survey.dirs.len(),
        forall|i: int|
            0 <= i < survey.dirs.len() ==> {
                let r = #[trigger] survey.parts()[i];
                0 <= r <= i && survey.parts()[r] == r
            },
{
    lemma_exact_parts(survey);
    assert forall|i: int| 0 <= i < survey.dirs.len() implies {
        let r = #[trigger] survey.parts()[i];
        0 <= r <= i && survey.parts()[r] == r
    } by {
        let e = survey.exact_parts()[i];
        lemma_first_like(survey.dedupe_keys(), e);
        let r = survey.parts()[i];
        assert(r == first_like(survey.dedupe_keys(), e));
        if survey.dedupe_keys()[e] is Some {
            assert(survey.dedupe_keys()[r] is Some);
            lemma_keyed_is_first(survey, r);
        }
        assert(survey.exact_parts()[r] == r);
        assert(survey.parts()[r] == first_like(survey.dedupe_keys(), r));
    }
}

/// The warnings without those that equal the one before them.
fn remove_repeats(sorted: Vec<Warning>) -> (warnings: Vec<Warning>)
    ensures
        views(warnings@) == without_repeats(views(sorted@)),
{
    let ghost all = views(sorted@);
    let mut warnings: Vec<Warning> = Vec::new();
    assert(views(warnings@) =~= without_repeats(all.take(0)));
    for warning in it: sorted
        invariant
            all == views(it.seq()),
            views(warnings@) == without_repeats(all.take(it.index() as int)),
            it.index() > 0 ==> warnings@.len() > 0 && warnings@.last()@ == all[it.index() - 1],
    {
        let ghost before = warnings@;
        let ghost i = it.index() as int;
        let n = warnings.len();
        proof {
            let next = all.take(i + 1);
            assert(next.drop_last() =~= all.take(i));
            assert(next.last() == warning@);
            if i > 0 {
                assert(next[i - 1] == all[i - 1]);
            } else {
                assert(all.take(0) =~= Seq::empty());
                assert(views(before).len() == 0);
            }
        }
        let repeated = n > 0 && same_text(warnings[n - 1].path.as_str(), warning.path.as_str())
            && same_text(warnings[n - 1].error.as_str(), warning.error.as_str());
        if !repeated {
            warnings.push(warning);
            assert(views(warnings@) =~= views(before).push(all[i]));
        }
        assert(views(warnings@) =~= without_repeats(all.take(i + 1)));
    }
    assert(all.take(all.len() as int) =~= all);
    warnings
}

/// Which entries are selected, and which of their paths are to be looked at.
#[derive(Debug)]
pub struct Scan {
    pub selected: Vec<bool>,
    pub needs_probe: Vec<bool>,
}

/// Whether what is to be done asks for looking at the entry's path: a selected
/// entry is looked at for pruning and normalizing, and for merging where another
/// selected entry has a path with the same folding.
pub open spec fn probe_needed(
    tidy: Tidy,
    dirs: Seq<DirView>,
    selected: Seq<bool>,
    i: int,
) -> bool {
    selected[i] && (tidy.prunes() || tidy.normalizes() || (tidy.dedupes()
        && !tidy.assume_insensitive && has_twin(dirs, selected, i)))
}

impl Tidy {
    pub open spec fn dedupes(self) -> bool {
        self.all || self.dedupe
    }

    pub open spec fn normalizes(self) -> bool {
        self.all || self.normalize
    }

    pub open spec fn prunes(self) -> bool {
        self.all || self.prune
    }

    /// What is to be done, with which entries and what is known of them.
    pub open spec fn survey(
        self,
        dirs: Seq<DirView>,
        selected: Seq<bool>,
        probes: Seq<Option<ProbeView>>,
    ) -> Survey {
        Survey {
            dirs,
            selected,
            probes,
            prune: self.prunes(),
            normalize: self.normalizes(),
            dedupe: self.dedupes(),
            assume_insensitive: self.assume_insensitive,
        }
    }

    /// Whether different spellings of the same directory are merged.
    pub fn dedupe_enabled(&self) -> (enabled: bool)
        ensures
            enabled == self.dedupes(),
            enabled == (self.dedupe || self.all),
    {
        self.all || self.dedupe
    }

    /// Whether paths are rewritten using their spelling on disk.
    pub fn normalize_enabled(&self) -> (enabled: bool)
        ensures
            enabled == self.normalizes(),
            enabled == (self.normalize || self.all),
    {
        self.all || self.normalize
    }

    /// Whether paths are removed that no longer lead to directories.
    pub fn prune_enabled(&self) -> (enabled: bool)
        ensures
            enabled == self.prunes(),
            enabled == (self.prune || self.all),
    {
        self.all || self.prune
    }

    /// Which entries the globs select, and which of their paths are to be
    /// looked at.
    pub fn scan(&self, db: &Database) -> (scan: Result<Scan, InvalidGlob>)
        ensures
            match scan {
                Ok(scan) => is_selection(views(self.pathglobs@), db@.dirs, scan.selected@)
                    && scan.needs_probe@ == Seq::new(
                    db@.dirs.len(),
                    |i: int| probe_needed(*self, db@.dirs, scan.selected@, i),
                ),
                Err(error) => is_refusal(views(self.pathglobs@), error.glob@, error.cause@),
            },
    {
        match select(&self.pathglobs, db) {
            Ok(selected) => {
                let needs_probe = self.needs_probe(db, &selected);
                Ok(Scan { selected, needs_probe })
            },
            Err(error) => Err(error),
        }
    }

    /// Which entries' paths are to be looked at.
    pub fn needs_probe(&self, db: &Database, selected: &Vec<bool>) -> (needed: Vec<bool>)
        requires
            selected@.len() == db@.dirs.len(),
        ensures
            needed@ == Seq::new(
                db@.dirs.len(),
                |i: int| probe_needed(*self, db@.dirs, selected@, i),
            ),
    {
        let always = self.prune_enabled() || self.normalize_enabled();
        let by_twin = self.dedupe_enabled() && !self.assume_insensitive;
        let twins = if by_twin && !always {
            with_twin(db.dirs(), selected)
        } else {
            Vec::new()
        };
        let n = selected.len();
        let mut needed: Vec<bool> = Vec::new();
        let mut i: usize = 0;
        while i < n
            invariant
                i <= n == db@.dirs.len() == selected@.len(),
                always == (self.prunes() || self.normalizes()),
                by_twin == (self.dedupes() && !self.assume_insensitive),
                by_twin && !always ==> twins@ == Seq::new(
                    db@.dirs.len(),
                    |i: int| selected@[i] && has_twin(db@.dirs, selected@, i),
                ),
                needed@.len() == i,
                forall|j: int|
                    0 <= j < i ==> #[trigger] needed@[j] == probe_needed(
                        *self,
                        db@.dirs,
                        selected@,
                        j,
                    ),
            decreases n - i,
        {
            if always {
                needed.push(selected[i]);
            } else if by_twin {
                needed.push(twins[i]);
            } else {
                needed.push(false);
            }
            i += 1;
        }
        assert(needed@ =~= Seq::new(
            db@.dirs.len(),
            |i: int| probe_needed(*self, db@.dirs, selected@, i),
        ));
        needed
    }

    /// Plans what is to be done in the order of pruning, normalizing and
    /// merging, given which entries are selected and what is known of their
    /// paths. The database is not changed.
    pub fn plan(
        &self,
        db: &Database,
        selected: &Vec<bool>,
        probes: &Vec<Option<Probe>>,
    ) -> (plan: TidyPlan)
        requires
            selected@.len() == db@.dirs.len(),
            probes@.len() == db@.dirs.len(),
        ensures
            plan@ == self.survey(db@.dirs, selected@, probe_views(probes@)).plan(),
    {
        let work = Work {
            dirs: db.dirs(),
            selected,
            probes,
            prune: self.prune_enabled(),
            normalize: self.normalize_enabled(),
            dedupe: self.dedupe_enabled(),
            assume_insensitive: self.assume_insensitive,
        };
        assert(work@ == self.survey(db@.dirs, selected@, probe_views(probes@)));
        work.plan()
    }

    /// Carries out a plan, unless this is a dry run.
    pub fn finish(&self, plan: TidyPlan, db: &mut Database)
        ensures
            self.dry_run ==> final(db)@ == old(db)@,
            !self.dry_run ==> final(db)@.dirs == plan@.rows && final(db)@.dirty == (old(db)@.dirty
                || plan@.rows != old(db)@.dirs),
    {
        if !self.dry_run {
            plan.apply(db);
        }
    }
}

impl TidyPlan {
    /// Replaces the entries by those of the plan.
    pub fn apply(self, db: &mut Database)
        ensures
            final(db)@.dirs == self@.rows,
            final(db)@.dirty == (old(db)@.dirty || self@.rows != old(db)@.dirs),
    {
        db.replace_dirs(self.entries);
    }

    /// What is told of the paths that could not be looked at.
    pub fn write_warnings(&self) -> (text: String)
        ensures
            text@ == warning_lines(self@.warnings),
    {
        let mut text = "".to_owned();
        let ghost all = self@.warnings;
        let mut i: usize = 0;
        proof {
            reveal_strlit("");
            assert(text@ =~= warning_lines(all.take(0)));
        }
        while i < self.warnings.len()
            invariant
                i <= self.warnings@.len() == all.len(),
                all == self@.warnings,
                text@ == warning_lines(all.take(i as int)),
            decreases self.warnings.len() - i,
        {
            proof {
                assert(all.take(i + 1).drop_last() =~= all.take(i as int));
                assert(all[i as int] == self.warnings@[i as int]@);
            }
            text.append("zoxide: warning: could not inspect ");
            text.append(self.warnings[i].path.as_str());
            text.append(": ");
            text.append(self.warnings[i].error.as_str());
            text.append("\n");
            proof {
                assert(text@ =~= warning_lines(all.take(i + 1)));
            }
            i += 1;
        }
        assert(all.take(i as int) =~= all);
        text
    }
}

/// The verb of a report: what was done or, in a dry run, would be.
pub open spec fn verb(dry_run: bool, would: Seq<char>, did: Seq<char>) -> Seq<char> {
    if dry_run {
        would
    } else {
        did
    }
}

/// One line for each path that changes.
pub open spec fn normalize_lines(
    verb: Seq<char>,
    normalized: Seq<(Seq<char>, Seq<char>)>,
) -> Seq<char>
    decreases normalized.len(),
{
    if normalized.len() == 0 {
        Seq::empty()
    } else {
        let change = normalized.last();
        normalize_lines(verb, normalized.drop_last()) + verb + " "@ + change.0 + " -> "@ + change.1
            + "\n"@
    }
}

/// A line with the number of entries that something was done to, unless that
/// is none.
pub open spec fn entries_total(verb: Seq<char>, count: nat) -> Seq<char> {
    if count == 0 {
        Seq::empty()
    } else {
        verb + " "@ + counted(count, "entry"@, "entries"@) + "\n"@
    }
}

/// A line with the number of entries that were merged and of directories that
/// they are now, unless nothing was merged.
pub open spec fn merges_total(verb: Seq<char>, merges: Seq<MergeView>) -> Seq<char> {
    if merges.len() == 0 {
        Seq::empty()
    } else {
        verb + " "@ + counted(total_entries(merges), "entry"@, "entries"@) + " into "@ + counted(
            merges.len(),
            "directory"@,
            "directories"@,
        ) + "\n"@
    }
}

/// What is reported of a plan: the paths that were removed, those that changed,
/// the groups that were merged, and the totals of each.
pub open spec fn report_text(plan: PlanView, dry_run: bool) -> Seq<char> {
    let prune = verb(dry_run, "would prune"@, "pruned"@);
    let normalize = verb(dry_run, "would normalize"@, "normalized"@);
    let merge = verb(dry_run, "would merge"@, "merged"@);
    if plan.changes_nothing() {
        "no changes needed\n"@
    } else {
        lines(prune + " "@, plan.pruned) + normalize_lines(normalize, plan.normalized)
            + merge_lines(merge, plan.merges) + entries_total(prune, plan.pruned.len())
            + entries_total(normalize, plan.normalized.len()) + merges_total(merge, plan.merges)
    }
}

fn append_normalized(out: &mut String, verb: &str, normalized: &Vec<NormalizeReport>)
    ensures
        final(out)@ == old(out)@ + normalize_lines(verb@, views(normalized@)),
{
    let ghost all = views(normalized@);
    let mut i: usize = 0;
    assert(out@ =~= old(out)@ + normalize_lines(verb@, all.take(0)));
    while i < normalized.len()
        invariant
            i <= normalized@.len() == all.len(),
            all == views(normalized@),
            out@ == old(out)@ + normalize_lines(verb@, all.take(i as int)),
        decreases normalized.len() - i,
    {
        proof {
            assert(all.take(i + 1).drop_last() =~= all.take(i as int));
            assert(all[i as int] == normalized@[i as int]@);
        }
        out.append(verb);
        out.append(" ");
        out.append(normalized[i].from.as_str());
        out.append(" -> ");
        out.append(normalized[i].to.as_str());
        out.append("\n");
        assert(out@ =~= old(out)@ + normalize_lines(verb@, all.take(i + 1)));
        i += 1;
    }
    assert(all.take(i as int) =~= all);
}

fn append_entries_total(out: &mut String, verb: &str, count: usize)
    ensures
        final(out)@ == old(out)@ + entries_total(verb@, count as nat),
{
    if count > 0 {
        out.append(verb);
        out.append(" ");
        append_counted(out, count as u128, "entry", "entries");
        out.append("\n");
    }
    assert(out@ =~= old(out)@ + entries_total(verb@, count as nat));
}

fn append_merges_total(out: &mut String, verb: &str, merges: &Vec<MergeReport>)
    ensures
        final(out)@ == old(out)@ + merges_total(verb@, views(merges@)),
{
    if merges.len() > 0 {
        out.append(verb);
        out.append(" ");
        append_counted(out, entry_total(merges), "entry", "entries");
        out.append(" into ");
        append_counted(out, merges.len() as u128, "directory", "directories");
        out.append("\n");
    }
    assert(views(merges@).len() == merges@.len());
    assert(out@ =~= old(out)@ + merges_total(verb@, views(merges@)));
}

impl TidyPlan {
    /// What is reported of the plan.
    pub fn write_report(&self, dry_run: bool) -> (text: String)
        ensures
            text@ == report_text(self@, dry_run),
    {
        let prune = if dry_run {
            "would prune"
        } else {
            "pruned"
        };
        let normalize = if dry_run {
            "would normalize"
        } else {
            "normalized"
        };
        let merge = if dry_run {
            "would merge"
        } else {
            "merged"
        };
        proof {
            assert(self@.pruned.len() == self.pruned@.len());
            assert(self@.normalized.len() == self.normalized@.len());
            assert(self@.merges.len() == self.merges@.len());
        }
        if self.pruned.len() == 0 && self.normalized.len() == 0 && self.merges.len() == 0 {
            return "no changes needed\n".to_owned();
        }
        let mut text = prune.to_owned();
        text.append(" ");
        let prefix = text;
        let mut text = "".to_owned();
        proof {
            reveal_strlit("");
        }
        append_lines(&mut text, prefix.as_str(), &self.pruned);
        assert(text@ =~= lines(prefix@, self@.pruned));
        append_normalized(&mut text, normalize, &self.normalized);
        append_merges(&mut text, merge, &self.merges);
        append_entries_total(&mut text, prune, self.pruned.len());
        append_entries_total(&mut text, normalize, self.normalized.len());
        append_merges_total(&mut text, merge, &self.merges);
        text
    }
}

/// One line for each path that could not be looked at.
pub open spec fn warning_lines(warnings: Seq<(Seq<char>, Seq<char>)>) -> Seq<char>
    decreases warnings.len(),
{
    if warnings.len() == 0 {
        Seq::empty()
    } else {
        let warning = warnings.last();
        warning_lines(warnings.drop_last()) + "zoxide: warning: could not inspect "@ + warning.0
            + ": "@ + warning.1 + "\n"@
    }
}

} // verus!
