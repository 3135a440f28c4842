//! Groups of entries: entries with equal keys, and their survivors.

use vstd::prelude::*;

use crate::db::total_rank;
use crate::dir::{Dir, DirView, Epoch};
use crate::fold::{fold_key, folded};
use crate::merge::{kept_positions, later, lemma_kept_positions};
use crate::rank::{Rank, SIGN};
use crate::sort::views;
use crate::text::same_text;

verus! {

/// What a file system tells directories apart by.
#[derive(Clone, Copy, Debug, PartialEq, Eq, Structural)]
pub struct FileId {
    pub device: u64,
    pub file: u64,
}

/// What entries have in common that belong together: a text, and a file where
/// that is known.
#[derive(Debug)]
pub struct Key {
    pub text: String,
    pub id: Option<FileId>,
}

/// What a key says.
pub struct KeyView {
    pub text: Seq<char>,
    pub id: Option<FileId>,
}

impl View for Key {
    type V = KeyView;

    open spec fn view(&self) -> KeyView {
        KeyView { text: self.text@, id: self.id }
    }
}

/// What the keys of entries say. An entry without a key belongs to no other.
pub open spec fn key_views(keys: Seq<Option<Key>>) -> Seq<Option<KeyView>> {
    keys.map_values(
        |key: Option<Key>|
            match key {
                Some(key) => Some(key@),
                None => None::<KeyView>,
            },
    )
}

/// The first position from `from` on with this key.
pub open spec fn first_equal(keys: Seq<Option<KeyView>>, key: Option<KeyView>, from: int) -> int
    decreases keys.len() - from,
{
    if from >= keys.len() || keys[from] == key {
        from
    } else {
        first_equal(keys, key, from + 1)
    }
}

/// The first entry with the key of the entry at `i`; without a key, the entry
/// itself.
pub open spec fn first_like(keys: Seq<Option<KeyView>>, i: int) -> int {
    if keys[i] is None {
        i
    } else {
        first_equal(keys, keys[i], 0)
    }
}

proof fn lemma_first_equal(keys: Seq<Option<KeyView>>, from: int, i: int)
    requires
        0 <= from <= i < keys.len(),
    ensures
        from <= first_equal(keys, keys[i], from) <= i,
        keys[first_equal(keys, keys[i], from)] == keys[i],
        forall|k: int|
            from <= k < first_equal(keys, keys[i], from) ==> #[trigger] keys[k] != keys[i],
    decreases i - from,
{
    if keys[from] != keys[i] {
        lemma_first_equal(keys, from + 1, i);
    }
}

/// The first entry with a key has that key, and is its own first entry.
pub proof fn lemma_first_like(keys: Seq<Option<KeyView>>, i: int)
    requires
        0 <= i < keys.len(),
    ensures
        0 <= first_like(keys, i) <= i,
        keys[first_like(keys, i)] == keys[i],
        first_like(keys, first_like(keys, i)) == first_like(keys, i),
        forall|k: int|
            0 <= k < first_like(keys, i) && keys[i] is Some ==> #[trigger] keys[k] != keys[i],
{
    if keys[i] is Some {
        lemma_first_equal(keys, 0, i);
    }
}

/// Entries have the same first entry where they are one entry or have equal
/// keys.
pub proof fn lemma_first_like_same(keys: Seq<Option<KeyView>>, i: int, j: int)
    requires
        0 <= i < keys.len(),
        0 <= j < keys.len(),
    ensures
        first_like(keys, i) == first_like(keys, j) <==> (i == j || (keys[i] is Some && keys[i]
            == keys[j])),
{
    lemma_first_like(keys, i);
    lemma_first_like(keys, j);
}

fn same_key(a: &Option<Key>, b: &Key) -> (same: bool)
    ensures
        same == (a is Some && a->0@ == b@),
{
    match a {
        Some(a) => same_text(a.text.as_str(), b.text.as_str()) && a.id == b.id,
        None => false,
    }
}

/// A partition of the numbers below some bound. Each part is represented by
/// its least number.
#[derive(Debug)]
pub struct UnionFind {
    parent: Vec<usize>,
}

spec fn root(parent: Seq<usize>, i: int) -> int
    decreases i,
{
    if i < 0 || parent[i] >= i {
        i
    } else {
        root(parent, parent[i] as int)
    }
}

impl View for UnionFind {
    type V = Seq<int>;

    /// The representative of each number.
    closed spec fn view(&self) -> Seq<int> {
        Seq::new(self.parent@.len(), |i: int| root(self.parent@, i))
    }
}

/// The partition after the parts of `a` and `b` were joined.
pub open spec fn joined(parts: Seq<int>, a: int, b: int) -> Seq<int> {
    let (low, high) = if parts[a] < parts[b] {
        (parts[a], parts[b])
    } else {
        (parts[b], parts[a])
    };
    parts.map_values(
        |r: int|
            if r == high {
                low
            } else {
                r
            },
    )
}

spec fn pointing_down(parent: Seq<usize>) -> bool {
    forall|i: int| 0 <= i < parent.len() ==> #[trigger] parent[i] <= i
}

proof fn lemma_root(parent: Seq<usize>, i: int)
    requires
        pointing_down(parent),
        0 <= i < parent.len(),
    ensures
        0 <= root(parent, i) <= i,
        parent[root(parent, i)] == root(parent, i),
        root(parent, root(parent, i)) == root(parent, i),
        parent[i] <= i,
        parent[i] == i ==> root(parent, i) == i,
        parent[i] != i ==> root(parent, i) == root(parent, parent[i] as int),
    decreases i,
{
    if parent[i] < i {
        lemma_root(parent, parent[i] as int);
    }
}

/// Pointing a number at its root leaves all roots as they are.
proof fn lemma_shortcut(parent: Seq<usize>, at: int, to: usize, i: int)
    requires
        pointing_down(parent),
        0 <= at < parent.len(),
        to == root(parent, at),
        0 <= i < parent.len(),
    ensures
        root(parent.update(at, to), i) == root(parent, i),
    decreases i,
{
    let after = parent.update(at, to);
    lemma_root(parent, at);
    lemma_root(parent, i);
    if i == at {
        if to < at {
            lemma_root(parent, to as int);
            lemma_shortcut(parent, at, to, to as int);
        }
    } else if parent[i] < i {
        lemma_shortcut(parent, at, to, parent[i] as int);
    }
}

/// Pointing a root at a smaller one joins their parts.
proof fn lemma_join(parent: Seq<usize>, high: int, low: usize, i: int)
    requires
        pointing_down(parent),
        0 <= low < high < parent.len(),
        parent[high] == high,
        parent[low as int] == low,
        0 <= i < parent.len(),
    ensures
        root(parent.update(high, low), i) == (if root(parent, i) == high {
            low as int
        } else {
            root(parent, i)
        }),
    decreases i,
{
    let after = parent.update(high, low);
    lemma_root(parent, i);
    if i == high {
        lemma_join(parent, high, low, low as int);
        lemma_root(parent, low as int);
    } else if parent[i] < i {
        lemma_join(parent, high, low, parent[i] as int);
    }
}

impl UnionFind {
    /// Whether every number points at one that is not larger.
    pub closed spec fn wf(&self) -> bool {
        pointing_down(self.parent@)
    }

    /// The partition in which every number is on its own.
    pub fn new(len: usize) -> (unions: UnionFind)
        ensures
            unions.wf(),
            unions@ == Seq::new(len as nat, |i: int| i),
    {
        let mut parent: Vec<usize> = Vec::new();
        let mut i: usize = 0;
        while i < len
            invariant
                i <= len,
                parent@.len() == i,
                forall|j: int| 0 <= j < i ==> #[trigger] parent@[j] == j,
            decreases len - i,
        {
            parent.push(i);
            i += 1;
        }
        let unions = UnionFind { parent };
        assert(unions@ =~= Seq::new(len as nat, |i: int| i));
        unions
    }

    /// The representative of a number.
    pub fn find(&mut self, idx: usize) -> (found: usize)
        requires
            old(self).wf(),
            idx < old(self)@.len(),
        ensures
            final(self).wf(),
            final(self)@ == old(self)@,
            found == old(self)@[idx as int],
            found <= idx,
        decreases idx,
    {
        let parent = self.parent[idx];
        proof {
            lemma_root(self.parent@, idx as int);
        }
        if parent != idx {
            let ghost before = self.parent@;
            let found = self.find(parent);
            let ghost between = self.parent@;
            proof {
                assert(self@[idx as int] == old(self)@[idx as int]);
                assert(root(between, idx as int) == found);
            }
            self.parent.set(idx, found);
            proof {
                assert forall|i: int| 0 <= i < between.len() implies root(self.parent@, i) == root(
                    between,
                    i,
                ) by {
                    lemma_shortcut(between, idx as int, found, i);
                }
                assert forall|i: int| 0 <= i < between.len() implies #[trigger] root(between, i)
                    == root(before, i) by {
                    assert(Seq::new(between.len(), |i: int| root(between, i))[i] == old(self)@[i]);
                }
                assert(self@ =~= old(self)@);
            }
        }
        self.parent[idx]
    }

    /// Joins the parts of two numbers.
    pub fn union(&mut self, idx1: usize, idx2: usize)
        requires
            old(self).wf(),
            idx1 < old(self)@.len(),
            idx2 < old(self)@.len(),
        ensures
            final(self).wf(),
            final(self)@ == joined(old(self)@, idx1 as int, idx2 as int),
    {
        let root1 = self.find(idx1);
        let root2 = self.find(idx2);
        proof {
            lemma_root(self.parent@, idx1 as int);
            lemma_root(self.parent@, idx2 as int);
        }
        let ghost before = self.parent@;
        if root1 != root2 {
            let (low, high) = if root1 < root2 {
                (root1, root2)
            } else {
                (root2, root1)
            };
            self.parent.set(high, low);
            proof {
                assert forall|i: int| 0 <= i < before.len() implies #[trigger] root(
                    self.parent@,
                    i,
                ) == (if root(before, i) == high {
                    low as int
                } else {
                    root(before, i)
                }) by {
                    lemma_join(before, high as int, low, i);
                }
            }
        }
        proof {
            assert forall|i: int| 0 <= i < before.len() implies #[trigger] root(before, i)
                == old(self)@[i] by {
                assert(Seq::new(before.len(), |i: int| root(before, i))[i] == old(self)@[i]);
            }
            assert(self@ =~= joined(old(self)@, idx1 as int, idx2 as int));
        }
    }
}

/// The partition after the parts of entries with equal keys were joined.
pub open spec fn united(parts: Seq<int>, keys: Seq<Option<KeyView>>) -> Seq<int> {
    parts.map_values(|r: int| first_like(keys, r))
}

/// Joins entries that have equal keys, each with the first that has its key.
/// Only entries that represent their part may have one.
pub fn union_by_key(unions: &mut UnionFind, keys: &Vec<Option<Key>>)
    requires
        old(unions).wf(),
        old(unions)@.len() == keys@.len(),
        forall|i: int|
            0 <= i < keys@.len() ==> 0 <= #[trigger] old(unions)@[i] < keys@.len(),
        forall|i: int|
            0 <= i < keys@.len() && (#[trigger] keys@[i]) is Some ==> old(unions)@[i] == i,
    ensures
        final(unions).wf(),
        final(unions)@ == united(old(unions)@, key_views(keys@)),
{
    let ghost parts = unions@;
    let ghost texts = key_views(keys@);
    let ghost upto = |n: int|
        parts.map_values(
            |r: int|
                if r < n {
                    first_like(texts, r)
                } else {
                    r
                },
        );
    let n = keys.len();
    let mut i: usize = 0;
    assert(unions@ =~= upto(0));
    while i < n
        invariant
            i <= n == keys@.len() == texts.len() == parts.len(),
            unions.wf(),
            unions@.len() == n,
            unions@ == upto(i as int),
            texts == key_views(keys@),
            upto == |n: int|
                parts.map_values(
                    |r: int|
                        if r < n {
                            first_like(texts, r)
                        } else {
                            r
                        },
                ),
            forall|i: int| 0 <= i < n ==> 0 <= #[trigger] parts[i] < n,
            forall|i: int| 0 <= i < n && (#[trigger] keys@[i]) is Some ==> parts[i] == i,
        decreases n - i,
    {
        let ghost before = unions@;
        match &keys[i] {
            Some(key) => {
                let first = first_with_key(keys, key, i);
                proof {
                    lemma_first_like(texts, i as int);
                    assert(texts[first as int] == texts[i as int]);
                    assert(keys@[first as int] is Some);
                    assert(parts[first as int] == first);
                    lemma_first_like(texts, first as int);
                    assert(first_like(texts, first as int) == first);
                    assert(before[first as int] == first);
                    assert(before[i as int] == i);
                }
                unions.union(first, i);
                proof {
                    assert forall|x: int| 0 <= x < n implies #[trigger] unions@[x] == upto(
                        i + 1,
                    )[x] by {
                        let r = parts[x];
                        assert(0 <= r < n);
                        lemma_first_like(texts, r);
                        assert(before[x] == (if r < i {
                            first_like(texts, r)
                        } else {
                            r
                        }));
                    }
                    assert(unions@ =~= upto(i + 1));
                }
            },
            None => {
                proof {
                    assert(texts[i as int] is None);
                    assert(upto(i as int) =~= upto(i + 1));
                }
            },
        }
        i += 1;
    }
    assert(unions@ =~= united(parts, texts)) by {
        assert forall|x: int| 0 <= x < n implies #[trigger] unions@[x] == united(
            parts,
            texts,
        )[x] by {
            assert(0 <= parts[x] < n);
        }
    }
}

/// The first entry with the key of the entry at `i`.
fn first_with_key(keys: &Vec<Option<Key>>, key: &Key, i: usize) -> (first: usize)
    requires
        i < keys@.len(),
        keys@[i as int] == Some(*key),
    ensures
        first <= i,
        first == first_like(key_views(keys@), i as int),
{
    let ghost texts = key_views(keys@);
    proof {
        lemma_first_equal(texts, 0, i as int);
    }
    let mut first: usize = 0;
    while first < i
        invariant
            first <= i < keys@.len(),
            texts == key_views(keys@),
            texts[i as int] == Some(key@),
            first_equal(texts, texts[i as int], 0) == first_equal(
                texts,
                texts[i as int],
                first as int,
            ),
        decreases i - first,
    {
        if same_key(&keys[first], key) {
            return first;
        }
        first += 1;
    }
    first
}

/// Whether a position is out, or not represented by `r`.
pub open spec fn outside(parts: Seq<int>, out: Seq<bool>, r: int) -> spec_fn(int) -> bool {
    |i: int| out[i] || parts[i] != r
}

/// The members of the part that `r` represents, without those that are out.
pub open spec fn members(parts: Seq<int>, out: Seq<bool>, r: int) -> Seq<int> {
    kept_positions(parts.len(), outside(parts, out, r))
}

/// The members of a part are the positions that it represents and that are
/// not out, each once and in order.
pub proof fn lemma_members(parts: Seq<int>, out: Seq<bool>, r: int)
    ensures
        forall|k: int|
            0 <= k < members(parts, out, r).len() ==> {
                let i = #[trigger] members(parts, out, r)[k];
                0 <= i < parts.len() && !out[i] && parts[i] == r
            },
        forall|a: int, b: int|
            0 <= a < b < members(parts, out, r).len() ==> #[trigger] members(parts, out, r)[a]
                < #[trigger] members(parts, out, r)[b],
        forall|i: int|
            0 <= i < parts.len() && !out[i] && #[trigger] parts[i] == r ==> members(
                parts,
                out,
                r,
            ).contains(i),
{
    let gone = outside(parts, out, r);
    lemma_kept_positions(parts.len(), gone);
    assert forall|i: int| 0 <= i < parts.len() && !out[i] && #[trigger] parts[i] == r implies members(
        parts,
        out,
        r,
    ).contains(i) by {
        assert(!gone(i));
    }
}

/// What a list of indices stands for.
pub open spec fn positions(group: Seq<usize>) -> Seq<int> {
    group.map_values(|i: usize| i as int)
}

/// The parts, indexed by their representative. Entries that are out have none.
pub fn collect_groups(unions: &mut UnionFind, out: &Vec<bool>) -> (groups: Vec<Vec<usize>>)
    requires
        old(unions).wf(),
        old(unions)@.len() == out@.len(),
    ensures
        final(unions).wf(),
        final(unions)@ == old(unions)@,
        groups@.len() == out@.len(),
        forall|r: int|
            0 <= r < out@.len() ==> positions((#[trigger] groups@[r])@) == members(
                final(unions)@,
                out@,
                r,
            ),
{
    let ghost parts = unions@;
    let n = out.len();
    let mut groups: Vec<Vec<usize>> = Vec::new();
    while groups.len() < n
        invariant
            groups@.len() <= n,
            forall|r: int| 0 <= r < groups@.len() ==> (#[trigger] groups@[r])@.len() == 0,
        decreases n - groups.len(),
    {
        groups.push(Vec::new());
    }
    assert forall|r: int| 0 <= r < n implies positions((#[trigger] groups@[r])@) == kept_positions(
        0,
        outside(parts, out@, r),
    ) by {
        assert(positions(groups@[r]@) =~= Seq::empty());
    }
    let mut i: usize = 0;
    while i < n
        invariant
            i <= n == out@.len() == groups@.len() == parts.len(),
            unions.wf(),
            unions@ == parts,
            forall|r: int|
                0 <= r < n ==> positions((#[trigger] groups@[r])@) == kept_positions(
                    i as nat,
                    outside(parts, out@, r),
                ),
        decreases n - i,
    {
        let ghost before = groups@;
        if !out[i] {
            let found = unions.find(i);
            groups[found].push(i);
            proof {
                assert(positions(groups@[found as int]@) =~= positions(
                    before[found as int]@,
                ).push(i as int));
            }
        }
        proof {
            assert forall|r: int| 0 <= r < n implies positions((#[trigger] groups@[r])@)
                == kept_positions((i + 1) as nat, outside(parts, out@, r)) by {
                assert(positions(before[r]@) == kept_positions(
                    i as nat,
                    outside(parts, out@, r),
                ));
            }
        }
        i += 1;
    }
    groups
}

/// The entries at these positions.
pub open spec fn entries_at(dirs: Seq<DirView>, group: Seq<int>) -> Seq<DirView> {
    group.map_values(|i: int| dirs[i])
}

/// The member of a group that survives: going through the group, each member
/// that ranks higher than the one so far takes its place.
pub open spec fn top(dirs: Seq<DirView>, group: Seq<int>) -> int
    decreases group.len(),
{
    if group.len() <= 1 {
        group[0]
    } else {
        let before = top(dirs, group.drop_last());
        if dirs[group.last()].rank.greater(dirs[before].rank) {
            group.last()
        } else {
            before
        }
    }
}

/// The latest access of some entries.
pub open spec fn latest(dirs: Seq<DirView>) -> Epoch
    decreases dirs.len(),
{
    if dirs.len() == 0 {
        0
    } else {
        later(latest(dirs.drop_last()), dirs.last().last_accessed)
    }
}

/// The survivor of a group is a member of it.
pub proof fn lemma_top(dirs: Seq<DirView>, group: Seq<int>)
    requires
        group.len() > 0,
    ensures
        group.contains(top(dirs, group)),
    decreases group.len(),
{
    if group.len() > 1 {
        let before = group.drop_last();
        lemma_top(dirs, before);
        let k = before.index_of(top(dirs, before));
        assert(group[k] == top(dirs, before));
        assert(group[group.len() - 1] == group.last());
    } else {
        assert(group[0] == top(dirs, group));
    }
}

/// Whether these are the positions of entries.
pub open spec fn within(group: Seq<usize>, n: int) -> bool {
    forall|k: int| 0 <= k < group.len() ==> #[trigger] group[k] < n
}

/// The survivor of a group.
pub fn top_member(dirs: &[Dir], group: &Vec<usize>) -> (survivor: usize)
    requires
        group@.len() > 0,
        within(group@, dirs@.len() as int),
    ensures
        survivor == top(views(dirs@), positions(group@)),
        survivor < dirs@.len(),
        positions(group@).contains(survivor as int),
{
    let ghost all = positions(group@);
    let ghost entries = views(dirs@);
    let mut survivor: usize = group[0];
    let mut k: usize = 1;
    while k < group.len()
        invariant
            1 <= k <= group@.len() == all.len(),
            within(group@, dirs@.len() as int),
            all == positions(group@),
            entries == views(dirs@),
            survivor == top(entries, all.take(k as int)),
            survivor < dirs@.len(),
        decreases group.len() - k,
    {
        let idx = group[k];
        proof {
            let next = all.take(k + 1);
            assert(next.drop_last() =~= all.take(k as int));
            assert(next.last() == idx);
            assert(entries[idx as int].rank == dirs@[idx as int].rank);
            assert(entries[survivor as int].rank == dirs@[survivor as int].rank);
        }
        if dirs[idx].rank.exceeds(dirs[survivor].rank) {
            survivor = idx;
        }
        k += 1;
    }
    proof {
        assert(all.take(k as int) =~= all);
        lemma_top(entries, all);
    }
    survivor
}

/// The summed rank and the latest access of a group.
pub fn group_score(dirs: &[Dir], group: &Vec<usize>) -> (score: (Rank, Epoch))
    requires
        within(group@, dirs@.len() as int),
    ensures
        score.0 == total_rank(entries_at(views(dirs@), positions(group@))),
        score.1 == latest(entries_at(views(dirs@), positions(group@))),
{
    let ghost entries = entries_at(views(dirs@), positions(group@));
    let mut rank = Rank::from_bits(SIGN);
    let mut last_accessed: Epoch = 0;
    let mut k: usize = 0;
    assert(entries.take(0) =~= Seq::empty());
    while k < group.len()
        invariant
            k <= group@.len() == entries.len(),
            within(group@, dirs@.len() as int),
            entries == entries_at(views(dirs@), positions(group@)),
            rank == total_rank(entries.take(k as int)),
            last_accessed == latest(entries.take(k as int)),
        decreases group.len() - k,
    {
        let dir = &dirs[group[k]];
        proof {
            let next = entries.take(k + 1);
            assert(next.drop_last() =~= entries.take(k as int));
            assert(next.last() == dir@);
        }
        rank = rank.plus(dir.rank);
        if last_accessed < dir.last_accessed {
            last_accessed = dir.last_accessed;
        }
        k += 1;
    }
    assert(entries.take(k as int) =~= entries);
    (rank, last_accessed)
}

/// Whether another selected entry has a path with the same folding.
pub open spec fn has_twin(dirs: Seq<DirView>, selected: Seq<bool>, i: int) -> bool {
    exists|j: int|
        0 <= j < dirs.len() && j != i && #[trigger] selected[j] && folded(dirs[j].path) == folded(
            dirs[i].path,
        )
}

/// Which entries are selected and share the folding of their path with another
/// one that is.
pub fn with_twin(dirs: &[Dir], selected: &Vec<bool>) -> (twins: Vec<bool>)
    requires
        selected@.len() == dirs@.len(),
    ensures
        twins@ == Seq::new(
            dirs@.len(),
            |i: int| selected@[i] && has_twin(views(dirs@), selected@, i),
        ),
{
    let n = dirs.len();
    let ghost entries = views(dirs@);
    let mut keys: Vec<String> = Vec::new();
    let mut i: usize = 0;
    while i < n
        invariant
            i <= n == dirs@.len(),
            entries == views(dirs@),
            keys@.len() == i,
            forall|j: int| 0 <= j < i ==> #[trigger] keys@[j]@ == folded(entries[j].path),
        decreases n - i,
    {
        assert(entries[i as int].path == dirs@[i as int].path@);
        keys.push(fold_key(dirs[i].path.as_str()));
        i += 1;
    }
    let mut twins: Vec<bool> = Vec::new();
    i = 0;
    while i < n
        invariant
            i <= n == entries.len() == selected@.len() == keys@.len(),
            forall|j: int| 0 <= j < n ==> #[trigger] keys@[j]@ == folded(entries[j].path),
            twins@.len() == i,
            forall|j: int|
                0 <= j < i ==> #[trigger] twins@[j] == (selected@[j] && has_twin(
                    entries,
                    selected@,
                    j,
                )),
        decreases n - i,
    {
        let mut found = false;
        let mut j: usize = 0;
        while selected[i] && !found && j < n
            invariant
                j <= n == entries.len() == selected@.len() == keys@.len(),
                i < n,
                forall|j: int| 0 <= j < n ==> #[trigger] keys@[j]@ == folded(entries[j].path),
                found ==> has_twin(entries, selected@, i as int),
                !found ==> forall|k: int|
                    0 <= k < j && k != i && #[trigger] selected@[k] ==> folded(entries[k].path)
                        != folded(entries[i as int].path),
            decreases n - j,
        {
            if j != i && selected[j] && same_text(keys[j].as_str(), keys[i].as_str()) {
                assert(selected@[j as int]);
                found = true;
            }
            j += 1;
        }
        twins.push(found && selected[i]);
        i += 1;
    }
    assert(twins@ =~= Seq::new(
        dirs@.len(),
        |i: int| selected@[i] && has_twin(views(dirs@), selected@, i),
    ));
    twins
}

/// The survivor of a group ranks highest, and of several that do it is the
/// first. Ranks that are not numbers do not compare.
pub proof fn survivor_is_the_first_of_the_highest(dirs: Seq<DirView>, group: Seq<int>) -> (place: int)
    requires
        group.len() > 0,
        forall|k: int| 0 <= k < group.len() ==> !dirs[#[trigger] group[k]].rank.is_nan(),
    ensures
        0 <= place < group.len(),
        group[place] == top(dirs, group),
        forall|k: int|
            0 <= k < group.len() ==> !dirs[#[trigger] group[k]].rank.greater(
                dirs[top(dirs, group)].rank,
            ),
        forall|k: int|
            0 <= k < place ==> dirs[top(dirs, group)].rank.greater(dirs[#[trigger] group[k]].rank),
    decreases group.len(),
{
    if group.len() == 1 {
        0
    } else {
        let front = group.drop_last();
        assert forall|k: int| 0 <= k < front.len() implies front[k] == group[k] by {}
        let place = survivor_is_the_first_of_the_highest(dirs, front);
        assert(group[group.len() - 1] == group.last());
        if dirs[group.last()].rank.greater(dirs[top(dirs, front)].rank) {
            assert forall|k: int| 0 <= k < group.len() - 1 implies dirs[group.last()].rank.greater(
                dirs[#[trigger] group[k]].rank,
            ) by {
                assert(!dirs[front[k]].rank.greater(dirs[top(dirs, front)].rank));
            }
            group.len() - 1
        } else {
            assert forall|k: int| 0 <= k < group.len() implies !dirs[#[trigger] group[k]].rank.greater(
                dirs[top(dirs, group)].rank,
            ) by {
                if k < front.len() {
                    assert(!dirs[front[k]].rank.greater(dirs[top(dirs, front)].rank));
                }
            }
            assert forall|k: int| 0 <= k < place implies dirs[top(dirs, group)].rank.greater(
                dirs[#[trigger] group[k]].rank,
            ) by {
                assert(dirs[top(dirs, front)].rank.greater(dirs[front[k]].rank));
            }
            place
        }
    }
}

/// The latest access of entries is that of one of them, and none is later.
pub proof fn latest_access_is_kept(dirs: Seq<DirView>) -> (place: int)
    requires
        dirs.len() > 0,
    ensures
        0 <= place < dirs.len(),
        dirs[place].last_accessed == latest(dirs),
        forall|i: int| 0 <= i < dirs.len() ==> (#[trigger] dirs[i]).last_accessed <= latest(dirs),
    decreases dirs.len(),
{
    let front = dirs.drop_last();
    let last = dirs.len() - 1;
    assert(dirs[last] == dirs.last());
    if front.len() == 0 {
        assert(latest(front) == 0);
        last
    } else {
        let place = latest_access_is_kept(front);
        assert forall|i: int| 0 <= i < dirs.len() implies (#[trigger] dirs[i]).last_accessed
            <= latest(dirs) by {
            if i < last {
                assert(front[i] == dirs[i]);
            }
        }
        if latest(front) >= dirs.last().last_accessed {
            place
        } else {
            last
        }
    }
}

/// Joining two entries makes one part of theirs, which the first of its members
/// represents, and leaves all other parts as they are.
pub proof fn joining_makes_one_part(parts: Seq<int>, a: int, b: int, i: int, j: int)
    requires
        0 <= a < parts.len(),
        0 <= b < parts.len(),
        0 <= i < parts.len(),
        0 <= j < parts.len(),
    ensures
        joined(parts, a, b).len() == parts.len(),
        joined(parts, a, b)[i] == joined(parts, a, b)[j] <==> parts[i] == parts[j] || ((parts[i]
            == parts[a] || parts[i] == parts[b]) && (parts[j] == parts[a] || parts[j]
            == parts[b])),
        parts[i] != parts[a] && parts[i] != parts[b] ==> joined(parts, a, b)[i] == parts[i],
        joined(parts, a, b)[a] <= parts[a],
        joined(parts, a, b)[a] <= parts[b],
        joined(parts, a, b)[a] == parts[a] || joined(parts, a, b)[a] == parts[b],
{
}

/// A further member takes the place of the survivor only if it ranks higher.
/// What is not a number ranks neither higher nor lower.
pub proof fn only_a_higher_rank_takes_the_place(dirs: Seq<DirView>, group: Seq<int>, next: int)
    requires
        group.len() > 0,
    ensures
        ({
            let before = top(dirs, group);
            let a = dirs[before].rank;
            let b = dirs[next].rank;
            top(dirs, group.push(next)) == (if !a.is_nan() && !b.is_nan() && b.value()
                > a.value() {
                next
            } else {
                before
            })
        }),
{
    assert(group.push(next).drop_last() =~= group);
}

/// Uniting by keys makes one part of those whose representatives have the same
/// key, which the first of these represents, and leaves all other parts as they
/// are.
pub proof fn uniting_makes_one_part_of_each_key(
    parts: Seq<int>,
    keys: Seq<Option<KeyView>>,
    i: int,
    j: int,
)
    requires
        0 <= i < parts.len(),
        0 <= j < parts.len(),
        0 <= parts[i] < keys.len(),
        0 <= parts[j] < keys.len(),
    ensures
        united(parts, keys).len() == parts.len(),
        united(parts, keys)[i] == united(parts, keys)[j] <==> parts[i] == parts[j] || (
        keys[parts[i]] is Some && keys[parts[i]] == keys[parts[j]]),
        keys[parts[i]] is None ==> united(parts, keys)[i] == parts[i],
        united(parts, keys)[i] <= parts[i],
        keys[united(parts, keys)[i]] == keys[parts[i]],
{
    lemma_first_like(keys, parts[i]);
    lemma_first_like_same(keys, parts[i], parts[j]);
}

/// The keys of entries are seen as they are held, and so are positions.
pub proof fn keys_are_seen_as_they_are(keys: Seq<Option<Key>>, group: Seq<usize>)
    ensures
        key_views(keys).len() == keys.len(),
        forall|i: int|
            0 <= i < keys.len() ==> match keys[i] {
                Some(key) => (#[trigger] key_views(keys)[i]) is Some && key_views(keys)[i]->0.text
                    == key.text@ && key_views(keys)[i]->0.id == key.id,
                None => key_views(keys)[i] is None,
            },
        positions(group).len() == group.len(),
        forall|k: int| 0 <= k < group.len() ==> #[trigger] positions(group)[k] == group[k],
{
}

} // verus!
