//! What holds of the operations on a database, whatever it holds.

use vstd::prelude::*;
use vstd::utf8::encode_utf8;

use crate::codec::{encoded_row, encoded_rows, le_bytes, lemma_le_bounds, lemma_le_injective};
use crate::codec::RowView;
use crate::db::{aged, aging_factor, deduplicated, first_with, is_faint, is_first_with, scaled};
use crate::db::{reads, storable, stored, stored_entries_are_read_back, stored_rows};
use crate::db::{total_rank, with_added};
use crate::db::{DatabaseError, VERSION, VERSION_SIZE};
use crate::dir::{Dir, DirView, Epoch};
use crate::merge::{absorbed, combined, lemma_absorbed_path, is_victim, kept_positions};
use crate::merge::{lemma_kept_at_positions, lemma_kept_is_filter, lemma_kept_positions};
use crate::merge::{lemma_merged, lemma_run_end, lemma_runs_apart, lemma_runs_cover};
use crate::merge::{lemma_runs_valid, lemma_without_keeps_rest, kept, merged, range, run_end, runs};
use crate::merge::swap_removed;
use crate::rank::Rank;
use crate::sort::{leq_of, lemma_sort_ascending, lemma_sort_keeps_class, stable_sort};
use crate::sort::Ordered;
use crate::text::{lemma_text_leq_order, text_leq};

verus! {

/// Whether no two entries have the same path.
pub open spec fn paths_apart(dirs: Seq<DirView>) -> bool {
    forall|i: int, j: int|
        0 <= i < j < dirs.len() ==> (#[trigger] dirs[i]).path != (#[trigger] dirs[j]).path
}

/// The entries with this path, in their order.
pub open spec fn with_path(dirs: Seq<DirView>, path: Seq<char>) -> Seq<DirView> {
    dirs.filter(|dir: DirView| dir.path == path)
}

proof fn lemma_filter_segment<T>(s: Seq<T>, class: spec_fn(T) -> bool, p: int, end: int)
    requires
        0 <= p <= end <= s.len(),
        forall|q: int| 0 <= q < s.len() ==> class(#[trigger] s[q]) == (p <= q < end),
    ensures
        s.filter(class) == s.subrange(p, end),
    decreases s.len(),
{
    broadcast use Seq::lemma_filter_push;
    broadcast use Seq::lemma_filter_len;

    if s.len() > 0 {
        let front = s.drop_last();
        assert(s =~= front.push(s.last()));
        assert(s.last() == s[s.len() - 1]);
        assert forall|q: int| 0 <= q < front.len() implies front[q] == s[q] by {}
        if class(s.last()) {
            lemma_filter_segment(front, class, p, end - 1);
            assert(s.subrange(p, end) =~= front.subrange(p, end - 1).push(s.last()));
        } else if p == end {
            lemma_filter_segment(front, class, 0, 0);
            assert(s.subrange(p, end) =~= front.subrange(0, 0));
        } else {
            lemma_filter_segment(front, class, p, end);
            assert(s.subrange(p, end) =~= front.subrange(p, end));
        }
    } else {
        assert(s.filter(class).len() == 0);
        assert(s.filter(class) =~= s.subrange(p, end));
    }
}

/// An entry of a sorted list that is not merged into another: what it becomes,
/// and that no other such entry has its path.
proof fn lemma_run_start(dirs: Seq<DirView>, sorted: Seq<DirView>, p: int)
    requires
        sorted == stable_sort(dirs, leq_of::<Dir>()),
        0 <= p < sorted.len(),
        !is_victim(runs(sorted, 0), p),
    ensures
        ({
            let class = with_path(dirs, sorted[p].path);
            &&& class.len() > 0
            &&& combined(sorted, runs(sorted, 0), p) == absorbed(class[0], class.drop_first())
        }),
        forall|q: int|
            p < q < sorted.len() && !is_victim(runs(sorted, 0), q) ==> (#[trigger] sorted[q]).path
                != sorted[p].path,
{
    let groups = runs(sorted, 0);
    let path = sorted[p].path;
    let same = |dir: DirView| dir.path == path;
    let end = run_end(sorted, p, p + 1);
    Dir::leq_is_total_preorder();
    lemma_text_leq_order();
    lemma_sort_ascending(dirs, leq_of::<Dir>());
    lemma_run_end(sorted, p, p + 1);
    lemma_runs_cover(sorted, 0, p);
    assert forall|a: DirView, b: DirView| #[trigger] same(a) && #[trigger] same(b) implies (leq_of::<
        Dir,
    >())(a, b) by {
        assert(text_leq(a.path, a.path));
    }
    lemma_sort_keeps_class(dirs, leq_of::<Dir>(), same);
    assert forall|q: int| 0 <= q < sorted.len() implies same(#[trigger] sorted[q]) == (p <= q
        < end) by {
        if q < p && sorted[q].path == path {
            assert(text_leq(sorted[p - 1].path, sorted[p].path));
            if q < p - 1 {
                assert(text_leq(sorted[q].path, sorted[p - 1].path));
            }
        }
        if q >= end && sorted[q].path == path {
            assert(text_leq(sorted[p].path, sorted[end].path));
            if q > end {
                assert(text_leq(sorted[end].path, sorted[q].path));
            }
        }
    }
    lemma_filter_segment(sorted, same, p, end);
    let class = with_path(dirs, path);
    assert(class == sorted.subrange(p, end));
    assert(class[0] == sorted[p]);
    lemma_runs_apart(sorted, 0);
    if end > p + 1 {
        let g = choose|g: int| 0 <= g < groups.len() && (#[trigger] groups[g]).0 == p;
        let group = groups[g];
        assert(group.1 == range(p + 1, end));
        assert(group.1.map_values(|i: int| sorted[i]) =~= class.drop_first());
    } else {
        assert(class.drop_first() =~= Seq::empty());
        if exists|g: int| 0 <= g < groups.len() && (#[trigger] groups[g]).0 == p {
            let g = choose|g: int| 0 <= g < groups.len() && (#[trigger] groups[g]).0 == p;
            assert(groups[g].1.len() > 0);
        }
    }
    assert forall|q: int| p < q < sorted.len() && !is_victim(groups, q) implies (
    #[trigger] sorted[q]).path != path by {
        lemma_runs_cover(sorted, 0, q);
        if q < end {
            assert(sorted[q - 1].path == path);
        }
        assert(same(sorted[q]) == (p <= q < end));
    }
}

/// After `dedup` every path that was there is there, and exactly once. Its
/// entry has the summed rank and the latest access of all the entries that
/// had the path.
pub proof fn dedup_leaves_one_entry_per_path(dirs: Seq<DirView>)
    ensures
        paths_apart(deduplicated(dirs)),
        forall|i: int|
            0 <= i < deduplicated(dirs).len() ==> {
                let dir = #[trigger] deduplicated(dirs)[i];
                let class = with_path(dirs, dir.path);
                class.len() > 0 && dir == absorbed(class[0], class.drop_first())
            },
        forall|j: int|
            0 <= j < dirs.len() ==> exists|i: int|
                0 <= i < deduplicated(dirs).len() && (#[trigger] deduplicated(dirs)[i]).path == (
                #[trigger] dirs[j]).path,
{
    broadcast use vstd::seq_lib::group_to_multiset_ensures;

    let sorted = stable_sort(dirs, leq_of::<Dir>());
    let groups = runs(sorted, 0);
    let gone = |i: int| is_victim(groups, i);
    let whole = merged(sorted, groups);
    let result = deduplicated(dirs);
    let rest = kept(whole, gone);
    let at = kept_positions(sorted.len(), gone);
    lemma_runs_valid(sorted);
    lemma_merged(sorted, groups);
    lemma_without_keeps_rest(whole, gone);
    lemma_kept_at_positions(whole, gone);
    lemma_kept_positions(sorted.len(), gone);
    assert(result.to_multiset() == rest.to_multiset());
    // What is kept has the path that it had.
    assert forall|k: int| 0 <= k < rest.len() implies {
        let dir = #[trigger] rest[k];
        let class = with_path(dirs, dir.path);
        &&& dir.path == sorted[at[k]].path
        &&& class.len() > 0
        &&& dir == absorbed(class[0], class.drop_first())
    } by {
        lemma_run_start(dirs, sorted, at[k]);
        let class = with_path(dirs, sorted[at[k]].path);
        lemma_absorbed_path(class[0], class.drop_first());
        lemma_filter_holds(dirs, |dir: DirView| dir.path == sorted[at[k]].path, 0);
    }
    assert forall|a: int, b: int| 0 <= a < b < rest.len() implies (#[trigger] rest[a]).path != (
    #[trigger] rest[b]).path by {
        lemma_run_start(dirs, sorted, at[a]);
        assert(at[a] < at[b]);
        assert(!gone(at[b]));
        assert(sorted[at[b]].path != sorted[at[a]].path);
    }
    assert forall|i: int| 0 <= i < result.len() implies rest.contains(#[trigger] result[i]) by {
        assert(result.to_multiset().count(result[i]) > 0);
    }
    assert forall|i: int| 0 <= i < result.len() implies {
        let dir = #[trigger] result[i];
        let class = with_path(dirs, dir.path);
        class.len() > 0 && dir == absorbed(class[0], class.drop_first())
    } by {
        let k = rest.index_of(result[i]);
        assert(rest[k] == result[i]);
    }
    assert(rest.no_duplicates()) by {
        assert forall|a: int, b: int| 0 <= a < rest.len() && 0 <= b < rest.len() && a
            != b implies rest[a] != rest[b] by {
            if a < b {
                assert(rest[a].path != rest[b].path);
            } else {
                assert(rest[b].path != rest[a].path);
            }
        }
    }
    rest.lemma_multiset_has_no_duplicates();
    result.lemma_multiset_has_no_duplicates_conv();
    assert(result.no_duplicates());
    assert forall|i: int, j: int| 0 <= i < j < result.len() implies (#[trigger] result[i]).path
        != (#[trigger] result[j]).path by {
        let a = rest.index_of(result[i]);
        let b = rest.index_of(result[j]);
        assert(rest[a] == result[i] && rest[b] == result[j]);
        if a < b {
            assert(rest[a].path != rest[b].path);
        } else {
            assert(rest[b].path != rest[a].path);
        }
    }
    assert forall|j: int| 0 <= j < dirs.len() implies exists|i: int|
        0 <= i < result.len() && (#[trigger] result[i]).path == (#[trigger] dirs[j]).path by {
        crate::sort::lemma_sort_permutes(dirs, leq_of::<Dir>());
        assert(dirs.to_multiset().count(dirs[j]) > 0);
        assert(sorted.to_multiset().count(dirs[j]) > 0);
        assert(sorted.contains(dirs[j]));
        let p = lemma_start_of_run(sorted, sorted.index_of(dirs[j]));
        assert(!gone(p));
        assert(at.contains(p));
        let k = at.index_of(p);
        assert(rest[k].path == sorted[p].path);
        assert(rest.to_multiset().count(rest[k]) > 0);
        assert(result.to_multiset().count(rest[k]) > 0);
        assert(result.contains(rest[k]));
        let i = result.index_of(rest[k]);
        assert(result[i].path == dirs[j].path);
    }
}

proof fn lemma_filter_holds<T>(s: Seq<T>, class: spec_fn(T) -> bool, i: int)
    requires
        0 <= i < s.filter(class).len(),
    ensures
        class(s.filter(class)[i]),
        s.contains(s.filter(class)[i]),
{
    broadcast use Seq::lemma_filter_pred;
    broadcast use Seq::lemma_filter_contains_rev;

    assert(s.filter(class).contains(s.filter(class)[i]));
}

/// The first entry of the run that an entry is in.
proof fn lemma_start_of_run(dirs: Seq<DirView>, q: int) -> (p: int)
    requires
        0 <= q < dirs.len(),
    ensures
        0 <= p <= q,
        dirs[p].path == dirs[q].path,
        !is_victim(runs(dirs, 0), p),
    decreases q,
{
    lemma_runs_cover(dirs, 0, q);
    if q > 0 && dirs[q - 1].path == dirs[q].path {
        lemma_start_of_run(dirs, q - 1)
    } else {
        q
    }
}

/// Aging removes exactly the entries whose scaled rank is below one, and
/// scales all others by the same factor.
pub proof fn aging_keeps_the_entries_that_stay_at_one(dirs: Seq<DirView>, max_age: Rank)
    requires
        total_rank(dirs).greater(max_age),
    ensures
        aged(dirs, max_age).to_multiset() == scaled(dirs, aging_factor(dirs, max_age)).filter(
            |dir: DirView| !is_faint(dir),
        ).to_multiset(),
{
    let smaller = scaled(dirs, aging_factor(dirs, max_age));
    let drop = |dir: DirView| is_faint(dir);
    let gone = |i: int| is_faint(smaller[i]);
    lemma_without_keeps_rest(smaller, gone);
    lemma_kept_is_filter(smaller, smaller.len(), drop);
    assert(smaller.take(smaller.len() as int) =~= smaller);
    assert(gone =~= |i: int| drop(smaller[i]));
    assert((|dir: DirView| !drop(dir)) =~= |dir: DirView| !is_faint(dir));
}

/// Adding keeps paths apart, and the path that was added is there.
pub proof fn adding_keeps_paths_apart(
    dirs: Seq<DirView>,
    path: Seq<char>,
    by: Rank,
    now: Epoch,
    touch: bool,
)
    requires
        paths_apart(dirs),
    ensures
        paths_apart(with_added(dirs, path, by, now, touch)),
        first_with(with_added(dirs, path, by, now, touch), path) is Some,
{
    let after = with_added(dirs, path, by, now, touch);
    match first_with(dirs, path) {
        Some(i) => {
            assert(is_first_with(dirs, path, i));
            assert(is_first_with(after, path, i)) by {
                assert forall|j: int| 0 <= j < i implies #[trigger] after[j].path != path by {
                    assert(dirs[j].path != path);
                }
            }
            assert forall|a: int, b: int| 0 <= a < b < after.len() implies (
            #[trigger] after[a]).path != (#[trigger] after[b]).path by {
                assert(dirs[a].path != dirs[b].path);
            }
        },
        None => {
            lemma_not_there(dirs, path);
            assert(after[dirs.len() as int].path == path);
            assert(is_first_with(after, path, dirs.len() as int)) by {
                assert forall|j: int| 0 <= j < dirs.len() implies #[trigger] after[j].path
                    != path by {
                    assert(dirs[j].path != path);
                }
            }
            assert forall|a: int, b: int| 0 <= a < b < after.len() implies (
            #[trigger] after[a]).path != (#[trigger] after[b]).path by {
                if b < dirs.len() {
                    assert(dirs[a].path != dirs[b].path);
                } else {
                    assert(dirs[a].path != path);
                }
            }
        },
    }
}

/// Where there is no first entry with a path, there is none at all.
proof fn lemma_not_there(dirs: Seq<DirView>, path: Seq<char>)
    requires
        first_with(dirs, path) is None,
    ensures
        forall|j: int| 0 <= j < dirs.len() ==> #[trigger] dirs[j].path != path,
{
    assert forall|j: int| 0 <= j < dirs.len() implies #[trigger] dirs[j].path != path by {
        if dirs[j].path == path {
            lemma_first_exists(dirs, path, j);
        }
    }
}

/// Where an entry has a path, there is a first one.
pub proof fn lemma_first_exists(dirs: Seq<DirView>, path: Seq<char>, j: int)
    requires
        0 <= j < dirs.len(),
        dirs[j].path == path,
    ensures
        exists|i: int| is_first_with(dirs, path, i),
    decreases j,
{
    if !is_first_with(dirs, path, j) {
        let k = choose|k: int| 0 <= k < j && #[trigger] dirs[k].path == path;
        lemma_first_exists(dirs, path, k);
    }
}

/// Where paths are apart, removing a path leaves exactly the entries with
/// other paths.
pub proof fn removing_leaves_the_other_paths(dirs: Seq<DirView>, i: int)
    requires
        paths_apart(dirs),
        0 <= i < dirs.len(),
    ensures
        paths_apart(swap_removed(dirs, i)),
        first_with(swap_removed(dirs, i), dirs[i].path) is None,
        forall|j: int|
            0 <= j < dirs.len() && j != i ==> swap_removed(dirs, i).contains(#[trigger] dirs[j]),
        forall|j: int|
            0 <= j < swap_removed(dirs, i).len() ==> dirs.contains(
                #[trigger] swap_removed(dirs, i)[j],
            ),
{
    let after = swap_removed(dirs, i);
    let last = dirs.len() - 1;
    assert forall|j: int| 0 <= j < after.len() implies (#[trigger] after[j]) == dirs[if j == i {
        last
    } else {
        j
    }] by {}
    assert forall|a: int, b: int| 0 <= a < b < after.len() implies (#[trigger] after[a]).path != (
    #[trigger] after[b]).path by {
        if a == i {
            assert(dirs[b].path != dirs[last].path);
        } else if b == i {
            assert(dirs[a].path != dirs[last].path);
        } else {
            assert(dirs[a].path != dirs[b].path);
        }
    }
    if first_with(after, dirs[i].path) is Some {
        let j = choose|j: int| is_first_with(after, dirs[i].path, j);
        assert(is_first_with(after, dirs[i].path, j));
        if j == i {
            assert(dirs[i].path != dirs[last].path);
        } else if j < i {
            assert(dirs[j].path != dirs[i].path);
        } else {
            assert(dirs[i].path != dirs[j].path);
        }
    }
    assert forall|j: int| 0 <= j < dirs.len() && j != i implies after.contains(
        #[trigger] dirs[j],
    ) by {
        if j == last {
            assert(after[i] == dirs[j]);
        } else {
            assert(after[j] == dirs[j]);
        }
    }
}

/// Reading what was written succeeds, and gives back exactly the entries that
/// were written: no error applies to it. The bytes begin with the version.
pub proof fn what_is_written_is_read_back(
    dirs: Seq<DirView>,
    read: Result<Seq<DirView>, DatabaseError>,
)
    requires
        storable(dirs),
        reads(stored(dirs), read),
    ensures
        read == Ok::<Seq<DirView>, DatabaseError>(dirs),
        stored(dirs).take(4) == seq![3u8, 0u8, 0u8, 0u8],
{
    let version = le_bytes(VERSION as nat, 4);
    lemma_le_bounds();
    lemma_le_injective(VERSION as nat, VERSION as nat, 4);
    assert(stored(dirs).take(VERSION_SIZE as int) =~= version);
    match read {
        Ok(found) => {
            stored_entries_are_read_back(dirs, found);
        },
        Err(DatabaseError::UnsupportedVersion { got }) => {
            lemma_le_injective(VERSION as nat, got as nat, 4);
        },
        Err(_) => {
            assert(stored(dirs) == stored(dirs));
        },
    }
    reveal_with_fuel(le_bytes, 5);
    assert(version =~= seq![3u8, 0u8, 0u8, 0u8]);
}

/// Storing one entry more changes the number of entries, and puts the entry
/// behind the others: the length of its path, the path in UTF-8, its rank and its
/// access, all numbers in eight bytes.
#[verifier::rlimit(40)]
pub proof fn entries_are_stored_one_after_the_other(dirs: Seq<DirView>, dir: DirView)
    ensures
        stored(dirs.push(dir)) == stored(dirs).take(4) + le_bytes(dirs.len() + 1, 8) + stored(
            dirs,
        ).skip(12) + le_bytes(encode_utf8(dir.path).len(), 8) + encode_utf8(dir.path) + le_bytes(
            dir.rank.bits as nat,
            8,
        ) + le_bytes(dir.last_accessed as nat, 8),
{
    let version = le_bytes(VERSION as nat, 4);
    let rows = stored_rows(dirs);
    let row = (dir.path, dir.rank.bits, dir.last_accessed);
    lemma_le_injective(VERSION as nat, VERSION as nat, 4);
    lemma_le_length(VERSION as nat, 4);
    lemma_le_length(dirs.len(), 8);
    lemma_rows_push(rows, row);
    assert(stored_rows(dirs.push(dir)) =~= rows.push(row));
    assert(stored(dirs).take(4) =~= version);
    assert(stored(dirs).skip(12) =~= encoded_rows(rows));
    lemma_regrouped(
        version,
        le_bytes(dirs.len() + 1, 8),
        encoded_rows(rows),
        le_bytes(encode_utf8(dir.path).len(), 8),
        encode_utf8(dir.path),
        le_bytes(dir.rank.bits as nat, 8),
        le_bytes(dir.last_accessed as nat, 8),
    );
}

proof fn lemma_regrouped(
    a: Seq<u8>,
    b: Seq<u8>,
    c: Seq<u8>,
    d: Seq<u8>,
    e: Seq<u8>,
    f: Seq<u8>,
    g: Seq<u8>,
)
    ensures
        a + (b + (c + (d + e + f + g))) == a + b + c + d + e + f + g,
{
    assert(a + (b + (c + (d + e + f + g))) =~= a + b + c + d + e + f + g);
}

/// Where there is no entry, the version and a number of zero are stored.
pub proof fn no_entries_are_stored_in_twelve_bytes()
    ensures
        stored(Seq::empty()) == seq![3u8, 0, 0, 0, 0, 0, 0, 0, 0, 0, 0, 0],
{
    reveal_with_fuel(le_bytes, 9);
    assert(stored_rows(Seq::empty()) =~= Seq::empty());
    assert(le_bytes(3, 4) =~= seq![3u8, 0, 0, 0]);
    assert(le_bytes(0, 8) =~= seq![0u8, 0, 0, 0, 0, 0, 0, 0]);
    assert(stored(Seq::empty()) =~= seq![3u8, 0, 0, 0, 0, 0, 0, 0, 0, 0, 0, 0]);
}

proof fn lemma_le_length(number: nat, count: nat)
    ensures
        le_bytes(number, count).len() == count,
    decreases count,
{
    if count > 0 {
        lemma_le_length(number / 256, (count - 1) as nat);
    }
}

proof fn lemma_rows_push(rows: Seq<RowView>, row: RowView)
    ensures
        encoded_rows(rows.push(row)) == encoded_rows(rows) + encoded_row(row),
    decreases rows.len(),
{
    if rows.len() > 0 {
        lemma_rows_push(rows.drop_first(), row);
        assert(rows.push(row).drop_first() =~= rows.drop_first().push(row));
        assert(encoded_rows(rows.push(row)) =~= encoded_rows(rows) + encoded_row(row));
    } else {
        assert(rows.push(row).drop_first() =~= Seq::empty());
        assert(encoded_rows(Seq::<RowView>::empty()) == Seq::<u8>::empty());
        assert(rows =~= Seq::empty());
        assert(encoded_rows(rows.push(row)) =~= encoded_rows(rows) + encoded_row(row));
    }
}

/// Bytes that cannot be read are told apart by their beginning: there are fewer
/// than four, or the first four are the number of another version, or they are
/// that of the supported one.
#[verifier::rlimit(40)]
pub proof fn errors_tell_what_is_wrong(
    bytes: Seq<u8>,
    read: Result<Seq<DirView>, DatabaseError>,
)
    requires
        reads(bytes, read),
    ensures
        match read {
            Ok(dirs) => bytes.len() >= 12 && bytes.take(4) == seq![3u8, 0, 0, 0],
            Err(DatabaseError::Corrupted) => bytes.len() < 4,
            Err(DatabaseError::UnsupportedVersion { got }) => bytes.len() >= 4 && got == bytes[0]
                + 256 * bytes[1] + 65536 * bytes[2] + 16777216 * bytes[3] && got != 3,
            Err(DatabaseError::Malformed { .. }) => bytes.len() >= 4 && bytes.take(4)
                == seq![3u8, 0, 0, 0],
            Err(DatabaseError::Unwritable) => false,
        },
{
    reveal_with_fuel(le_bytes, 5);
    assert(le_bytes(VERSION as nat, 4) =~= seq![3u8, 0, 0, 0]);
    match read {
        Ok(dirs) => {
            lemma_le_length(VERSION as nat, 4);
            lemma_le_length(dirs.len(), 8);
            assert(stored_rows(dirs).len() == dirs.len());
            assert(stored(dirs).take(4) =~= le_bytes(VERSION as nat, 4));
        },
        Err(DatabaseError::UnsupportedVersion { got }) => {
            let n = got as nat;
            let head = bytes.take(4);
            assert(head == le_bytes(n, 4));
            assert(bytes[0] == head[0] && bytes[1] == head[1] && bytes[2] == head[2] && bytes[3]
                == head[3]);
            assert(head =~= seq![
                (n % 256) as u8,
                (n / 256 % 256) as u8,
                (n / 256 / 256 % 256) as u8,
                (n / 256 / 256 / 256 % 256) as u8,
            ]);
        },
        Err(_) => {},
    }
}

/// Bytes are read in one way: where they are those of entries there is no error,
/// and of two errors both say the same.
pub proof fn bytes_are_read_in_one_way(
    bytes: Seq<u8>,
    a: Result<Seq<DirView>, DatabaseError>,
    b: Result<Seq<DirView>, DatabaseError>,
)
    requires
        reads(bytes, a),
        reads(bytes, b),
    ensures
        a is Ok ==> b == a,
        a is Err && a->Err_0 is Corrupted ==> b is Err && b->Err_0 is Corrupted,
        a is Err && a->Err_0 is UnsupportedVersion ==> b == a,
        a is Err && a->Err_0 is Malformed ==> b is Err && b->Err_0 is Malformed,
{
    errors_tell_what_is_wrong(bytes, a);
    errors_tell_what_is_wrong(bytes, b);
    match a {
        Ok(dirs) => {
            what_is_written_is_read_back(dirs, b);
        },
        Err(_) => {
            if b is Ok {
                what_is_written_is_read_back(b->Ok_0, a);
            }
            if bytes.len() >= 4 {
                assert(bytes.take(4)[0] == bytes[0] && bytes.take(4)[1] == bytes[1]
                    && bytes.take(4)[2] == bytes[2] && bytes.take(4)[3] == bytes[3]);
            }
        },
    }
}

} // verus!
