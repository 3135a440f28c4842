//! The database: a list of directory entries, and whether it differs from
//! what is stored.

use vstd::prelude::*;
use vstd::slice::slice_subrange;
use vstd::utf8::encode_utf8;

use crate::codec::{encoded_list, get_number, get_rows, le_bytes, lemma_le_bounds};
use crate::codec::{lemma_le_injective, lemma_le_surjective, lemma_list_injective, put_number};
use crate::codec::{put_rows, row_views, rows_error, storable_rows, RowView};
use crate::dir::{Dir, DirView, Epoch, Scored};
use crate::merge::{absorbed, after_merge, groups_of, is_victim, lemma_no_runs, lemma_runs_valid};
use crate::merge::{merged, nothing_to_merge, range, run_end, runs, swap_removed, valid_groups};
use crate::merge::without;
use crate::rank::{Rank, NINE_TENTHS, ONE, SIGN};
use crate::sort::{leq_of, lemma_sort_map, sort, stable_sort, views};
use crate::text::{append_decimal, decimal, same_text};

verus! {

/// The directory entries, and whether they were changed since they were
/// stored.
#[derive(Debug)]
pub struct Database {
    dirs: Vec<Dir>,
    dirty: bool,
}

/// What a database holds.
#[verifier::ext_equal]
pub struct DatabaseView {
    pub dirs: Seq<DirView>,
    pub dirty: bool,
}

impl View for Database {
    type V = DatabaseView;

    closed spec fn view(&self) -> DatabaseView {
        DatabaseView { dirs: views(self.dirs@), dirty: self.dirty }
    }
}

/// Whether the first entry with this path is at `i`.
pub open spec fn is_first_with(dirs: Seq<DirView>, path: Seq<char>, i: int) -> bool {
    &&& 0 <= i < dirs.len()
    &&& dirs[i].path == path
    &&& forall|j: int| 0 <= j < i ==> #[trigger] dirs[j].path != path
}

/// The position of the first entry with this path.
pub open spec fn first_with(dirs: Seq<DirView>, path: Seq<char>) -> Option<int> {
    if exists|i: int| is_first_with(dirs, path, i) {
        Some(choose|i: int| is_first_with(dirs, path, i))
    } else {
        None
    }
}

proof fn lemma_first_with(dirs: Seq<DirView>, path: Seq<char>, i: int)
    requires
        is_first_with(dirs, path, i),
    ensures
        first_with(dirs, path) == Some(i),
{
    let chosen = choose|i: int| is_first_with(dirs, path, i);
    assert(is_first_with(dirs, path, chosen));
    if chosen < i {
        assert(dirs[chosen].path == path);
    } else if i < chosen {
        assert(dirs[i].path == path);
    }
}

proof fn lemma_first_with_none(dirs: Seq<DirView>, path: Seq<char>)
    requires
        forall|j: int| 0 <= j < dirs.len() ==> #[trigger] dirs[j].path != path,
    ensures
        first_with(dirs, path) is None,
{
    if exists|i: int| is_first_with(dirs, path, i) {
        let i = choose|i: int| is_first_with(dirs, path, i);
        assert(dirs[i].path == path);
    }
}

/// The entries after `by` was added to the rank of `path`. Where `touch` is
/// set, an entry that was there is marked as accessed now.
pub open spec fn with_added(
    dirs: Seq<DirView>,
    path: Seq<char>,
    by: Rank,
    now: Epoch,
    touch: bool,
) -> Seq<DirView> {
    match first_with(dirs, path) {
        Some(i) => dirs.update(
            i,
            DirView {
                path: dirs[i].path,
                rank: dirs[i].rank.sum(by).clamped(),
                last_accessed: if touch {
                    now
                } else {
                    dirs[i].last_accessed
                },
            },
        ),
        None => dirs.push(DirView { path, rank: by.clamped(), last_accessed: now }),
    }
}

/// The ranks of the entries, summed up in their order.
pub open spec fn total_rank(dirs: Seq<DirView>) -> Rank
    decreases dirs.len(),
{
    if dirs.len() == 0 {
        Rank { bits: SIGN }
    } else {
        total_rank(dirs.drop_last()).sum(dirs.last().rank)
    }
}

/// The factor that brings the total rank down to nine tenths of the limit.
pub open spec fn aging_factor(dirs: Seq<DirView>, max_age: Rank) -> Rank {
    Rank { bits: NINE_TENTHS }.product(max_age).quotient(total_rank(dirs))
}

/// The entries with their ranks multiplied by `factor`.
pub open spec fn scaled(dirs: Seq<DirView>, factor: Rank) -> Seq<DirView> {
    dirs.map_values(|dir: DirView| DirView { rank: dir.rank.product(factor), ..dir })
}

/// Whether the entry's rank is below one.
pub open spec fn is_faint(dir: DirView) -> bool {
    Rank { bits: ONE }.greater(dir.rank)
}

/// The entries after aging: where the total rank exceeds the limit, all ranks
/// are scaled down, and entries that fall below one are removed.
pub open spec fn aged(dirs: Seq<DirView>, max_age: Rank) -> Seq<DirView> {
    if total_rank(dirs).greater(max_age) {
        let smaller = scaled(dirs, aging_factor(dirs, max_age));
        without(smaller, smaller.len(), |i: int| is_faint(smaller[i]))
    } else {
        dirs
    }
}

/// The entries after those that share a path were merged: they are sorted by
/// path, and each run of equal paths is merged into its first entry.
pub open spec fn deduplicated(dirs: Seq<DirView>) -> Seq<DirView> {
    let sorted = stable_sort(dirs, leq_of::<Dir>());
    after_merge(sorted, runs(sorted, 0))
}

/// The order of entries by their scores.
pub open spec fn score_leq(now: Epoch) -> spec_fn(DirView, DirView) -> bool {
    |a: DirView, b: DirView| a.score(now).total_position() <= b.score(now).total_position()
}

/// The entries that rows of path, rank and access time stand for.
pub open spec fn rows_of(rows: Seq<(String, Rank, Epoch)>) -> Seq<DirView> {
    rows.map_values(
        |row: (String, Rank, Epoch)|
            DirView { path: row.0@, rank: row.1, last_accessed: row.2 },
    )
}

/// The version of the byte format.
pub const VERSION: u32 = 3;

/// The number of bytes that the version takes.
pub const VERSION_SIZE: usize = 4;

/// A maximum size for a stored database.
const MAX_SIZE: u64 = 33554432;

/// The rows in which entries are stored.
pub open spec fn stored_rows(dirs: Seq<DirView>) -> Seq<RowView> {
    dirs.map_values(|dir: DirView| (dir.path, dir.rank.bits, dir.last_accessed))
}

/// The bytes in which entries are stored: the version, then the rows.
pub open spec fn stored(dirs: Seq<DirView>) -> Seq<u8> {
    le_bytes(VERSION as nat, 4) + encoded_list(stored_rows(dirs))
}

/// Whether every length that is written with these entries fits the eight
/// bytes that it is written in. On a machine whose memory these entries fit,
/// it always does.
pub open spec fn storable(dirs: Seq<DirView>) -> bool {
    &&& dirs.len() <= u64::MAX
    &&& forall|i: int|
        0 <= i < dirs.len() ==> encode_utf8((#[trigger] dirs[i]).path).len() <= u64::MAX
}

/// Reading what was written gives back the entries that were written: bytes
/// that stand for entries stand for no others.
pub proof fn stored_entries_are_read_back(written: Seq<DirView>, read: Seq<DirView>)
    requires
        stored(written) == stored(read),
        storable(written),
        storable(read),
    ensures
        written == read,
{
    let a = stored_rows(written);
    let b = stored_rows(read);
    let version = le_bytes(VERSION as nat, 4);
    assert(encoded_list(a) =~= stored(written).skip(version.len() as int));
    assert(encoded_list(b) =~= stored(read).skip(version.len() as int));
    assert(storable_rows(a)) by {
        assert forall|i: int| 0 <= i < a.len() implies encode_utf8((#[trigger] a[i]).0).len()
            <= u64::MAX by {
            assert(a[i].0 == written[i].path);
        }
    }
    assert(storable_rows(b)) by {
        assert forall|i: int| 0 <= i < b.len() implies encode_utf8((#[trigger] b[i]).0).len()
            <= u64::MAX by {
            assert(b[i].0 == read[i].path);
        }
    }
    lemma_list_injective(a, b);
    assert(written.len() == a.len() && read.len() == b.len());
    assert forall|i: int| 0 <= i < written.len() implies written[i] == read[i] by {
        assert(a[i] == b[i]);
    }
    assert(written =~= read);
}

/// Whether bytes have the supported version, but those behind it are not the
/// bytes of any rows, with what is wrong with them where a machine word has
/// eight bytes.
pub open spec fn is_malformed(bytes: Seq<u8>, cause: Seq<char>) -> bool {
    &&& bytes.len() >= VERSION_SIZE
    &&& bytes.take(VERSION_SIZE as int) == le_bytes(VERSION as nat, 4)
    &&& forall|dirs: Seq<DirView>| #[trigger] stored(dirs) != bytes
    &&& usize::MAX == u64::MAX ==> cause == rows_error(bytes.skip(VERSION_SIZE as int))
}

/// Why a database could not be opened or stored.
#[derive(Debug, PartialEq, Eq)]
pub enum DatabaseError {
    /// There are too few bytes for a version.
    Corrupted,
    /// The version is not the supported one.
    UnsupportedVersion { got: u32 },
    /// The bytes after the version are not those of any rows. The cause tells
    /// what is wrong with them.
    Malformed { cause: String },
    /// The rows could not be written.
    Unwritable,
}

/// Whether this is what reading bytes gives: the entries whose bytes they are,
/// or the error that says why there are none.
pub open spec fn reads(bytes: Seq<u8>, read: Result<Seq<DirView>, DatabaseError>) -> bool {
    match read {
        Ok(dirs) => stored(dirs) == bytes && storable(dirs),
        Err(DatabaseError::Corrupted) => bytes.len() < VERSION_SIZE,
        Err(DatabaseError::UnsupportedVersion { got }) => bytes.len() >= VERSION_SIZE && bytes.take(
            VERSION_SIZE as int,
        ) == le_bytes(got as nat, 4) && got != VERSION,
        Err(DatabaseError::Malformed { cause }) => is_malformed(bytes, cause@),
        Err(DatabaseError::Unwritable) => false,
    }
}

impl DatabaseError {
    /// What the message says.
    pub open spec fn text(self) -> Seq<char> {
        match self {
            DatabaseError::Corrupted => "could not deserialize database: corrupted data"@,
            DatabaseError::UnsupportedVersion { got } => "unsupported version (got "@ + decimal(
                got as nat,
            ) + ", supports "@ + decimal(VERSION as nat) + ")"@,
            DatabaseError::Malformed { .. } => "could not deserialize database"@,
            DatabaseError::Unwritable => "could not serialize database"@,
        }
    }

    /// A message for the user.
    pub fn message(&self) -> (message: String)
        ensures
            message@ == self.text(),
    {
        match self {
            DatabaseError::Corrupted => {
                "could not deserialize database: corrupted data".to_owned()
            },
            DatabaseError::UnsupportedVersion { got } => {
                let mut message = "unsupported version (got ".to_owned();
                append_decimal(&mut message, *got as u128);
                message.append(", supports ");
                append_decimal(&mut message, VERSION as u128);
                message.append(")");
                message
            },
            DatabaseError::Malformed { .. } => "could not deserialize database".to_owned(),
            DatabaseError::Unwritable => "could not serialize database".to_owned(),
        }
    }
}

impl Database {
    /// The database whose stored bytes these are, or an empty one where
    /// nothing is stored yet.
    pub fn open(contents: Option<&[u8]>) -> (opened: Result<Database, DatabaseError>)
        ensures
            match contents {
                Some(bytes) => reads(
                    bytes@,
                    match opened {
                        Ok(db) => Ok(db@.dirs),
                        Err(error) => Err(error),
                    },
                ),
                None => opened is Ok && opened->Ok_0@.dirs == Seq::<DirView>::empty(),
            },
            opened is Ok ==> !opened->Ok_0@.dirty,
    {
        match contents {
            Some(bytes) => match Database::deserialize(bytes) {
                Ok(dirs) => Ok(Database { dirs, dirty: false }),
                Err(error) => Err(error),
            },
            None => Ok(Database::new()),
        }
    }

    /// The entries whose stored bytes these are.
    pub fn deserialize(bytes: &[u8]) -> (read: Result<Vec<Dir>, DatabaseError>)
        ensures
            reads(
                bytes@,
                match read {
                    Ok(dirs) => Ok(views(dirs@)),
                    Err(error) => Err(error),
                },
            ),
    {
        if bytes.len() < VERSION_SIZE {
            return Err(DatabaseError::Corrupted);
        }
        let head = slice_subrange(bytes, 0, VERSION_SIZE);
        let tail = slice_subrange(bytes, VERSION_SIZE, bytes.len());
        assert(bytes@ =~= head@ + tail@);
        assert(bytes@.take(VERSION_SIZE as int) =~= head@);
        assert(bytes@.skip(VERSION_SIZE as int) =~= tail@);
        proof {
            lemma_le_bounds();
            let number = lemma_le_surjective(head@);
            assert(head@ == le_bytes(number, 4));
            lemma_le_injective(VERSION as nat, VERSION as nat, 4);
            assert forall|dirs: Seq<DirView>| #[trigger] stored(dirs) == bytes@ implies head@
                == le_bytes(VERSION as nat, 4) && tail@ == encoded_list(stored_rows(dirs)) by {
                assert(stored(dirs).take(VERSION_SIZE as int) =~= le_bytes(VERSION as nat, 4));
                assert(stored(dirs).skip(VERSION_SIZE as int) =~= encoded_list(stored_rows(dirs)));
            }
        }
        match get_number(head, MAX_SIZE) {
            Ok(version) => if version != VERSION {
                return Err(DatabaseError::UnsupportedVersion { got: version });
            },
            Err(_) => return Err(DatabaseError::Corrupted),
        }
        match get_rows(tail, MAX_SIZE) {
            Ok(rows) => Ok(Database::entries(rows)),
            Err(cause) => Err(DatabaseError::Malformed { cause }),
        }
    }

    /// The entries that rows stand for.
    fn entries(rows: Vec<(String, u64, u64)>) -> (dirs: Vec<Dir>)
        ensures
            stored_rows(views(dirs@)) == row_views(rows@),
            storable(views(dirs@)),
    {
        let ghost wanted = row_views(rows@);
        let mut dirs: Vec<Dir> = Vec::new();
        for row in it: rows
            invariant
                wanted == row_views(it.seq()),
                stored_rows(views(dirs@)) == wanted.take(it.index() as int),
                forall|i: int|
                    0 <= i < dirs@.len() ==> encode_utf8((#[trigger] dirs@[i]).path@).len()
                        <= u64::MAX,
        {
            let ghost before = dirs@;
            let (path, bits, last_accessed) = row;
            // The length of a text fits a machine word.
            let _length: usize = path.as_str().as_bytes().len();
            dirs.push(Dir { path, rank: Rank::from_bits(bits), last_accessed });
            proof {
                let i = it.index() as int;
                assert(stored_rows(views(dirs@)) =~= stored_rows(views(before)).push(wanted[i]));
                assert(wanted.take(i + 1) =~= wanted.take(i).push(wanted[i]));
            }
        }
        assert(wanted.take(wanted.len() as int) =~= wanted);
        // The length of a list fits a machine word.
        let _length: usize = dirs.len();
        assert forall|i: int| 0 <= i < views(dirs@).len() implies encode_utf8(
            (#[trigger] views(dirs@)[i]).path,
        ).len() <= u64::MAX by {
            assert(views(dirs@)[i].path == dirs@[i].path@);
        }
        dirs
    }

    /// What is to be stored: nothing where the database is not dirty, else the
    /// bytes of its entries. Once they are stored, `saved` is to be called.
    pub fn save(&self) -> (contents: Result<Option<Vec<u8>>, DatabaseError>)
        ensures
            match contents {
                Ok(Some(bytes)) => self@.dirty && bytes@ == stored(self@.dirs) && storable(
                    self@.dirs,
                ),
                Ok(None) => !self@.dirty,
                Err(_) => false,
            },
    {
        if !self.dirty {
            return Ok(None);
        }
        match Database::serialize(self.dirs.as_slice()) {
            Ok(bytes) => Ok(Some(bytes)),
            Err(error) => Err(error),
        }
    }

    /// The bytes of entries.
    pub fn serialize(dirs: &[Dir]) -> (bytes: Result<Vec<u8>, DatabaseError>)
        ensures
            match bytes {
                Ok(bytes) => bytes@ == stored(views(dirs@)) && storable(views(dirs@)),
                Err(_) => false,
            },
    {
        let rows = Database::rows(dirs);
        let mut buffer: Vec<u8> = Vec::new();
        match put_number(&mut buffer, VERSION) {
            Ok(()) => {},
            Err(_) => return Err(DatabaseError::Unwritable),
        }
        match put_rows(&mut buffer, &rows) {
            Ok(()) => {},
            Err(_) => return Err(DatabaseError::Unwritable),
        }
        assert(buffer@ =~= stored(views(dirs@)));
        Ok(buffer)
    }

    /// The rows in which entries are stored.
    fn rows(dirs: &[Dir]) -> (rows: Vec<(String, u64, u64)>)
        ensures
            row_views(rows@) == stored_rows(views(dirs@)),
            storable(views(dirs@)),
    {
        let ghost entries = views(dirs@);
        let ghost wanted = stored_rows(entries);
        let mut rows: Vec<(String, u64, u64)> = Vec::new();
        let mut i: usize = 0;
        while i < dirs.len()
            invariant
                i <= dirs@.len(),
                entries == views(dirs@),
                wanted == stored_rows(entries),
                row_views(rows@) == wanted.take(i as int),
                forall|j: int|
                    0 <= j < i ==> encode_utf8((#[trigger] entries[j]).path).len() <= u64::MAX,
            decreases dirs.len() - i,
        {
            let ghost before = rows@;
            let dir = &dirs[i];
            // The length of a text fits a machine word.
            let _length: usize = dir.path.as_str().as_bytes().len();
            rows.push((dir.path.as_str().to_owned(), dir.rank.to_bits(), dir.last_accessed));
            proof {
                assert(entries[i as int] == dir@);
                assert(row_views(rows@) =~= row_views(before).push(wanted[i as int]));
                assert(wanted.take(i + 1) =~= wanted.take(i as int).push(wanted[i as int]));
            }
            i += 1;
        }
        assert(wanted.take(i as int) =~= wanted);
        rows
    }

    /// Notes that the entries are stored as they are.
    pub fn saved(&mut self)
        ensures
            final(self)@ == (DatabaseView { dirty: false, ..old(self)@ }),
    {
        self.dirty = false;
    }

    /// An empty database that differs in nothing from what is stored.
    pub fn new() -> (db: Database)
        ensures
            db@ == (DatabaseView { dirs: Seq::empty(), dirty: false }),
    {
        let db = Database { dirs: Vec::new(), dirty: false };
        assert(db@.dirs =~= Seq::empty());
        db
    }

    /// Whether the database differs from what is stored.
    pub fn dirty(&self) -> (dirty: bool)
        ensures
            dirty == self@.dirty,
    {
        self.dirty
    }

    /// The entries.
    pub fn dirs(&self) -> (dirs: &[Dir])
        ensures
            views(dirs@) == self@.dirs,
    {
        self.dirs.as_slice()
    }

    fn find(&self, path: &str) -> (found: Option<usize>)
        ensures
            match found {
                Some(i) => first_with(self@.dirs, path@) == Some(i as int) && i
                    < self@.dirs.len(),
                None => first_with(self@.dirs, path@) is None,
            },
    {
        let mut i: usize = 0;
        while i < self.dirs.len()
            invariant
                i <= self.dirs.len(),
                forall|j: int| 0 <= j < i ==> #[trigger] self@.dirs[j].path != path@,
            decreases self.dirs.len() - i,
        {
            assert(self@.dirs[i as int].path == self.dirs[i as int].path@);
            if same_text(self.dirs[i].path.as_str(), path) {
                proof {
                    lemma_first_with(self@.dirs, path@, i as int);
                }
                return Some(i);
            }
            i += 1;
        }
        proof {
            lemma_first_with_none(self@.dirs, path@);
        }
        None
    }

    /// Increments the rank of a directory, or creates it if it does not exist.
    pub fn add(&mut self, path: &str, by: Rank, now: Epoch)
        ensures
            final(self)@ == (DatabaseView {
                dirs: with_added(old(self)@.dirs, path@, by, now, false),
                dirty: true,
            }),
    {
        match self.find(path) {
            Some(i) => {
                let rank = self.dirs[i].rank.plus(by).at_least_zero();
                self.dirs[i].rank = rank;
            },
            None => {
                self.dirs.push(
                    Dir { path: path.to_owned(), rank: by.at_least_zero(), last_accessed: now },
                );
            },
        }
        self.dirty = true;
        assert(self@.dirs =~= with_added(old(self)@.dirs, path@, by, now, false));
    }

    /// Creates a new directory. This will create a duplicate entry if the
    /// directory is already in the database: the caller either checks before,
    /// or calls `dedup` afterward.
    pub fn add_unchecked(&mut self, path: &str, rank: Rank, now: Epoch)
        ensures
            final(self)@ == (DatabaseView {
                dirs: old(self)@.dirs.push(DirView { path: path@, rank, last_accessed: now }),
                dirty: true,
            }),
    {
        self.dirs.push(Dir { path: path.to_owned(), rank, last_accessed: now });
        self.dirty = true;
        assert(self@.dirs =~= old(self)@.dirs.push(
            DirView { path: path@, rank, last_accessed: now },
        ));
    }

    /// Increments the rank and updates the access time of a directory, or
    /// creates it if it does not exist.
    pub fn add_update(&mut self, path: &str, by: Rank, now: Epoch)
        ensures
            final(self)@ == (DatabaseView {
                dirs: with_added(old(self)@.dirs, path@, by, now, true),
                dirty: true,
            }),
    {
        match self.find(path) {
            Some(i) => {
                let rank = self.dirs[i].rank.plus(by).at_least_zero();
                self.dirs[i].rank = rank;
                self.dirs[i].last_accessed = now;
            },
            None => {
                self.dirs.push(
                    Dir { path: path.to_owned(), rank: by.at_least_zero(), last_accessed: now },
                );
            },
        }
        self.dirty = true;
        assert(self@.dirs =~= with_added(old(self)@.dirs, path@, by, now, true));
    }

    /// Removes the first entry with this path, and tells whether there was
    /// one. This does not preserve ordering, but is O(1) once it is found.
    pub fn remove(&mut self, path: &str) -> (removed: bool)
        ensures
            match first_with(old(self)@.dirs, path@) {
                Some(i) => removed && final(self)@ == (DatabaseView {
                    dirs: swap_removed(old(self)@.dirs, i),
                    dirty: true,
                }),
                None => !removed && final(self)@ == old(self)@,
            },
    {
        match self.find(path) {
            Some(i) => {
                self.swap_remove(i);
                true
            },
            None => false,
        }
    }

    /// Removes the entry at `idx`; the last entry takes its place.
    pub fn swap_remove(&mut self, idx: usize)
        requires
            idx < old(self)@.dirs.len(),
        ensures
            final(self)@ == (DatabaseView {
                dirs: swap_removed(old(self)@.dirs, idx as int),
                dirty: true,
            }),
    {
        self.dirs.swap_remove(idx);
        self.dirty = true;
        assert(self@.dirs =~= swap_removed(old(self)@.dirs, idx as int));
    }

    /// Replaces the path of the entry at `idx`.
    pub fn set_path(&mut self, idx: usize, path: &str)
        requires
            idx < old(self)@.dirs.len(),
        ensures
            final(self)@.dirs == old(self)@.dirs.update(
                idx as int,
                DirView { path: path@, ..old(self)@.dirs[idx as int] },
            ),
            final(self)@.dirty == (old(self)@.dirty || old(self)@.dirs[idx as int].path != path@),
    {
        assert(self@.dirs[idx as int].path == self.dirs[idx as int].path@);
        if same_text(self.dirs[idx].path.as_str(), path) {
            assert(self@.dirs =~= self@.dirs.update(
                idx as int,
                DirView { path: path@, ..self@.dirs[idx as int] },
            ));
            return;
        }
        self.dirs[idx].path = path.to_owned();
        self.dirty = true;
        assert(self@.dirs =~= old(self)@.dirs.update(
            idx as int,
            DirView { path: path@, ..old(self)@.dirs[idx as int] },
        ));
    }

    /// Sorts the entries by path.
    pub fn sort_by_path(&mut self)
        ensures
            final(self)@ == (DatabaseView {
                dirs: stable_sort(old(self)@.dirs, leq_of::<Dir>()),
                dirty: true,
            }),
    {
        let mut dirs: Vec<Dir> = Vec::new();
        std::mem::swap(&mut dirs, &mut self.dirs);
        self.dirs = sort(dirs);
        self.dirty = true;
    }

    /// Sorts the entries by score.
    pub fn sort_by_score(&mut self, now: Epoch)
        ensures
            final(self)@ == (DatabaseView {
                dirs: stable_sort(old(self)@.dirs, score_leq(now)),
                dirty: true,
            }),
    {
        let ghost before = self@.dirs;
        let ghost with_score = |dir: DirView| (dir.score(now), dir);
        let mut dirs: Vec<Dir> = Vec::new();
        std::mem::swap(&mut dirs, &mut self.dirs);
        let mut scored: Vec<Scored> = Vec::new();
        for dir in it: dirs
            invariant
                views(scored@) == before.take(it.index() as int).map_values(with_score),
                before == views(it.seq()),
                with_score == |dir: DirView| (dir.score(now), dir),
        {
            let ghost taken = scored@;
            let score = dir.score(now);
            scored.push(Scored { score, dir });
            proof {
                let i = it.index() as int;
                assert(before.take(i + 1) =~= before.take(i).push(dir@));
                assert(views(scored@) =~= views(taken).push((score, dir@)));
                assert(views(scored@) =~= before.take(i + 1).map_values(with_score));
            }
        }
        proof {
            assert(before.take(before.len() as int) =~= before);
            lemma_sort_map(before, with_score, score_leq(now), leq_of::<Scored>());
        }
        let sorted = sort(scored);
        let ghost order = stable_sort(before, score_leq(now));
        let mut dirs: Vec<Dir> = Vec::new();
        for entry in it: sorted
            invariant
                views(dirs@) == order.take(it.index() as int),
                views(it.seq()) == order.map_values(with_score),
                with_score == |dir: DirView| (dir.score(now), dir),
        {
            let ghost taken = dirs@;
            dirs.push(entry.dir);
            proof {
                let i = it.index() as int;
                assert(views(it.seq()).len() == order.len());
                assert(views(it.seq())[i] == with_score(order[i]));
                assert(order.take(i + 1) =~= order.take(i).push(order[i]));
                assert(views(dirs@) =~= views(taken).push(entry.dir@));
            }
        }
        assert(order.take(order.len() as int) =~= order);
        self.dirs = dirs;
        self.dirty = true;
    }

    fn total(&self) -> (total: Rank)
        ensures
            total == total_rank(self@.dirs),
    {
        let mut total = Rank::from_bits(SIGN);
        let mut i: usize = 0;
        assert(self@.dirs.take(0) =~= Seq::empty());
        while i < self.dirs.len()
            invariant
                i <= self.dirs.len(),
                total == total_rank(self@.dirs.take(i as int)),
            decreases self.dirs.len() - i,
        {
            let ghost next = self@.dirs.take(i + 1);
            assert(next.drop_last() =~= self@.dirs.take(i as int));
            total = total.plus(self.dirs[i].rank);
            i += 1;
        }
        assert(self@.dirs.take(i as int) =~= self@.dirs);
        total
    }

    /// Where the total rank exceeds `max_age`, scales all ranks down to nine
    /// tenths of it, and removes the entries whose rank falls below one.
    pub fn age(&mut self, max_age: Rank)
        ensures
            final(self)@.dirs == aged(old(self)@.dirs, max_age),
            final(self)@.dirty == (old(self)@.dirty || total_rank(old(self)@.dirs).greater(
                max_age,
            )),
    {
        let total = self.total();
        if !total.exceeds(max_age) {
            return;
        }
        let factor = Rank::from_bits(NINE_TENTHS).times(max_age).over(total);
        let ghost before = self@.dirs;
        let ghost smaller = scaled(before, factor);
        let n = self.dirs.len();
        let mut i: usize = 0;
        while i < n
            invariant
                i <= n == self.dirs.len() == before.len(),
                smaller == scaled(before, factor),
                forall|j: int| 0 <= j < i ==> #[trigger] self@.dirs[j] == smaller[j],
                forall|j: int| i <= j < n ==> #[trigger] self@.dirs[j] == before[j],
                self.dirty == old(self).dirty,
            decreases n - i,
        {
            assert(self@.dirs[i as int] == before[i as int]);
            let ghost step = self@.dirs;
            let rank = self.dirs[i].rank.times(factor);
            self.dirs[i].rank = rank;
            assert(self@.dirs =~= step.update(i as int, smaller[i as int]));
            i += 1;
        }
        assert(self@.dirs =~= smaller);
        let ghost gone = |j: int| is_faint(smaller[j]);
        let mut left: usize = n;
        while left > 0
            invariant
                left <= n == smaller.len(),
                left <= self.dirs.len(),
                forall|j: int| 0 <= j < left ==> #[trigger] self@.dirs[j] == smaller[j],
                without(self@.dirs, left as nat, gone) == without(smaller, n as nat, gone),
                gone == |j: int| is_faint(smaller[j]),
                self.dirty == old(self).dirty,
            decreases left,
        {
            left -= 1;
            assert(self@.dirs[left as int] == smaller[left as int]);
            if Rank::from_bits(ONE).exceeds(self.dirs[left].rank) {
                let ghost step = self@.dirs;
                self.dirs.swap_remove(left);
                assert(self@.dirs =~= swap_removed(step, left as int));
                assert forall|j: int| 0 <= j < left implies #[trigger] self@.dirs[j]
                    == smaller[j] by {
                    assert(step[j] == smaller[j]);
                }
            }
        }
        self.dirty = true;
    }

    /// Merges groups of entries. For each group, the survivor's rank becomes
    /// the group's summed rank and its access time the group's latest; the
    /// others are then removed. All indices refer to the database before any
    /// removal, and an entry may appear in at most one group.
    pub fn merge_entries(&mut self, groups: &[(usize, Vec<usize>)])
        requires
            valid_groups(groups_of(groups@), old(self)@.dirs.len() as int),
        ensures
            nothing_to_merge(groups_of(groups@)) ==> final(self)@ == old(self)@,
            !nothing_to_merge(groups_of(groups@)) ==> final(self)@ == (DatabaseView {
                dirs: after_merge(old(self)@.dirs, groups_of(groups@)),
                dirty: true,
            }),
    {
        let ghost plan = groups_of(groups@);
        let ghost before = self@.dirs;
        let n = self.dirs.len();
        let mut empty = true;
        let mut g: usize = 0;
        while g < groups.len()
            invariant
                g <= groups.len(),
                plan == groups_of(groups@),
                empty == (forall|h: int| 0 <= h < g ==> (#[trigger] plan[h]).1.len() == 0),
            decreases groups.len() - g,
        {
            assert(plan[g as int].1.len() == groups@[g as int].1@.len());
            if groups[g].1.len() > 0 {
                empty = false;
            }
            g += 1;
        }
        if empty {
            return;
        }
        assert(!nothing_to_merge(plan)) by {
            let h = choose|h: int| 0 <= h < g && (#[trigger] plan[h]).1.len() != 0;
            assert(plan[h].1.len() != 0);
        }
        let mut gone: Vec<bool> = Vec::new();
        while gone.len() < n
            invariant
                gone.len() <= n,
                forall|i: int| 0 <= i < gone.len() ==> !(#[trigger] gone@[i]),
            decreases n - gone.len(),
        {
            gone.push(false);
        }
        g = 0;
        assert(plan.take(0) =~= Seq::empty());
        while g < groups.len()
            invariant
                g <= groups.len(),
                plan == groups_of(groups@),
                valid_groups(plan, n as int),
                n == self.dirs.len() == before.len() == gone.len(),
                self@.dirs == merged(before, plan.take(g as int)),
                forall|i: int|
                    0 <= i < n ==> #[trigger] gone@[i] == is_victim(plan.take(g as int), i),
                self.dirty == old(self).dirty,
            decreases groups.len() - g,
        {
            let ghost start = self@.dirs;
            let ghost marked = gone@;
            let survivor = groups[g].0;
            let victims = &groups[g].1;
            let ghost group = plan[g as int];
            let ghost others = group.1.map_values(|i: int| start[i]);
            assert(group.0 == survivor);
            assert(group.1.len() == victims@.len());
            assert(others.take(0) =~= Seq::empty());
            assert(start.update(survivor as int, start[survivor as int]) =~= start);
            let mut k: usize = 0;
            while k < victims.len()
                invariant
                    k <= victims.len(),
                    n == self.dirs.len() == start.len() == gone.len() == marked.len(),
                    0 <= g < plan.len(),
                    valid_groups(plan, n as int),
                    group == plan[g as int],
                    group.0 == survivor,
                    group.1 == victims@.map_values(|i: usize| i as int),
                    others == group.1.map_values(|i: int| start[i]),
                    self@.dirs == start.update(
                        survivor as int,
                        absorbed(start[survivor as int], others.take(k as int)),
                    ),
                    forall|i: int|
                        0 <= i < n ==> #[trigger] gone@[i] == (marked[i] || group.1.take(
                            k as int,
                        ).contains(i)),
                    self.dirty == old(self).dirty,
                decreases victims.len() - k,
            {
                let idx = victims[k];
                proof {
                    assert(group.1[k as int] == idx);
                    assert(group.1.contains(idx as int));
                }
                let rank = self.dirs[idx].rank;
                let last_accessed = self.dirs[idx].last_accessed;
                proof {
                    assert(self@.dirs[idx as int] == start[idx as int]);
                    assert(others[k as int] == start[idx as int]);
                    assert(others.take(k + 1).drop_last() =~= others.take(k as int));
                    assert(others.take(k + 1).last() == others[k as int]);
                    assert(self@.dirs[survivor as int] == absorbed(
                        start[survivor as int],
                        others.take(k as int),
                    ));
                }
                let ghost step = self@.dirs;
                let sum = self.dirs[survivor].rank.plus(rank);
                self.dirs[survivor].rank = sum;
                if self.dirs[survivor].last_accessed < last_accessed {
                    self.dirs[survivor].last_accessed = last_accessed;
                }
                let ghost marks = gone@;
                gone.set(idx, true);
                proof {
                    let s = survivor as int;
                    assert(self@.dirs[s] == absorbed(start[s], others.take(k + 1)));
                    assert(self@.dirs =~= step.update(s, self@.dirs[s]));
                    assert(self@.dirs =~= start.update(
                        survivor as int,
                        absorbed(start[survivor as int], others.take(k + 1)),
                    ));
                    assert(group.1.take(k + 1) =~= group.1.take(k as int).push(idx as int));
                    assert forall|i: int| 0 <= i < n implies #[trigger] gone@[i] == (marked[i]
                        || group.1.take(k + 1).contains(i)) by {
                        assert(marks[i] == (marked[i] || group.1.take(k as int).contains(i)));
                        if group.1.take(k as int).contains(i) {
                            let m = group.1.take(k as int).index_of(i);
                            assert(group.1.take(k + 1)[m] == i);
                        }
                        if i == idx {
                            assert(group.1.take(k + 1)[k as int] == i);
                        }
                    }
                }
                k += 1;
            }
            proof {
                let next = plan.take(g + 1);
                assert(next.drop_last() =~= plan.take(g as int));
                assert(others.take(k as int) =~= others);
                assert(group.1.take(k as int) =~= group.1);
                assert forall|i: int| 0 <= i < n implies #[trigger] gone@[i] == is_victim(
                    next,
                    i,
                ) by {
                    let old_groups = plan.take(g as int);
                    assert(marked[i] == is_victim(old_groups, i));
                    if is_victim(old_groups, i) {
                        let h = choose|h: int|
                            0 <= h < old_groups.len() && (#[trigger] old_groups[h]).1.contains(i);
                        assert(next[h].1.contains(i));
                    }
                    if group.1.contains(i) {
                        assert(next[g as int].1.contains(i));
                    }
                    if is_victim(next, i) && !group.1.contains(i) {
                        let h = choose|h: int|
                            0 <= h < next.len() && (#[trigger] next[h]).1.contains(i);
                        assert(old_groups[h].1.contains(i));
                    }
                }
            }
            g += 1;
        }
        assert(plan.take(g as int) =~= plan);
        let ghost whole = self@.dirs;
        let ghost is_gone = |i: int| is_victim(plan, i);
        let mut left: usize = n;
        while left > 0
            invariant
                left <= n == gone.len() == whole.len(),
                left <= self.dirs.len(),
                forall|i: int| 0 <= i < n ==> #[trigger] gone@[i] == is_victim(plan, i),
                without(self@.dirs, left as nat, is_gone) == without(whole, n as nat, is_gone),
                is_gone == |i: int| is_victim(plan, i),
                self.dirty == old(self).dirty,
            decreases left,
        {
            left -= 1;
            if gone[left] {
                let ghost step = self@.dirs;
                self.dirs.swap_remove(left);
                assert(self@.dirs =~= swap_removed(step, left as int));
            }
        }
        self.dirty = true;
    }

    /// Merges the entries that share a path.
    pub fn dedup(&mut self)
        ensures
            final(self)@ == (DatabaseView { dirs: deduplicated(old(self)@.dirs), dirty: true }),
    {
        self.sort_by_path();
        let ghost sorted = self@.dirs;
        let mut groups: Vec<(usize, Vec<usize>)> = Vec::new();
        let n = self.dirs.len();
        let mut idx: usize = 0;
        assert(groups_of(groups@) + runs(sorted, 0) =~= runs(sorted, 0));
        while idx < n
            invariant
                idx <= n == self.dirs.len() == sorted.len(),
                self@.dirs == sorted,
                self@.dirty,
                groups_of(groups@) + runs(sorted, idx as int) == runs(sorted, 0),
            decreases n - idx,
        {
            let mut end: usize = idx + 1;
            let mut members: Vec<usize> = Vec::new();
            while end < n && same_text(self.dirs[end].path.as_str(), self.dirs[idx].path.as_str())
                invariant
                    idx < end <= n == self.dirs.len() == sorted.len(),
                    self@.dirs == sorted,
                    run_end(sorted, idx as int, idx + 1) == run_end(
                        sorted,
                        idx as int,
                        end as int,
                    ),
                    members.len() == end - idx - 1,
                    forall|k: int| 0 <= k < members.len() ==> #[trigger] members@[k] == idx + 1 + k,
                decreases n - end,
            {
                proof {
                    assert(self@.dirs[end as int].path == self.dirs[end as int].path@);
                    assert(self@.dirs[idx as int].path == self.dirs[idx as int].path@);
                }
                members.push(end);
                end += 1;
            }
            proof {
                if end < n {
                    assert(self@.dirs[end as int].path == self.dirs[end as int].path@);
                    assert(self@.dirs[idx as int].path == self.dirs[idx as int].path@);
                }
                assert(run_end(sorted, idx as int, idx + 1) == end);
                assert(members@.map_values(|i: usize| i as int) =~= range(idx + 1, end as int));
            }
            let ghost before = groups@;
            if end - idx > 1 {
                groups.push((idx, members));
                proof {
                    assert(groups_of(groups@) =~= groups_of(before).push(
                        (idx as int, range(idx + 1, end as int)),
                    ));
                    assert(groups_of(groups@) + runs(sorted, end as int) =~= groups_of(before)
                        + runs(sorted, idx as int));
                }
            }
            idx = end;
        }
        proof {
            assert(groups_of(groups@) + runs(sorted, n as int) =~= groups_of(groups@));
            lemma_runs_valid(sorted);
            if nothing_to_merge(runs(sorted, 0)) {
                lemma_no_runs(sorted);
            }
        }
        self.merge_entries(groups.as_slice());
    }

    /// Replaces all entries by these rows of path, rank and access time. The
    /// database becomes dirty only if that makes a difference.
    pub fn replace_dirs(&mut self, rows: Vec<(String, Rank, Epoch)>)
        ensures
            final(self)@.dirs == rows_of(rows@),
            final(self)@.dirty == (old(self)@.dirty || rows_of(rows@) != old(self)@.dirs),
    {
        let ghost wanted = rows_of(rows@);
        let same = self.holds_rows(&rows);
        let mut dirs: Vec<Dir> = Vec::new();
        for row in it: rows
            invariant
                wanted == rows_of(it.seq()),
                views(dirs@) == wanted.take(it.index() as int),
        {
            let ghost so_far = dirs@;
            let (path, rank, last_accessed) = row;
            dirs.push(Dir { path, rank, last_accessed });
            proof {
                let i = it.index() as int;
                assert(views(dirs@) =~= views(so_far).push(wanted[i]));
                assert(wanted.take(i + 1) =~= wanted.take(i).push(wanted[i]));
            }
        }
        assert(wanted.take(wanted.len() as int) =~= wanted);
        self.dirs = dirs;
        if !same {
            self.dirty = true;
        }
    }

    fn holds_rows(&self, rows: &Vec<(String, Rank, Epoch)>) -> (same: bool)
        ensures
            same == (rows_of(rows@) == self@.dirs),
    {
        let ghost wanted = rows_of(rows@);
        if rows.len() != self.dirs.len() {
            assert(wanted.len() != self@.dirs.len());
            return false;
        }
        let mut i: usize = 0;
        while i < rows.len()
            invariant
                i <= rows.len() == self.dirs.len(),
                wanted == rows_of(rows@),
                forall|j: int| 0 <= j < i ==> #[trigger] wanted[j] == self@.dirs[j],
            decreases rows.len() - i,
        {
            let row = &rows[i];
            let dir = &self.dirs[i];
            assert(wanted[i as int].path == row.0@ && self@.dirs[i as int].path == dir.path@);
            if !(same_text(row.0.as_str(), dir.path.as_str()) && row.1 == dir.rank && row.2
                == dir.last_accessed) {
                assert(wanted[i as int] != self@.dirs[i as int]);
                return false;
            }
            i += 1;
        }
        assert(wanted =~= self@.dirs);
        true
    }
}

} // verus!
