use zoxide::db::{Database, DatabaseError};
use zoxide::rank::Rank;

fn rank(value: f64) -> Rank {
    Rank::from_bits(value.to_bits())
}

fn value(rank: Rank) -> f64 {
    f64::from_bits(rank.to_bits())
}

/// Stores the database where it is dirty.
fn save(db: &mut Database, stored: &mut Option<Vec<u8>>) {
    if let Some(bytes) = db.save().unwrap() {
        *stored = Some(bytes);
        db.saved();
    }
}

fn open(stored: &Option<Vec<u8>>) -> Database {
    Database::open(stored.as_deref()).unwrap()
}

fn paths(db: &Database) -> Vec<String> {
    db.dirs().iter().map(|dir| dir.path.clone()).collect()
}

#[test]
fn add() {
    for path in [r"C:\foo\bar", "/foo/bar"] {
        let mut stored = None;
        let now = 946684800;

        {
            let mut db = open(&stored);
            db.add(path, rank(1.0), now);
            db.add(path, rank(1.0), now);
            save(&mut db, &mut stored);
        }

        {
            let db = open(&stored);
            assert_eq!(db.dirs().len(), 1);

            let dir = &db.dirs()[0];
            assert_eq!(dir.path, path);
            assert!((value(dir.rank) - 2.0).abs() < 0.01);
            assert_eq!(dir.last_accessed, now);
        }
    }
}

#[test]
fn dedup() {
    for (path1, path2) in [(r"C:\foo\bar", r"C:\foo\baz"), ("/foo/bar", "/foo/baz")] {
        let mut db = Database::new();
        db.add_unchecked(path1, rank(1.0), 100);
        db.add_unchecked(path2, rank(2.0), 300);
        db.add_unchecked(path1, rank(4.0), 200);
        db.add_unchecked(path1, rank(8.0), 50);
        db.dedup();

        assert_eq!(db.dirs().len(), 2);
        let dir1 = db.dirs().iter().find(|dir| dir.path == path1).unwrap();
        assert!((value(dir1.rank) - 13.0).abs() < 0.01);
        assert_eq!(dir1.last_accessed, 200);
        let dir2 = db.dirs().iter().find(|dir| dir.path == path2).unwrap();
        assert!((value(dir2.rank) - 2.0).abs() < 0.01);
        assert_eq!(dir2.last_accessed, 300);
    }
}

#[test]
fn merge_entries() {
    let mut db = Database::new();
    db.add_unchecked("/foo/a", rank(1.0), 100);
    db.add_unchecked("/foo/b", rank(2.0), 400);
    db.add_unchecked("/foo/c", rank(4.0), 200);
    db.add_unchecked("/foo/d", rank(8.0), 300);

    // Merge b and d into a; c untouched.
    db.merge_entries(&[(0, vec![1, 3])]);

    assert_eq!(db.dirs().len(), 2);
    let dir_a = db.dirs().iter().find(|dir| dir.path == "/foo/a").unwrap();
    assert!((value(dir_a.rank) - 11.0).abs() < 0.01);
    assert_eq!(dir_a.last_accessed, 400);
    let dir_c = db.dirs().iter().find(|dir| dir.path == "/foo/c").unwrap();
    assert!((value(dir_c.rank) - 4.0).abs() < 0.01);
    assert_eq!(dir_c.last_accessed, 200);
}

#[test]
fn merge_entries_empty_stays_clean() {
    let mut db = Database::open(None).unwrap();
    db.merge_entries(&[]);
    assert!(!db.dirty());
}

#[test]
fn remove() {
    for path in [r"C:\foo\bar", "/foo/bar"] {
        let mut stored = None;
        let now = 946684800;

        {
            let mut db = open(&stored);
            db.add(path, rank(1.0), now);
            save(&mut db, &mut stored);
        }

        {
            let mut db = open(&stored);
            assert!(db.remove(path));
            save(&mut db, &mut stored);
        }

        {
            let mut db = open(&stored);
            assert!(db.dirs().is_empty());
            assert!(!db.remove(path));
            save(&mut db, &mut stored);
        }
    }
}

#[test]
fn a_new_database_is_empty_and_clean() {
    let db = Database::open(None).unwrap();
    assert!(db.dirs().is_empty());
    assert!(!db.dirty());
    assert!(db.save().unwrap().is_none());
}

#[test]
fn merge_entries_without_victims_stays_clean() {
    let mut stored = None;
    let mut db = Database::new();
    db.add_unchecked("/a", rank(1.0), 1);
    save(&mut db, &mut stored);
    db.merge_entries(&[(0, vec![])]);
    assert!(!db.dirty());
    assert_eq!(paths(&db), ["/a"]);
}

#[test]
fn merge_entries_removes_in_descending_order() {
    let mut db = Database::new();
    for (i, path) in ["/a", "/b", "/c", "/d", "/e"].iter().enumerate() {
        db.add_unchecked(path, rank(i as f64), i as u64);
    }
    db.merge_entries(&[(4, vec![0]), (2, vec![1])]);
    assert_eq!(paths(&db), ["/d", "/e", "/c"]);
    assert_eq!(value(db.dirs()[1].rank), 4.0);
    assert_eq!(value(db.dirs()[2].rank), 3.0);
    assert_eq!(db.dirs()[1].last_accessed, 4);
}

#[test]
fn add_clamps_ranks_at_zero() {
    let mut db = Database::new();
    db.add("/a", rank(-3.0), 10);
    assert_eq!(db.dirs()[0].rank.to_bits(), 0);
    db.add("/a", rank(5.0), 20);
    db.add("/a", rank(-7.5), 30);
    assert_eq!(value(db.dirs()[0].rank), 0.0);
    assert_eq!(db.dirs()[0].last_accessed, 10);
    db.add("/a", rank(f64::NAN), 40);
    assert_eq!(db.dirs()[0].rank.to_bits(), 0);
}

#[test]
fn add_update_touches_the_entry() {
    let mut db = Database::new();
    db.add_update("/a", rank(1.0), 10);
    db.add_update("/a", rank(1.5), 20);
    assert_eq!(db.dirs().len(), 1);
    assert_eq!(value(db.dirs()[0].rank), 2.5);
    assert_eq!(db.dirs()[0].last_accessed, 20);
}

#[test]
fn adding_keeps_one_entry_per_path() {
    let mut db = Database::new();
    for path in ["/a", "/b", "/a", "/c", "/b"] {
        db.add(path, rank(1.0), 1);
    }
    assert_eq!(paths(&db), ["/a", "/b", "/c"]);
}

#[test]
fn removing_leaves_the_other_paths() {
    let mut db = Database::new();
    for path in ["/a", "/b", "/c"] {
        db.add(path, rank(1.0), 1);
    }
    assert!(db.remove("/a"));
    assert_eq!(paths(&db), ["/c", "/b"]);
    assert!(!db.remove("/a"));
    db.swap_remove(1);
    assert_eq!(paths(&db), ["/c"]);
}

#[test]
fn set_path_is_dirty_only_where_it_changes() {
    let mut stored = None;
    let mut db = Database::new();
    db.add_unchecked("/a", rank(1.0), 1);
    save(&mut db, &mut stored);
    db.set_path(0, "/a");
    assert!(!db.dirty());
    db.set_path(0, "/b");
    assert!(db.dirty());
    assert_eq!(paths(&db), ["/b"]);
    assert_eq!(value(db.dirs()[0].rank), 1.0);
}

#[test]
fn sort_by_path_goes_by_bytes() {
    let mut db = Database::new();
    for path in ["/b", "/a/b", "/a", "/\u{e9}", "/Z", "/\u{1f600}", "/\u{ffff}"] {
        db.add_unchecked(path, rank(1.0), 1);
    }
    db.sort_by_path();
    let mut sorted = vec!["/b", "/a/b", "/a", "/\u{e9}", "/Z", "/\u{1f600}", "/\u{ffff}"];
    sorted.sort_unstable();
    assert_eq!(paths(&db), sorted);
}

#[test]
fn sort_by_score_weighs_recency() {
    let now = 10_000_000;
    let mut db = Database::new();
    db.add_unchecked("/week", rank(7.0), now - 3 * 86400);
    db.add_unchecked("/hour", rank(1.0), now - 10);
    db.add_unchecked("/old", rank(10.0), now - 30 * 86400);
    db.add_unchecked("/day", rank(1.5), now - 7200);
    db.sort_by_score(now);
    assert_eq!(paths(&db), ["/old", "/day", "/week", "/hour"]);
    let scores: Vec<f64> = db.dirs().iter().map(|dir| value(dir.score(now))).collect();
    assert_eq!(scores, [2.5, 3.0, 3.5, 4.0]);
}

#[test]
fn a_future_access_counts_as_one_now() {
    let mut db = Database::new();
    db.add_unchecked("/a", rank(2.0), 1000);
    assert_eq!(value(db.dirs()[0].score(10)), 8.0);
}

#[test]
fn aging_scales_and_removes() {
    let mut stored = None;
    let mut db = Database::new();
    db.add_unchecked("/a", rank(6.0), 1);
    db.add_unchecked("/b", rank(1.0), 2);
    db.add_unchecked("/c", rank(3.0), 3);
    save(&mut db, &mut stored);
    db.age(rank(10.0));
    assert!(!db.dirty());
    assert_eq!(db.dirs().len(), 3);

    db.age(rank(5.0));
    assert!(db.dirty());
    assert_eq!(paths(&db), ["/a", "/c"]);
    let factor = 0.9 * 5.0 / 10.0;
    assert_eq!(value(db.dirs()[0].rank), 6.0 * factor);
    assert_eq!(value(db.dirs()[1].rank), 3.0 * factor);
}

#[test]
fn dedup_leaves_one_entry_per_path() {
    let mut db = Database::new();
    let seeds = ["/c", "/a", "/b", "/a", "/c", "/a", "/d"];
    for (i, path) in seeds.iter().enumerate() {
        db.add_unchecked(path, rank(i as f64 + 0.5), 100 - i as u64);
    }
    db.dedup();
    let mut left = paths(&db);
    left.sort_unstable();
    assert_eq!(left, ["/a", "/b", "/c", "/d"]);
    for dir in db.dirs() {
        let ranks = seeds.iter().enumerate().filter(|(_, path)| **path == dir.path);
        let sum: f64 = ranks.map(|(i, _)| i as f64 + 0.5).sum();
        assert_eq!(value(dir.rank), sum);
    }
}

#[test]
fn replace_dirs_is_dirty_only_where_it_changes() {
    let mut stored = None;
    let mut db = Database::new();
    db.add_unchecked("/a", rank(1.0), 1);
    save(&mut db, &mut stored);
    db.replace_dirs(vec![("/a".to_owned(), rank(1.0), 1)]);
    assert!(!db.dirty());
    db.replace_dirs(vec![("/a".to_owned(), rank(1.0), 2)]);
    assert!(db.dirty());
}

#[test]
fn stored_bytes_are_exact() {
    let mut db = Database::new();
    db.add_unchecked("/h\u{e9}", rank(1.5), 258);
    let bytes = db.save().unwrap().unwrap();
    let mut expected = vec![3, 0, 0, 0];
    expected.extend_from_slice(&[1, 0, 0, 0, 0, 0, 0, 0]);
    expected.extend_from_slice(&[4, 0, 0, 0, 0, 0, 0, 0]);
    expected.extend_from_slice("/h\u{e9}".as_bytes());
    expected.extend_from_slice(&1.5f64.to_le_bytes());
    expected.extend_from_slice(&[2, 1, 0, 0, 0, 0, 0, 0]);
    assert_eq!(bytes, expected);
}

#[test]
fn stored_entries_are_read_back() {
    let mut db = Database::new();
    for i in 0..50u64 {
        db.add_unchecked(&format!("/dir/{i}/\u{1f600}"), rank(i as f64 / 3.0), i * i);
    }
    let bytes = db.save().unwrap().unwrap();
    let read = Database::open(Some(&bytes)).unwrap();
    assert!(!read.dirty());
    assert_eq!(read.dirs().len(), db.dirs().len());
    for (a, b) in read.dirs().iter().zip(db.dirs()) {
        assert_eq!(a.path, b.path);
        assert_eq!(a.rank, b.rank);
        assert_eq!(a.last_accessed, b.last_accessed);
    }
}

#[test]
fn saved_clears_the_flag() {
    let mut db = Database::new();
    db.add("/a", rank(1.0), 1);
    assert!(db.dirty());
    db.saved();
    assert!(!db.dirty());
    assert!(db.save().unwrap().is_none());
}

#[test]
fn too_few_bytes_are_corrupted() {
    for len in 0..4 {
        let error = Database::open(Some(&vec![3u8; len])).unwrap_err();
        assert_eq!(error, DatabaseError::Corrupted);
        assert_eq!(error.message(), "could not deserialize database: corrupted data");
    }
}

#[test]
fn other_versions_are_unsupported() {
    let error = Database::open(Some(&[4, 1, 0, 0, 9])).unwrap_err();
    assert_eq!(error, DatabaseError::UnsupportedVersion { got: 260 });
    assert_eq!(error.message(), "unsupported version (got 260, supports 3)");
}

#[test]
fn other_bytes_are_malformed() {
    let mut db = Database::new();
    db.add("/a", rank(1.0), 1);
    let bytes = db.save().unwrap().unwrap();
    let mut longer = bytes.clone();
    longer.push(0);
    let mut broken = bytes.clone();
    broken[20] = 0xff;
    for (contents, expected) in [
        (&bytes[..4], "io error: unexpected end of file"),
        (&bytes[..bytes.len() - 1], "io error: unexpected end of file"),
        (&longer[..], "Slice had bytes remaining after deserialization"),
        (&broken[..], "string is not valid utf8: "),
    ] {
        let error = Database::open(Some(contents)).unwrap_err();
        assert_eq!(error.message(), "could not deserialize database");
        match error {
            DatabaseError::Malformed { cause } => assert!(cause.starts_with(expected), "{cause}"),
            _ => panic!("the bytes are malformed"),
        }
    }
    assert_eq!(DatabaseError::Unwritable.message(), "could not serialize database");
}

#[test]
fn serialized_entries_are_deserialized() {
    let mut db = Database::new();
    db.add_unchecked("/a", rank(-0.0), 1);
    db.add_unchecked("/\u{1f600}", rank(f64::NAN), u64::MAX);
    let bytes = Database::serialize(db.dirs()).unwrap();
    assert_eq!(bytes[..4], [3, 0, 0, 0]);
    let dirs = Database::deserialize(&bytes).unwrap();
    assert_eq!(dirs.len(), 2);
    for (a, b) in dirs.iter().zip(db.dirs()) {
        assert_eq!(a.path, b.path);
        assert_eq!(a.rank.to_bits(), b.rank.to_bits());
        assert_eq!(a.last_accessed, b.last_accessed);
    }
    assert_eq!(Database::deserialize(&bytes[..3]).unwrap_err(), DatabaseError::Corrupted);
}
