use zoxide::cmd::Dedupe;
use zoxide::db::Database;
use zoxide::fold::fold_key;
use zoxide::grouping::FileId;
use zoxide::rank::Rank;

fn rank(value: f64) -> Rank {
    Rank::from_bits(value.to_bits())
}

fn value(rank: Rank) -> f64 {
    f64::from_bits(rank.to_bits())
}

fn command(pathglobs: &[&str], assume_insensitive: bool, dry_run: bool) -> Dedupe {
    Dedupe {
        pathglobs: pathglobs.iter().map(|glob| glob.to_string()).collect(),
        assume_insensitive,
        dry_run,
    }
}

/// Runs the command on a file system that tells files and spellings like this.
fn run(
    cmd: &Dedupe,
    db: &mut Database,
    file_id: impl Fn(&str) -> Option<FileId>,
    true_spelling: impl Fn(&str) -> Option<String>,
) -> String {
    let selected = cmd.select(db).unwrap();
    let needed = cmd.needs_id(db, &selected);
    let paths: Vec<String> = db.dirs().iter().map(|dir| dir.path.clone()).collect();
    let ids = paths.iter().zip(&needed);
    let ids: Vec<Option<FileId>> =
        ids.map(|(path, needed)| if *needed { file_id(path) } else { None }).collect();
    let mut spellings: Vec<Option<String>> = paths.iter().map(|_| None).collect();
    for merge in cmd.merges(db, &selected, &ids, &spellings) {
        spellings[merge.survivor_idx] = true_spelling(&paths[merge.survivor_idx]);
    }
    cmd.dedupe(db, &selected, &ids, &spellings)
}

/// Runs the command where no path leads anywhere.
fn dedupe(
    pathglobs: &[&str],
    assume_insensitive: bool,
    dry_run: bool,
    db: &mut Database,
) -> String {
    run(&command(pathglobs, assume_insensitive, dry_run), db, |_| None, |_| None)
}

fn paths(db: &Database) -> Vec<String> {
    db.dirs().iter().map(|dir| dir.path.clone()).collect()
}

#[test]
fn dedupe_assume_insensitive_merges_variants() {
    let mut db = Database::new();
    db.add_unchecked("/foo/PROJECTS", rank(2.0), 100);
    db.add_unchecked("/foo/projects", rank(5.0), 50);
    db.add_unchecked("/foo/other", rank(1.0), 10);
    dedupe(&["*"], true, false, &mut db);

    assert_eq!(db.dirs().len(), 2);
    // The highest-rank spelling survives with summed rank and max
    // last_accessed.
    let dir = db.dirs().iter().find(|dir| dir.path == "/foo/projects").unwrap();
    assert!((value(dir.rank) - 7.0).abs() < 0.01);
    assert_eq!(dir.last_accessed, 100);
    assert!(db.dirs().iter().any(|dir| dir.path == "/foo/other"));
}

#[test]
fn dedupe_glob_filters_selection() {
    let mut db = Database::new();
    db.add_unchecked("/foo/AA", rank(1.0), 100);
    db.add_unchecked("/foo/aa", rank(2.0), 200);
    dedupe(&["/bar/*"], true, false, &mut db);
    assert_eq!(db.dirs().len(), 2);
}

#[test]
fn dedupe_dry_run_is_readonly() {
    let mut db = Database::new();
    db.add_unchecked("/foo/AA", rank(1.0), 100);
    db.add_unchecked("/foo/aa", rank(2.0), 200);
    db.saved();

    let report = dedupe(&["*"], true, true, &mut db);
    assert!(!db.dirty());
    assert_eq!(db.dirs().len(), 2);
    assert_eq!(
        report,
        "would merge into /foo/aa:\n  /foo/AA\nwould merge 2 entries into 1 directory\n"
    );
}

#[test]
fn dedupe_idempotent() {
    let mut db = Database::new();
    db.add_unchecked("/foo/AA", rank(1.0), 100);
    db.add_unchecked("/foo/aa", rank(2.0), 200);

    dedupe(&["*"], true, false, &mut db);
    assert_eq!(db.dirs().len(), 1);
    db.saved();

    let report = dedupe(&["*"], true, false, &mut db);
    assert!(!db.dirty());
    assert_eq!(report, "no duplicate entries found\n");
}

#[test]
fn default_mode_skips_dead_entries() {
    let data_dir = tempfile::tempdir().unwrap();
    let root = data_dir.path().to_str().unwrap();
    let mut db = Database::new();
    db.add_unchecked(&format!("{root}/gone-AA"), rank(1.0), 100);
    db.add_unchecked(&format!("{root}/gone-aa"), rank(2.0), 200);
    dedupe(&["*"], false, false, &mut db);
    assert_eq!(db.dirs().len(), 2);
}

#[test]
fn default_mode_uses_fs_identity() {
    let data_dir = tempfile::tempdir().unwrap();
    let root = data_dir.path().to_str().unwrap();
    let upper = format!("{root}/DEDUPE-CASE");
    let lower = format!("{root}/dedupe-case");
    let cmd = command(&["*"], false, false);
    for folded in [true, false] {
        let mut db = Database::new();
        db.add_unchecked(upper.as_str(), rank(2.0), 100);
        db.add_unchecked(lower.as_str(), rank(5.0), 200);
        // The two spellings lead to one file, or to two.
        let file_id = |path: &str| {
            Some(FileId { device: 1, file: if folded || path == upper { 1 } else { 2 } })
        };
        run(&cmd, &mut db, file_id, |_| None);
        if folded {
            assert_eq!(db.dirs().len(), 1);
            let dir = &db.dirs()[0];
            assert_eq!(fold_key(&dir.path), fold_key(&upper));
            assert!((value(dir.rank) - 7.0).abs() < 0.01);
            assert_eq!(dir.last_accessed, 200);
        } else {
            assert_eq!(db.dirs().len(), 2);
        }
    }
}

#[test]
fn the_spelling_on_disk_is_kept() {
    let mut db = Database::new();
    db.add_unchecked("/x/AA", rank(1.0), 10);
    db.add_unchecked("/x/aa", rank(3.0), 5);
    db.add_unchecked("/x/b", rank(1.0), 1);
    let one = |_: &str| Some(FileId { device: 1, file: 1 });
    let report =
        run(&command(&["*"], false, false), &mut db, one, |_| Some("/x/Aa".to_owned()));
    assert_eq!(paths(&db), ["/x/b", "/x/Aa"]);
    assert_eq!(value(db.dirs()[1].rank), 4.0);
    assert_eq!(
        report,
        "merged into /x/Aa:\n  /x/AA\n  /x/aa\nmerged 2 entries into 1 directory\n"
    );
}

#[test]
fn merges_are_sorted_by_path() {
    let mut db = Database::new();
    for path in ["/b", "/c", "/B", "/a", "/A", "/A", "/C"] {
        db.add_unchecked(path, rank(1.0), 1);
    }
    let report = dedupe(&["*"], true, false, &mut db);
    assert_eq!(
        report,
        "merged into /a:\n  /A\n  /A\nmerged into /b:\n  /B\nmerged into /c:\n  /C\n\
         merged 7 entries into 3 directories\n"
    );
    let mut left = paths(&db);
    left.sort_unstable();
    assert_eq!(left, ["/a", "/b", "/c"]);
    assert!(db.dirty());
}

#[test]
fn of_equal_ranks_the_first_survives() {
    let mut db = Database::new();
    db.add_unchecked("/aA", rank(2.0), 1);
    db.add_unchecked("/Aa", rank(2.0), 1);
    dedupe(&["*"], true, false, &mut db);
    assert_eq!(paths(&db), ["/aA"]);
}

#[test]
fn files_are_asked_for_only_where_foldings_meet() {
    let mut db = Database::new();
    for path in ["/a", "/A", "/b", "/c", "/C"] {
        db.add_unchecked(path, rank(1.0), 1);
    }
    let selected = vec![true, true, true, true, false];
    let needed = command(&["*"], false, false).needs_id(&db, &selected);
    assert_eq!(needed, [true, true, false, false, false]);
    let needed = command(&["*"], true, false).needs_id(&db, &selected);
    assert_eq!(needed, [false; 5]);
}

#[test]
fn an_invalid_glob_is_refused() {
    let db = Database::new();
    let error = command(&["***"], false, false).select(&db).unwrap_err();
    assert_eq!(error.message(), "invalid glob: ***");
}

#[test]
fn each_merged_group_leaves_one_entry() {
    let mut db = Database::new();
    for (path, score, now) in
        [("/a", 1.0, 40), ("/b", 0.25, 7), ("/A", 4.0, 10), ("/B", 0.5, 5), ("/c", 9.0, 1)]
    {
        db.add_unchecked(path, rank(score), now);
    }
    dedupe(&["*"], true, false, &mut db);
    let mut left: Vec<(String, f64, u64)> = db
        .dirs()
        .iter()
        .map(|dir| (dir.path.clone(), value(dir.rank), dir.last_accessed))
        .collect();
    left.sort_by(|a, b| a.0.cmp(&b.0));
    assert_eq!(
        left,
        [
            ("/A".to_owned(), 5.0, 40),
            ("/B".to_owned(), 0.75, 7),
            ("/c".to_owned(), 9.0, 1),
        ]
    );
}
