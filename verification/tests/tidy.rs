use zoxide::cmd::Tidy;
use zoxide::db::Database;
use zoxide::grouping::FileId;
use zoxide::probe::{Probe, ProbeState};
use zoxide::rank::Rank;

fn rank(value: f64) -> Rank {
    Rank::from_bits(value.to_bits())
}

fn value(rank: Rank) -> f64 {
    f64::from_bits(rank.to_bits())
}

fn live(spelling: &str, file: u64) -> Probe {
    let id = FileId { device: 1, file };
    Probe { spelling: spelling.to_owned(), state: ProbeState::Live(id) }
}

fn stale(spelling: &str) -> Probe {
    Probe { spelling: spelling.to_owned(), state: ProbeState::Stale }
}

fn failed(path: &str, error: &str) -> Probe {
    Probe { spelling: path.to_owned(), state: ProbeState::Error(error.to_owned()) }
}

fn command(
    dedupe: bool,
    normalize: bool,
    prune: bool,
    assume_insensitive: bool,
    dry_run: bool,
    pathglobs: &[&str],
) -> Tidy {
    Tidy {
        pathglobs: pathglobs.iter().map(|glob| glob.to_string()).collect(),
        dedupe,
        normalize,
        prune,
        all: false,
        assume_insensitive,
        dry_run,
    }
}

/// Runs the command on a file system that tells paths like this.
fn run(command: &Tidy, db: &mut Database, probe: impl Fn(&str) -> Probe) -> (String, String) {
    let scan = command.scan(db).unwrap();
    let probes: Vec<Option<Probe>> = db
        .dirs()
        .iter()
        .zip(&scan.needs_probe)
        .map(|(dir, needed)| if *needed { Some(probe(&dir.path)) } else { None })
        .collect();
    let plan = command.plan(db, &scan.selected, &probes);
    let stderr = plan.write_warnings();
    let stdout = plan.write_report(command.dry_run);
    command.finish(plan, db);
    (stdout, stderr)
}

/// Runs the command where no path leads anywhere.
fn tidy(
    db: &mut Database,
    dedupe: bool,
    normalize: bool,
    prune: bool,
    assume_insensitive: bool,
    dry_run: bool,
    pathglobs: &[&str],
) -> (String, String) {
    let command = command(dedupe, normalize, prune, assume_insensitive, dry_run, pathglobs);
    run(&command, db, stale)
}

fn paths(db: &Database) -> Vec<String> {
    db.dirs().iter().map(|dir| dir.path.clone()).collect()
}

#[test]
fn all_enables_every_action() {
    let command = Tidy {
        pathglobs: vec!["*".to_owned()],
        dedupe: false,
        normalize: false,
        prune: false,
        all: true,
        assume_insensitive: false,
        dry_run: false,
    };

    assert!(command.dedupe_enabled());
    assert!(command.normalize_enabled());
    assert!(command.prune_enabled());
}

#[test]
fn tidy_assume_insensitive_merges_variants() {
    let mut db = Database::new();
    db.add_unchecked("/foo/PROJECTS", rank(2.0), 100);
    db.add_unchecked("/foo/projects", rank(5.0), 50);
    db.add_unchecked("/foo/other", rank(1.0), 10);

    tidy(&mut db, true, false, false, true, false, &["*"]);

    assert_eq!(db.dirs().len(), 2);
    let dir = db.dirs().iter().find(|dir| dir.path == "/foo/projects").unwrap();
    assert!((value(dir.rank) - 7.0).abs() < 0.01);
    assert_eq!(dir.last_accessed, 100);
}

#[test]
fn tidy_glob_filters_selection() {
    let mut db = Database::new();
    db.add_unchecked("/foo/AA", rank(1.0), 100);
    db.add_unchecked("/foo/aa", rank(2.0), 200);

    tidy(&mut db, true, false, false, true, false, &["/bar/*"]);

    assert_eq!(db.dirs().len(), 2);
}

#[test]
fn tidy_dry_run_is_readonly() {
    let mut db = Database::new();
    db.add_unchecked("/foo/AA", rank(1.0), 100);
    db.add_unchecked("/foo/aa", rank(2.0), 200);
    db.saved();

    let (stdout, _) = tidy(&mut db, true, false, false, true, true, &["*"]);

    assert!(stdout.contains("would merge 2 entries into 1 directory"));
    assert!(!db.dirty());
    assert_eq!(db.dirs().len(), 2);
}

#[test]
fn tidy_idempotent() {
    let mut db = Database::new();
    db.add_unchecked("/foo/AA", rank(1.0), 100);
    db.add_unchecked("/foo/aa", rank(2.0), 200);

    tidy(&mut db, true, false, false, true, false, &["*"]);
    db.saved();
    let (stdout, _) = tidy(&mut db, true, false, false, true, false, &["*"]);

    assert_eq!(stdout, "no changes needed\n");
    assert!(!db.dirty());
}

#[test]
fn default_dedupe_skips_dead_entries() {
    let data_dir = tempfile::tempdir().unwrap();
    let root = data_dir.path().to_str().unwrap();
    let mut db = Database::new();
    db.add_unchecked(&format!("{root}/gone-AA"), rank(1.0), 100);
    db.add_unchecked(&format!("{root}/gone-aa"), rank(2.0), 200);

    tidy(&mut db, true, false, false, false, false, &["*"]);

    assert_eq!(db.dirs().len(), 2);
}

#[test]
fn prune_removes_non_navigable_entries() {
    let mut db = Database::new();
    db.add_unchecked("/d/live", rank(1.0), 10);
    db.add_unchecked("/d/file", rank(2.0), 20);
    db.add_unchecked("/d/missing", rank(4.0), 30);

    let command = command(false, false, true, false, false, &["*"]);
    let probe = |path: &str| if path == "/d/live" { live(path, 1) } else { stale(path) };
    let (stdout, _) = run(&command, &mut db, probe);

    assert_eq!(paths(&db), ["/d/live"]);
    assert!(stdout.contains("pruned 2 entries"));
    assert_eq!(stdout, "pruned /d/file\npruned /d/missing\npruned 2 entries\n");
}

#[test]
fn normalization_merges_exact_collision_across_glob_boundary() {
    let mut db = Database::new();
    db.add_unchecked("/d/tidy-path", rank(2.0), 100);
    db.add_unchecked("/d/TIDY-PATH", rank(5.0), 200);
    let command = command(false, true, false, false, false, &["/d/tidy-path"]);
    let (stdout, _) = run(&command, &mut db, |_| live("/d/TIDY-PATH", 1));

    assert_eq!(db.dirs().len(), 1);
    assert_eq!(db.dirs()[0].path, "/d/TIDY-PATH");
    assert!((value(db.dirs()[0].rank) - 7.0).abs() < 0.01);
    assert_eq!(db.dirs()[0].last_accessed, 200);
    assert_eq!(
        stdout,
        "normalized /d/tidy-path -> /d/TIDY-PATH\nmerged into /d/TIDY-PATH:\n  /d/tidy-path\n\
         normalized 1 entry\nmerged 2 entries into 1 directory\n"
    );
}

#[test]
fn normalization_does_not_merge_preexisting_exact_duplicates() {
    let mut db = Database::new();
    db.add_unchecked("/d/already-normalized", rank(2.0), 100);
    db.add_unchecked("/d/already-normalized", rank(5.0), 200);
    let command = command(false, true, false, false, false, &["*"]);
    let (stdout, _) = run(&command, &mut db, |path| live(path, 1));

    assert_eq!(db.dirs().len(), 2);
    assert_eq!(stdout, "no changes needed\n");
}

#[test]
fn normalization_corrects_extant_prefix_of_dead_path() {
    let mut db = Database::new();
    db.add_unchecked("/d/tidy-parent/missing", rank(1.0), 10);
    let command = command(false, true, false, false, false, &["*"]);
    run(&command, &mut db, |_| stale("/d/TIDY-PARENT/missing"));

    assert_eq!(db.dirs()[0].path, "/d/TIDY-PARENT/missing");
}

#[test]
fn default_dedupe_uses_filesystem_identity_and_spelling() {
    let upper = "/d/DEDUPE-CASE";
    let lower = "/d/dedupe-case";
    let command = command(true, false, false, false, false, &["*"]);
    for folded in [true, false] {
        let mut db = Database::new();
        db.add_unchecked(upper, rank(2.0), 100);
        db.add_unchecked(lower, rank(5.0), 200);
        if folded {
            let (stdout, _) = run(&command, &mut db, |_| live(upper, 1));
            assert_eq!(db.dirs().len(), 1);
            assert_eq!(db.dirs()[0].path, upper);
            assert!((value(db.dirs()[0].rank) - 7.0).abs() < 0.01);
            assert_eq!(db.dirs()[0].last_accessed, 200);
            assert!(stdout.contains(lower));
        } else {
            run(&command, &mut db, |path| live(path, if path == upper { 1 } else { 2 }));
            assert_eq!(db.dirs().len(), 2);
        }
    }
}

#[test]
fn unexpected_probe_error_warns_and_preserves_entry() {
    let data_dir = tempfile::tempdir().unwrap();
    let mut db = Database::new();
    let path = format!("{}/bad\0path", data_dir.path().display());
    db.add_unchecked(path.as_str(), rank(1.0), 10);

    let command = command(false, true, true, false, false, &["*"]);
    let error = "file name contained an unexpected NUL byte";
    let (_, stderr) = run(&command, &mut db, |path| failed(path, error));

    assert_eq!(db.dirs().len(), 1);
    assert_eq!(db.dirs()[0].path, path);
    assert!(stderr.contains("zoxide: warning: could not inspect"));
    assert_eq!(stderr, format!("zoxide: warning: could not inspect {path}: {error}\n"));
}

#[test]
fn the_dry_run_of_normalizing_and_merging_is_reported() {
    let mut db = Database::new();
    db.add_unchecked("/Users/alice/projects", rank(1.0), 10);
    db.add_unchecked("/Users/alice/Projects", rank(2.0), 20);
    let command = command(true, true, false, false, true, &["*"]);
    let (stdout, _) = run(&command, &mut db, |_| live("/Users/alice/Projects", 1));
    assert_eq!(
        stdout,
        "would normalize /Users/alice/projects -> /Users/alice/Projects\n\
         would merge into /Users/alice/Projects:\n  /Users/alice/projects\n\
         would normalize 1 entry\nwould merge 2 entries into 1 directory\n"
    );
    assert_eq!(db.dirs().len(), 2);
}

#[test]
fn all_actions_are_done_in_order() {
    let mut db = Database::new();
    db.add_unchecked("/x/a", rank(1.0), 1);
    db.add_unchecked("/x/gone", rank(8.0), 2);
    db.add_unchecked("/x/A", rank(2.0), 9);
    db.add_unchecked("/x/b", rank(4.0), 4);
    db.add_unchecked("/x/aa", rank(16.0), 5);
    let mut command = command(false, false, false, false, false, &["*"]);
    command.all = true;
    let probe = |path: &str| match path {
        "/x/a" | "/x/A" => live("/x/A", 1),
        "/x/gone" => stale("/x/GONE"),
        "/x/b" => live("/x/B", 2),
        _ => live(path, 3),
    };
    let (stdout, stderr) = run(&command, &mut db, probe);
    assert_eq!(
        stdout,
        "pruned /x/gone\nnormalized /x/a -> /x/A\nnormalized /x/b -> /x/B\n\
         merged into /x/A:\n  /x/a\npruned 1 entry\nnormalized 2 entries\n\
         merged 2 entries into 1 directory\n"
    );
    assert_eq!(stderr, "");
    assert_eq!(paths(&db), ["/x/A", "/x/B", "/x/aa"]);
    assert_eq!(value(db.dirs()[0].rank), 3.0);
    assert_eq!(db.dirs()[0].last_accessed, 9);

    db.saved();
    let (stdout, _) = run(&command, &mut db, probe);
    assert_eq!(stdout, "no changes needed\n");
    assert!(!db.dirty());
}

#[test]
fn survivors_keep_their_place() {
    let mut db = Database::new();
    for (path, score) in [("/a", 1.0), ("/b", 1.0), ("/A", 5.0), ("/c", 1.0), ("/B", 0.5)] {
        db.add_unchecked(path, rank(score), 1);
    }
    let (stdout, _) = tidy(&mut db, true, false, false, true, false, &["*"]);
    assert_eq!(paths(&db), ["/b", "/A", "/c"]);
    assert_eq!(
        stdout,
        "merged into /A:\n  /a\nmerged into /b:\n  /B\nmerged 4 entries into 2 directories\n"
    );
}

#[test]
fn dead_entries_do_not_join_confirmed_groups() {
    let mut db = Database::new();
    for path in ["/p/x", "/P/x", "/p/X"] {
        db.add_unchecked(path, rank(1.0), 1);
    }
    let command = command(true, false, false, false, false, &["*"]);
    let probe = |path: &str| if path == "/P/x" { stale(path) } else { live("/p/x", 1) };
    run(&command, &mut db, probe);
    assert_eq!(paths(&db), ["/p/x", "/P/x"]);
}

#[test]
fn paths_are_looked_at_only_where_needed() {
    let mut db = Database::new();
    for path in ["/a", "/A", "/b"] {
        db.add_unchecked(path, rank(1.0), 1);
    }
    let needs = |command: Tidy| command.scan(&db).unwrap().needs_probe;
    assert_eq!(needs(command(true, false, false, false, false, &["*"])), [true, true, false]);
    assert_eq!(needs(command(true, false, false, true, false, &["*"])), [false; 3]);
    assert_eq!(needs(command(false, true, false, false, false, &["*"])), [true; 3]);
    assert_eq!(needs(command(true, false, true, true, false, &["*"])), [true; 3]);
    assert_eq!(needs(command(true, false, false, false, false, &["/a"])), [false; 3]);
}

#[test]
fn warnings_are_sorted_without_repetitions() {
    let mut db = Database::new();
    for path in ["/b", "/a", "/b"] {
        db.add_unchecked(path, rank(1.0), 1);
    }
    let command = command(false, false, true, false, false, &["*"]);
    let (stdout, stderr) = run(&command, &mut db, |path| failed(path, "denied"));
    assert_eq!(stdout, "no changes needed\n");
    assert_eq!(
        stderr,
        "zoxide: warning: could not inspect /a: denied\n\
         zoxide: warning: could not inspect /b: denied\n"
    );
}

#[test]
fn an_invalid_glob_stops_tidying() {
    let db = Database::new();
    let error = command(true, false, false, false, false, &["*", "[a"]).scan(&db).unwrap_err();
    assert_eq!(error.message(), "invalid glob: [a");
}
