use zoxide::db::Database;
use zoxide::fold::fold_key;
use zoxide::globs::{any_yes, first_refusal, select};
use zoxide::grouping::{collect_groups, union_by_key, FileId, Key, UnionFind};
use zoxide::probe::{
    after_identification, after_inspection, after_recovery, is_missing, recovered, Failure,
    Inspection, Lookup, PathComponent, ProbeState, ProbeStep, Search, Walk,
};
use zoxide::rank::Rank;
use zoxide::report::plural;

fn strings(texts: &[&str]) -> Vec<String> {
    texts.iter().map(|text| text.to_string()).collect()
}

fn database(paths: &[&str]) -> Database {
    let mut db = Database::new();
    for path in paths {
        db.add_unchecked(path, Rank::from_bits(1.0f64.to_bits()), 1);
    }
    db
}

fn selected(globs: &[&str], paths: &[&str]) -> Vec<bool> {
    select(&strings(globs), &database(paths)).unwrap()
}

#[test]
fn dedupe_star_glob_crosses_separators() {
    // The whole-database selector relies on this glob crate behavior.
    assert_eq!(selected(&["*"], &["/foo/bar"]), [true]);
}

#[test]
fn tidy_star_glob_crosses_separators() {
    assert_eq!(selected(&["*"], &["/foo/bar"]), [true]);
}

#[test]
fn any_glob_selects() {
    let paths = ["/foo/a", "/foo/b/c", "/bar/a", "/foo"];
    assert_eq!(selected(&["/foo/*"], &paths), [true, true, false, false]);
    assert_eq!(selected(&["/foo/?", "/bar/*"], &paths), [true, false, true, false]);
    assert_eq!(selected(&["/foo/[!a]*"], &paths), [false, true, false, false]);
    assert_eq!(selected(&["/**/a"], &paths), [true, false, true, false]);
    assert_eq!(selected(&[], &paths), [false, false, false, false]);
}

#[test]
fn a_glob_without_wildcards_selects_itself() {
    assert_eq!(selected(&["/foo/a"], &["/foo/a", "/foo/A", "/foo/a/b"]), [true, false, false]);
}

#[test]
fn the_first_invalid_glob_is_an_error() {
    let error = select(&strings(&["*", "a**", "["]), &database(&["/a"])).unwrap_err();
    assert_eq!(error.glob, "a**");
    assert_eq!(error.message(), "invalid glob: a**");
    let cause = "recursive wildcards must form a single path component";
    assert_eq!(error.cause, format!("Pattern syntax error near position 0: {cause}"));

    let error = select(&strings(&[r"C:\foo\*", "["]), &database(&["/a"])).unwrap_err();
    assert_eq!(error.glob, "[");
    assert_eq!(error.cause, "Pattern syntax error near position 0: invalid range pattern");
}

#[test]
fn a_backslash_in_one_glob_leaves_the_others_alone() {
    let paths = ["/foo/a", "/bar/b", "/c"];
    assert_eq!(selected(&[r"C:\foo\*", "/foo/*"], &paths), [true, false, false]);
    assert_eq!(selected(&["/bar/?", r"D:\x"], &paths), [false, true, false]);
    assert_eq!(selected(&[r"D:\x", "*"], &paths), [true; 3]);
    assert_eq!(selected(&[r"D:\x", "/c"], &paths), [false, false, true]);
}

#[test]
fn a_glob_with_a_backslash_and_no_wildcards_selects_itself() {
    let paths = [r"C:\foo\bar", "/foo/bar", r"C:\foo"];
    assert_eq!(selected(&[r"C:\foo\bar"], &paths), [true, false, false]);
    assert_eq!(selected(&["/x", r"C:\foo"], &paths), [false, false, true]);
    assert_eq!(selected(&["*"], &paths), [true; 3]);
}

#[test]
fn one_answer_is_enough_and_the_first_refusal_counts() {
    assert!(!any_yes(&vec![]));
    assert!(!any_yes(&vec![false, false]));
    assert!(any_yes(&vec![false, true, false]));
    let refused = |text: &str| Some(text.to_owned());
    assert_eq!(first_refusal(&vec![]), None);
    assert_eq!(first_refusal(&vec![None, None]), None);
    assert_eq!(first_refusal(&vec![None, refused("x"), refused("y")]), Some(1));
}

#[test]
fn fold_keys_fold_case_and_compose() {
    assert_eq!(fold_key("/AA"), "/aa");
    assert_eq!(fold_key("stra\u{df}e"), "strasse");
    assert_eq!(fold_key("STRASSE"), "strasse");
    assert_eq!(fold_key("\u{1e9e}"), "ss");
    assert_eq!(fold_key("he\u{300}h"), "h\u{e8}h");
    assert_eq!(fold_key("H\u{c8}H"), fold_key("he\u{300}h"));
    assert_ne!(fold_key("/a"), fold_key("/b"));
}

#[test]
fn union_find_represents_parts_by_their_least_member() {
    let mut unions = UnionFind::new(6);
    unions.union(4, 2);
    unions.union(5, 4);
    unions.union(1, 3);
    let found: Vec<usize> = (0..6).map(|idx| unions.find(idx)).collect();
    assert_eq!(found, [0, 1, 2, 1, 2, 2]);
    unions.union(3, 5);
    let found: Vec<usize> = (0..6).map(|idx| unions.find(idx)).collect();
    assert_eq!(found, [0, 1, 1, 1, 1, 1]);
}

#[test]
fn equal_keys_are_united() {
    let key = |text: &str, id: Option<FileId>| Some(Key { text: text.to_owned(), id });
    let file = FileId { device: 1, file: 2 };
    let keys = vec![
        key("a", None),
        None,
        key("a", Some(file)),
        key("b", None),
        key("a", None),
        key("a", Some(file)),
    ];
    let mut unions = UnionFind::new(keys.len());
    union_by_key(&mut unions, &keys);
    let out = vec![false, false, false, true, false, false];
    let groups = collect_groups(&mut unions, &out);
    assert_eq!(groups, [vec![0, 4], vec![1], vec![2, 5], vec![], vec![], vec![]]);
}

#[test]
fn missing_paths_are_told_from_other_errors() {
    assert!(is_missing(Failure::NotFound));
    assert!(is_missing(Failure::NotADirectory));
    assert!(!is_missing(Failure::Other));
}

fn normal(name: &str) -> PathComponent {
    PathComponent::Normal(name.to_owned())
}

#[test]
fn a_walk_corrects_components_until_one_is_missing() {
    let root = PathComponent::Special("/".to_owned());
    let mut walk = Walk::new();
    assert!(!walk.needs_lookup(&root));
    walk.advance(&root, None).unwrap();
    assert!(walk.needs_lookup(&normal("users")));
    walk.advance(&normal("users"), Some(Lookup::Found("Users".to_owned()))).unwrap();
    let gone = Lookup::Failed(Failure::NotFound, "no such file".to_owned());
    walk.advance(&normal("gone"), Some(gone)).unwrap();
    assert!(walk.stale);
    assert!(!walk.needs_lookup(&normal("rest")));
    walk.advance(&normal("rest"), None).unwrap();
    assert_eq!(walk.corrected, ["/", "Users", "gone", "rest"]);
}

#[test]
fn another_error_ends_the_walk() {
    let mut walk = Walk::new();
    walk.advance(&PathComponent::Special("/".to_owned()), None).unwrap();
    let denied = Lookup::Failed(Failure::Other, "permission denied".to_owned());
    assert_eq!(walk.advance(&normal("private"), Some(denied)).unwrap_err(), "permission denied");
    assert_eq!(walk.corrected, ["/"]);
    assert!(!walk.stale);
}

#[test]
fn a_search_ends_at_the_exact_spelling() {
    let mut search = Search::new("aa");
    assert!(!search.consider("bb"));
    assert!(!search.consider("Aa"));
    assert!(search.consider("aa"));
    assert_eq!(search.candidates, ["Aa"]);
}

#[test]
fn a_search_picks_the_first_candidate_with_the_file() {
    let file = |file: u64| FileId { device: 7, file };
    let mut search = Search::new("aa");
    for actual in ["AA", "Aa", "aA", "x"] {
        assert!(!search.consider(actual));
    }
    let ids = vec![None, Some(file(3)), Some(file(3))];
    assert_eq!(search.pick("/d/aa", file(3), &ids).unwrap(), "Aa");
    let error = search.pick("/d/aa", file(4), &ids).unwrap_err();
    assert_eq!(error, "could not recover the on-disk spelling of /d/aa");
}

/// Searches a listing, and tells whether the name itself is in it.
fn search(name: &str, listing: &[&str]) -> (bool, Vec<String>) {
    let mut search = Search::new(name);
    let ended = listing.iter().any(|actual| search.consider(actual));
    (ended, search.candidates)
}

#[test]
fn a_whole_search_finds_the_name_or_its_foldings() {
    let listing = ["b", "STRASSE", "Stra\u{df}e", "c", "strasse"];
    assert!(search("strasse", &listing).0);
    assert!(search("STRASSE", &listing).0);
    let (ended, candidates) = search("StrasSe", &listing);
    assert!(!ended);
    assert_eq!(candidates, ["STRASSE", "Stra\u{df}e", "strasse"]);
    assert!(candidates.iter().all(|actual| search(actual, &listing).0));
    assert_eq!(search("d", &listing), (false, vec![]));
}

/// Walks along names in a directory tree of one file for each spelling.
fn walk(names: &[String], tree: &[&[&str]]) -> Vec<String> {
    let mut walk = Walk::new();
    for (name, listing) in names.iter().zip(tree) {
        let component = normal(name);
        let lookup = if walk.needs_lookup(&component) {
            let (ended, candidates) = search(name, listing);
            let found = if ended { Some(name.clone()) } else { candidates.first().cloned() };
            Some(match found {
                Some(actual) => Lookup::Found(actual),
                None => Lookup::Failed(Failure::NotFound, "not found".to_owned()),
            })
        } else {
            None
        };
        walk.advance(&component, lookup).unwrap();
    }
    walk.corrected
}

#[test]
fn walking_again_corrects_nothing() {
    let tree: [&[&str]; 4] = [&["Users"], &["Bob", "alice"], &["x"], &["Y"]];
    let once = walk(&strings(&["users", "ALICE", "gone", "y"]), &tree);
    assert_eq!(once, ["Users", "alice", "gone", "y"]);
    assert_eq!(walk(&once, &tree), once);
}

#[test]
fn a_recovered_spelling_has_the_folding_of_the_path() {
    assert_eq!(recovered("/users/x", "/Users/x".to_owned()).unwrap(), "/Users/x");
    let error = recovered("/users/x", "/other".to_owned()).unwrap_err();
    assert_eq!(error, "on-disk spelling is not fold-equivalent to stored path");
}

#[test]
fn probing_tells_live_stale_and_failed_paths() {
    match after_recovery("/a", Ok(("/A".to_owned(), true))) {
        ProbeStep::Done(probe) => {
            assert_eq!(probe.spelling, "/A");
            assert!(matches!(probe.state, ProbeState::Stale));
        }
        _ => panic!("the path is stale"),
    }
    match after_recovery("/a", Err("denied".to_owned())) {
        ProbeStep::Done(probe) => {
            assert_eq!(probe.spelling, "/a");
            assert!(matches!(probe.state, ProbeState::Error(error) if error == "denied"));
        }
        _ => panic!("the path cannot be looked at"),
    }
    let spelling = match after_recovery("/a", Ok(("/A".to_owned(), false))) {
        ProbeStep::Inspect(spelling) => spelling,
        _ => panic!("the path is to be inspected"),
    };
    for found in
        [Inspection::NoDirectory, Inspection::Failed(Failure::NotFound, "gone".to_owned())]
    {
        match after_inspection("/a", spelling.clone(), found) {
            ProbeStep::Done(probe) => {
                assert_eq!(probe.spelling, "/A");
                assert!(matches!(probe.state, ProbeState::Stale));
            }
            _ => panic!("the path is stale"),
        }
    }
    let denied = Inspection::Failed(Failure::Other, "denied".to_owned());
    match after_inspection("/a", spelling.clone(), denied) {
        ProbeStep::Done(probe) => {
            assert_eq!(probe.spelling, "/a");
            assert!(matches!(probe.state, ProbeState::Error(error) if error == "denied"));
        }
        _ => panic!("the path cannot be looked at"),
    }
    let spelling = match after_inspection("/a", spelling, Inspection::Directory) {
        ProbeStep::Identify(spelling) => spelling,
        _ => panic!("the file is to be told"),
    };
    let id = FileId { device: 1, file: 2 };
    let probe = after_identification("/a", spelling.clone(), Ok(id));
    assert_eq!(probe.spelling, "/A");
    assert!(matches!(probe.state, ProbeState::Live(found) if found == id));
    let probe = after_identification("/a", spelling, Err("denied".to_owned()));
    assert_eq!(probe.spelling, "/a");
    assert!(matches!(probe.state, ProbeState::Error(error) if error == "denied"));
}

#[test]
fn nouns_go_with_their_number() {
    assert_eq!(plural(0, "entry", "entries"), "entries");
    assert_eq!(plural(1, "entry", "entries"), "entry");
    assert_eq!(plural(2, "entry", "entries"), "entries");
}
