//! Which entries globs select.

use vstd::prelude::*;

use crate::db::Database;
use crate::dir::DirView;
use crate::sort::views;

verus! {

/// What is wrong with the syntax of the glob, if anything.
pub uninterp spec fn glob_error(glob: Seq<char>) -> Option<Seq<char>>;

/// Whether the glob is valid and matches the path.
pub uninterp spec fn glob_matches(glob: Seq<char>, path: Seq<char>) -> bool;

/// Whether a text means the same on every platform. A backslash separates
/// components on some and is an ordinary character on others.
pub open spec fn portable(text: Seq<char>) -> bool {
    !text.contains('\\')
}

/// Whether a glob is a plain path, without wildcards.
pub open spec fn is_literal(glob: Seq<char>) -> bool {
    !glob.contains('*') && !glob.contains('?') && !glob.contains('[')
}

/// What a text says, where there is one.
pub open spec fn text_of(text: Option<String>) -> Option<Seq<char>> {
    match text {
        Some(text) => Some(text@),
        None => None,
    }
}

/// The glob that matches every path.
pub open spec fn star() -> Seq<char> {
    seq!['*']
}

/// Whether the glob has the syntax of one.
pub open spec fn glob_valid(glob: Seq<char>) -> bool {
    glob_error(glob) is None
}

/// `glob::Pattern::new`, the text of the error that it gives, or none where it
/// accepts the glob. It accepts a single star, and every glob without
/// wildcards. What it makes of a backslash depends on the platform and is left
/// open.
#[verifier::external_body]
fn syntax_error(glob: &str) -> (error: Option<String>)
    ensures
        portable(glob@) ==> text_of(error) == glob_error(glob@),
        glob@ == star() ==> error is None,
        is_literal(glob@) ==> error is None,
{
    match glob::Pattern::new(glob) {
        Ok(_) => None,
        Err(error) => Some(error.to_string()),
    }
}

/// `glob::Pattern::matches`, with the glob compiled first. A single star
/// matches every path, for it crosses separators; a glob without wildcards
/// matches itself and, where there is no backslash, nothing else. What a
/// backslash matches depends on the platform and is left open.
#[verifier::external_body]
fn matches(glob: &str, path: &str) -> (matching: bool)
    ensures
        portable(glob@) && portable(path@) ==> matching == glob_matches(glob@, path@),
        glob@ == star() ==> matching,
        is_literal(glob@) && glob@ == path@ ==> matching,
        is_literal(glob@) && portable(glob@) && portable(path@) ==> matching == (glob@ == path@),
{
    glob::Pattern::new(glob).is_ok_and(|pattern| pattern.matches(path))
}

/// A glob that has not the syntax of one, and what is wrong with it.
#[derive(Debug)]
pub struct InvalidGlob {
    pub glob: String,
    pub cause: String,
}

impl InvalidGlob {
    /// A message for the user.
    pub fn message(&self) -> (message: String)
        ensures
            message@ == "invalid glob: "@ + self.glob@,
    {
        let mut message = "invalid glob: ".to_owned();
        message.append(self.glob.as_str());
        message
    }
}

/// The globs to go by: those that are given, or else the one that matches
/// every path.
pub fn pathglobs_or_star(pathglobs: Vec<String>) -> (chosen: Vec<String>)
    ensures
        pathglobs@.len() > 0 ==> chosen@ == pathglobs@,
        pathglobs@.len() == 0 ==> views(chosen@) == seq![star()],
        pathglobs@.len() == 0 ==> chosen@.len() == 1 && chosen@[0]@ == seq!['*'],
{
    if pathglobs.len() > 0 {
        return pathglobs;
    }
    let mut chosen: Vec<String> = Vec::new();
    chosen.push("*".to_owned());
    proof {
        reveal_strlit("*");
        assert("*"@ =~= star());
        assert(views(chosen@) =~= seq![star()]);
        assert(chosen@[0]@ =~= seq!['*']);
    }
    chosen
}

/// Whether these can be the answers to which globs match the path. They are
/// fixed where neither the glob nor the path has a backslash, for a single
/// star, and for a path that is itself a glob without wildcards.
pub open spec fn answers_for(
    globs: Seq<Seq<char>>,
    path: Seq<char>,
    answers: Seq<bool>,
) -> bool {
    &&& answers.len() == globs.len()
    &&& forall|g: int|
        0 <= g < globs.len() && portable(globs[g]) && portable(path) ==> #[trigger] answers[g]
            == glob_matches(globs[g], path)
    &&& forall|g: int|
        0 <= g < globs.len() && portable(globs[g]) && portable(path) && is_literal(globs[g])
            ==> #[trigger] answers[g] == (globs[g] == path)
    &&& forall|g: int|
        0 <= g < globs.len() && (globs[g] == star() || (is_literal(globs[g]) && globs[g] == path))
            ==> #[trigger] answers[g]
}

/// Whether a path can be selected, or not: it is where one of the answers to
/// which globs match it is yes.
pub open spec fn can_answer(globs: Seq<Seq<char>>, path: Seq<char>, selected: bool) -> bool {
    exists|answers: Seq<bool>|
        #[trigger] answers_for(globs, path, answers) && selected == answers.contains(true)
}

/// Whether these can be the verdicts on globs: what is wrong with each, if
/// anything. They are fixed for a glob without a backslash; a single star and
/// a glob without wildcards are valid.
pub open spec fn verdicts_for(
    globs: Seq<Seq<char>>,
    verdicts: Seq<Option<Seq<char>>>,
) -> bool {
    &&& verdicts.len() == globs.len()
    &&& forall|g: int|
        0 <= g < globs.len() && portable(globs[g]) ==> #[trigger] verdicts[g] == glob_error(
            globs[g],
        )
    &&& forall|g: int|
        0 <= g < globs.len() && (globs[g] == star() || is_literal(globs[g]))
            ==> #[trigger] verdicts[g] is None
}

/// Whether the verdict at `g` is the first that refuses.
pub open spec fn is_first_refusal(verdicts: Seq<Option<Seq<char>>>, g: int) -> bool {
    &&& 0 <= g < verdicts.len()
    &&& verdicts[g] is Some
    &&& forall|h: int| 0 <= h < g ==> #[trigger] verdicts[h] is None
}

/// What verdicts say.
pub open spec fn verdict_views(verdicts: Seq<Option<String>>) -> Seq<Option<Seq<char>>> {
    verdicts.map_values(|verdict: Option<String>| text_of(verdict))
}

/// Whether one of the answers is yes.
pub fn any_yes(answers: &Vec<bool>) -> (yes: bool)
    ensures
        yes == answers@.contains(true),
{
    let mut g: usize = 0;
    while g < answers.len()
        invariant
            g <= answers.len(),
            forall|h: int| 0 <= h < g ==> !(#[trigger] answers@[h]),
        decreases answers.len() - g,
    {
        if answers[g] {
            assert(answers@[g as int]);
            return true;
        }
        g += 1;
    }
    false
}

/// The first verdict that refuses.
pub fn first_refusal(verdicts: &Vec<Option<String>>) -> (first: Option<usize>)
    ensures
        match first {
            Some(g) => is_first_refusal(verdict_views(verdicts@), g as int),
            None => forall|g: int| 0 <= g < verdicts@.len() ==> #[trigger] verdicts@[g] is None,
        },
{
    let ghost texts = verdict_views(verdicts@);
    let mut g: usize = 0;
    while g < verdicts.len()
        invariant
            g <= verdicts.len(),
            texts == verdict_views(verdicts@),
            forall|h: int| 0 <= h < g ==> #[trigger] verdicts@[h] is None,
        decreases verdicts.len() - g,
    {
        if verdicts[g].is_some() {
            assert forall|h: int| 0 <= h < g implies #[trigger] texts[h] is None by {
                assert(verdicts@[h] is None);
            }
            return Some(g);
        }
        g += 1;
    }
    None
}

/// The answers to which globs match the path.
fn answers(globs: &Vec<String>, path: &str) -> (answers: Vec<bool>)
    ensures
        answers_for(views(globs@), path@, answers@),
{
    let ghost texts = views(globs@);
    let mut answers: Vec<bool> = Vec::new();
    let mut g: usize = 0;
    while g < globs.len()
        invariant
            g <= globs.len(),
            texts == views(globs@),
            answers@.len() == g,
            answers_for(texts.take(g as int), path@, answers@),
        decreases globs.len() - g,
    {
        assert(texts[g as int] == globs@[g as int]@);
        let ghost before = answers@;
        answers.push(matches(globs[g].as_str(), path));
        proof {
            let some = texts.take(g as int);
            let more = texts.take(g + 1);
            assert forall|h: int| 0 <= h < g implies more[h] == some[h] && answers@[h]
                == before[h] by {}
            assert(more[g as int] == texts[g as int]);
        }
        g += 1;
    }
    assert(texts.take(g as int) =~= texts);
    answers
}

/// The verdicts on globs.
fn verdicts(globs: &Vec<String>) -> (verdicts: Vec<Option<String>>)
    ensures
        verdicts_for(views(globs@), verdict_views(verdicts@)),
{
    let ghost texts = views(globs@);
    let mut verdicts: Vec<Option<String>> = Vec::new();
    let mut g: usize = 0;
    while g < globs.len()
        invariant
            g <= globs.len(),
            texts == views(globs@),
            verdicts@.len() == g,
            verdicts_for(texts.take(g as int), verdict_views(verdicts@)),
        decreases globs.len() - g,
    {
        assert(texts[g as int] == globs@[g as int]@);
        let ghost before = verdict_views(verdicts@);
        verdicts.push(syntax_error(globs[g].as_str()));
        proof {
            let some = texts.take(g as int);
            let more = texts.take(g + 1);
            let after = verdict_views(verdicts@);
            assert forall|h: int| 0 <= h < g implies more[h] == some[h] && after[h]
                == before[h] by {}
            assert(more[g as int] == texts[g as int]);
        }
        g += 1;
    }
    assert(texts.take(g as int) =~= texts);
    verdicts
}

/// Whether some glob matches the path.
fn selects(globs: &Vec<String>, path: &str) -> (selected: bool)
    ensures
        can_answer(views(globs@), path@, selected),
{
    any_yes(&answers(globs, path))
}

/// Whether these are the entries that the globs select: no glob is refused, and
/// an entry is selected where one of the answers to which globs match its path
/// is yes.
pub open spec fn is_selection(
    globs: Seq<Seq<char>>,
    dirs: Seq<DirView>,
    selected: Seq<bool>,
) -> bool {
    &&& selected.len() == dirs.len()
    &&& forall|g: int|
        0 <= g < globs.len() && portable(#[trigger] globs[g]) ==> glob_valid(globs[g])
    &&& forall|i: int|
        0 <= i < dirs.len() ==> can_answer(globs, dirs[i].path, #[trigger] selected[i])
}

/// Whether globs are refused because of this one: its verdict is the first that
/// refuses, and tells this cause.
pub open spec fn is_refusal(
    globs: Seq<Seq<char>>,
    glob: Seq<char>,
    cause: Seq<char>,
) -> bool {
    exists|verdicts: Seq<Option<Seq<char>>>, g: int|
        #[trigger] verdicts_for(globs, verdicts) && #[trigger] is_first_refusal(verdicts, g)
            && globs[g] == glob && verdicts[g] == Some(cause)
}

/// Which entries the globs select. The first glob that is not valid is an
/// error. What a glob makes of a backslash, in itself or in a path, depends on
/// the platform.
pub fn select(globs: &Vec<String>, db: &Database) -> (selection: Result<Vec<bool>, InvalidGlob>)
    ensures
        match selection {
            Ok(selected) => is_selection(views(globs@), db@.dirs, selected@),
            Err(error) => is_refusal(views(globs@), error.glob@, error.cause@),
        },
{
    let ghost texts = views(globs@);
    let verdicts = verdicts(globs);
    let ghost found = verdict_views(verdicts@);
    match first_refusal(&verdicts) {
        Some(g) => {
            assert(texts[g as int] == globs@[g as int]@);
            assert(found[g as int] == text_of(verdicts@[g as int]));
            match &verdicts[g] {
                Some(cause) => {
                    return Err(
                        InvalidGlob {
                            glob: globs[g].as_str().to_owned(),
                            cause: cause.as_str().to_owned(),
                        },
                    );
                },
                None => {},
            }
        },
        None => {},
    }
    assert forall|g: int| 0 <= g < texts.len() && portable(#[trigger] texts[g]) implies glob_valid(
        texts[g],
    ) by {
        assert(verdicts@[g] is None);
        assert(found[g] is None);
    }
    let dirs = db.dirs();
    let mut selected: Vec<bool> = Vec::new();
    let mut i: usize = 0;
    while i < dirs.len()
        invariant
            i <= dirs.len(),
            views(dirs@) == db@.dirs,
            texts == views(globs@),
            selected@.len() == i,
            forall|j: int|
                0 <= j < i ==> can_answer(texts, db@.dirs[j].path, #[trigger] selected@[j]),
        decreases dirs.len() - i,
    {
        assert(db@.dirs[i as int].path == dirs@[i as int].path@);
        selected.push(selects(globs, dirs[i].path.as_str()));
        i += 1;
    }
    Ok(selected)
}

/// An entry is selected as soon as one glob matches it, whatever the other
/// globs are: a single star, the path itself as a glob without wildcards, or
/// any glob that matches it where neither has a backslash.
pub proof fn one_matching_glob_selects(
    globs: Seq<Seq<char>>,
    dirs: Seq<DirView>,
    selected: Seq<bool>,
    i: int,
    g: int,
)
    requires
        is_selection(globs, dirs, selected),
        0 <= i < dirs.len(),
        0 <= g < globs.len(),
        globs[g] == star() || (is_literal(globs[g]) && globs[g] == dirs[i].path) || (portable(
            globs[g],
        ) && portable(dirs[i].path) && glob_matches(globs[g], dirs[i].path)),
    ensures
        selected[i],
{
    assert(can_answer(globs, dirs[i].path, selected[i]));
    let answers = choose|answers: Seq<bool>|
        #[trigger] answers_for(globs, dirs[i].path, answers) && selected[i] == answers.contains(
            true,
        );
    assert(answers[g]);
}

/// Where there is no backslash, an entry is selected only if one of the globs
/// matches it.
pub proof fn only_a_matching_glob_selects(
    globs: Seq<Seq<char>>,
    dirs: Seq<DirView>,
    selected: Seq<bool>,
    i: int,
)
    requires
        is_selection(globs, dirs, selected),
        0 <= i < dirs.len(),
        selected[i],
        portable(dirs[i].path),
        forall|g: int| 0 <= g < globs.len() ==> portable(#[trigger] globs[g]),
    ensures
        exists|g: int| 0 <= g < globs.len() && glob_matches(#[trigger] globs[g], dirs[i].path),
{
    assert(can_answer(globs, dirs[i].path, selected[i]));
    let answers = choose|answers: Seq<bool>|
        #[trigger] answers_for(globs, dirs[i].path, answers) && selected[i] == answers.contains(
            true,
        );
    let g = answers.index_of(true);
    assert(answers[g]);
    assert(glob_matches(globs[g], dirs[i].path));
}

/// A glob that is refused is one of the globs. It has wildcards and is not a
/// single star; without a backslash, it is not valid.
pub proof fn a_refused_glob_is_not_valid(
    globs: Seq<Seq<char>>,
    glob: Seq<char>,
    cause: Seq<char>,
)
    requires
        is_refusal(globs, glob, cause),
    ensures
        globs.contains(glob),
        glob != star(),
        !is_literal(glob),
        portable(glob) ==> glob_error(glob) == Some(cause),
{
    let (verdicts, g) = choose|verdicts: Seq<Option<Seq<char>>>, g: int|
        #[trigger] verdicts_for(globs, verdicts) && #[trigger] is_first_refusal(verdicts, g)
            && globs[g] == glob && verdicts[g] == Some(cause);
    assert(verdicts[g] is Some);
    assert(globs[g] == glob);
}

/// Where entries were selected, every glob is valid; where one is refused, it
/// is the first that is not. What a backslash means is left open.
pub proof fn the_first_invalid_glob_is_refused(
    globs: Seq<Seq<char>>,
    dirs: Seq<DirView>,
    selected: Seq<bool>,
    glob: Seq<char>,
    cause: Seq<char>,
)
    ensures
        is_selection(globs, dirs, selected) ==> selected.len() == dirs.len() && forall|g: int|
            0 <= g < globs.len() && portable(#[trigger] globs[g]) ==> glob_error(globs[g]) is None,
        is_refusal(globs, glob, cause) ==> exists|g: int|
            0 <= g < globs.len() && #[trigger] globs[g] == glob && (portable(glob) ==> glob_error(
                glob,
            ) == Some(cause)) && (forall|h: int|
                0 <= h < g && portable(#[trigger] globs[h]) ==> glob_error(globs[h]) is None),
{
    if is_selection(globs, dirs, selected) {
        assert forall|g: int| 0 <= g < globs.len() && portable(#[trigger] globs[g]) implies
            glob_error(globs[g]) is None by {
            assert(glob_valid(globs[g]));
        }
    }
    if is_refusal(globs, glob, cause) {
        let (verdicts, g) = choose|verdicts: Seq<Option<Seq<char>>>, g: int|
            #[trigger] verdicts_for(globs, verdicts) && #[trigger] is_first_refusal(verdicts, g)
                && globs[g] == glob && verdicts[g] == Some(cause);
        assert(globs[g] == glob);
        assert(verdicts[g] == Some(cause));
        assert forall|h: int| 0 <= h < g && portable(#[trigger] globs[h]) implies glob_error(
            globs[h],
        ) is None by {
            assert(verdicts[h] is None);
            assert(verdicts[h] == glob_error(globs[h]));
        }
    }
}

/// A single star selects every entry, and no globs at all select none.
pub proof fn a_single_star_selects_all(dirs: Seq<DirView>, selected: Seq<bool>, i: int)
    requires
        0 <= i < dirs.len(),
    ensures
        is_selection(seq![seq!['*']], dirs, selected) ==> selected[i],
        is_selection(Seq::empty(), dirs, selected) ==> !selected[i],
{
    if is_selection(seq![seq!['*']], dirs, selected) {
        one_matching_glob_selects(seq![seq!['*']], dirs, selected, i, 0);
    }
    if is_selection(Seq::empty(), dirs, selected) && selected[i] {
        let none = Seq::<Seq<char>>::empty();
        assert(can_answer(none, dirs[i].path, selected[i]));
        let answers = choose|answers: Seq<bool>|
            #[trigger] answers_for(none, dirs[i].path, answers) && selected[i]
                == answers.contains(true);
        assert(answers.contains(true));
    }
}

} // verus!
