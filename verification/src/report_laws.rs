//! What the texts for the user say.

use vstd::prelude::*;

use crate::db::DatabaseError;
use crate::dedupe::dedupe_report;
use crate::report::{counted, lines, merge_lines, merge_text, total_entries, MergeReport};
use crate::report::MergeView;
use crate::survey::PlanView;
use crate::text::{decimal, digit};
use crate::tidy::{entries_total, merges_total, normalize_lines, report_text, warning_lines};
use crate::tidy::{NormalizeReport, TidyPlan, Warning};

verus! {

/// The number that decimal digits stand for.
pub open spec fn number_of(text: Seq<char>) -> int
    decreases text.len(),
{
    if text.len() == 0 {
        0
    } else {
        10 * number_of(text.drop_last()) + (text.last() as u32 - '0' as u32)
    }
}

/// A number is written in digits that stand for it, without leading zeros.
pub proof fn numbers_are_written_in_their_digits(n: nat)
    ensures
        number_of(decimal(n)) == n,
        decimal(n).len() > 0,
        forall|i: int| 0 <= i < decimal(n).len() ==> '0' <= #[trigger] decimal(n)[i] <= '9',
        n > 0 ==> decimal(n)[0] != '0',
        n == 0 ==> decimal(n).len() == 1,
    decreases n,
{
    let d = n % 10;
    assert(digit(d) as u32 - '0' as u32 == d);
    if n < 10 {
        assert(decimal(n).drop_last() =~= Seq::empty());
        assert(number_of(Seq::empty()) == 0);
        assert(decimal(n).last() == digit(n));
    } else {
        numbers_are_written_in_their_digits(n / 10);
        assert(decimal(n).drop_last() =~= decimal(n / 10));
        assert(decimal(n).last() == digit(n % 10));
    }
}

/// A count is the number and the form of the noun that goes with it: the one for
/// one, and the other for every other number.
pub proof fn counts_agree_with_their_nouns(n: nat, one: Seq<char>, many: Seq<char>)
    ensures
        n == 1 ==> counted(n, one, many) == seq!['1', ' '] + one,
        n != 1 ==> counted(n, one, many) == decimal(n).push(' ') + many,
{
    reveal_strlit(" ");
    assert(" "@ =~= seq![' ']);
    if n == 1 {
        assert(decimal(1) =~= seq!['1']);
        assert(counted(n, one, many) =~= seq!['1', ' '] + one);
    } else {
        assert(counted(n, one, many) =~= decimal(n).push(' ') + many);
    }
}

/// Whether a text has this line at `at`.
pub open spec fn has_line_at(text: Seq<char>, line: Seq<char>, at: int) -> bool {
    &&& 0 <= at
    &&& at + line.len() < text.len()
    &&& at == 0 || text[at - 1] == '\n'
    &&& text.subrange(at, at + line.len()) == line
    &&& text[at + line.len()] == '\n'
}

/// Whether a text has this line.
pub open spec fn has_line(text: Seq<char>, line: Seq<char>) -> bool {
    exists|at: int| has_line_at(text, line, at)
}

/// Whether a text is made of whole lines.
pub open spec fn is_lines(text: Seq<char>) -> bool {
    text.len() == 0 || text.last() == '\n'
}

proof fn lemma_line_before(text: Seq<char>, more: Seq<char>, line: Seq<char>)
    requires
        has_line(text, line),
    ensures
        has_line(text + more, line),
{
    let at = choose|at: int| has_line_at(text, line, at);
    assert((text + more).subrange(at, at + line.len()) =~= text.subrange(at, at + line.len()));
    assert(has_line_at(text + more, line, at));
}

proof fn lemma_line_behind(text: Seq<char>, more: Seq<char>, line: Seq<char>)
    requires
        is_lines(text),
        has_line(more, line),
    ensures
        has_line(text + more, line),
{
    let at = choose|at: int| has_line_at(more, line, at);
    let there = text.len() + at;
    assert((text + more).subrange(there, there + line.len()) =~= more.subrange(
        at,
        at + line.len(),
    ));
    assert(has_line_at(text + more, line, there));
}

proof fn lemma_one_line(line: Seq<char>)
    ensures
        has_line(line + "\n"@, line),
        is_lines(line + "\n"@),
{
    reveal_strlit("\n");
    assert((line + "\n"@).subrange(0, line.len() as int) =~= line);
    assert(has_line_at(line + "\n"@, line, 0));
}

proof fn lemma_lines(prefix: Seq<char>, texts: Seq<Seq<char>>)
    ensures
        is_lines(lines(prefix, texts)),
        forall|k: int|
            0 <= k < texts.len() ==> has_line(lines(prefix, texts), prefix + #[trigger] texts[k]),
    decreases texts.len(),
{
    if texts.len() > 0 {
        let front = texts.drop_last();
        let line = prefix + texts.last();
        let whole = lines(prefix, texts);
        lemma_lines(prefix, front);
        lemma_one_line(line);
        assert(whole =~= lines(prefix, front) + (line + "\n"@));
        assert(whole.last() == (line + "\n"@).last()) by {
            reveal_strlit("\n");
        }
        lemma_line_behind(lines(prefix, front), line + "\n"@, line);
        assert forall|k: int| 0 <= k < texts.len() implies has_line(
            whole,
            prefix + #[trigger] texts[k],
        ) by {
            if k < front.len() {
                assert(front[k] == texts[k]);
                lemma_line_before(lines(prefix, front), line + "\n"@, prefix + texts[k]);
            }
        }
    }
}

proof fn lemma_normalize_lines(verb: Seq<char>, normalized: Seq<(Seq<char>, Seq<char>)>)
    ensures
        is_lines(normalize_lines(verb, normalized)),
        forall|k: int|
            0 <= k < normalized.len() ==> has_line(
                normalize_lines(verb, normalized),
                verb + " "@ + (#[trigger] normalized[k]).0 + " -> "@ + normalized[k].1,
            ),
    decreases normalized.len(),
{
    if normalized.len() > 0 {
        let front = normalized.drop_last();
        let last = normalized.last();
        let line = verb + " "@ + last.0 + " -> "@ + last.1;
        let whole = normalize_lines(verb, normalized);
        lemma_normalize_lines(verb, front);
        lemma_one_line(line);
        assert(whole =~= normalize_lines(verb, front) + (line + "\n"@));
        assert(whole.last() == (line + "\n"@).last()) by {
            reveal_strlit("\n");
        }
        lemma_line_behind(normalize_lines(verb, front), line + "\n"@, line);
        assert forall|k: int| 0 <= k < normalized.len() implies has_line(
            whole,
            verb + " "@ + (#[trigger] normalized[k]).0 + " -> "@ + normalized[k].1,
        ) by {
            if k < front.len() {
                assert(front[k] == normalized[k]);
                lemma_line_before(
                    normalize_lines(verb, front),
                    line + "\n"@,
                    verb + " "@ + normalized[k].0 + " -> "@ + normalized[k].1,
                );
            }
        }
    }
}

#[verifier::rlimit(40)]
proof fn lemma_merge_text(verb: Seq<char>, path: Seq<char>, merged: Seq<Seq<char>>)
    ensures
        is_lines(merge_text(verb, path, merged)),
        has_line(merge_text(verb, path, merged), verb + " into "@ + path + ":"@),
        forall|k: int|
            0 <= k < merged.len() ==> has_line(
                merge_text(verb, path, merged),
                "  "@ + #[trigger] merged[k],
            ),
{
    reveal_strlit(":\n");
    reveal_strlit(":");
    reveal_strlit("\n");
    let head = verb + " into "@ + path + ":"@;
    let tail = lines("  "@, merged);
    let whole = merge_text(verb, path, merged);
    lemma_one_line(head);
    lemma_lines("  "@, merged);
    assert(":\n"@ =~= ":"@ + "\n"@);
    assert(whole =~= (head + "\n"@) + tail);
    lemma_line_before(head + "\n"@, tail, head);
    lemma_joined(head + "\n"@, tail);
    assert forall|k: int| 0 <= k < merged.len() implies has_line(
        whole,
        "  "@ + #[trigger] merged[k],
    ) by {
        lemma_line_behind(head + "\n"@, tail, "  "@ + merged[k]);
    }
}

/// Whether a text has the lines of a merge: one with the path, and one for each
/// spelling that goes away.
pub open spec fn has_merge(text: Seq<char>, verb: Seq<char>, merge: MergeView) -> bool {
    &&& has_line(text, verb + " into "@ + merge.path + ":"@)
    &&& forall|k: int|
        0 <= k < merge.merged.len() ==> has_line(text, "  "@ + #[trigger] merge.merged[k])
}

proof fn lemma_merge_before(text: Seq<char>, more: Seq<char>, verb: Seq<char>, merge: MergeView)
    requires
        has_merge(text, verb, merge),
    ensures
        has_merge(text + more, verb, merge),
{
    lemma_line_before(text, more, verb + " into "@ + merge.path + ":"@);
    assert forall|k: int| 0 <= k < merge.merged.len() implies has_line(
        text + more,
        "  "@ + #[trigger] merge.merged[k],
    ) by {
        lemma_line_before(text, more, "  "@ + merge.merged[k]);
    }
}

proof fn lemma_merge_behind(text: Seq<char>, more: Seq<char>, verb: Seq<char>, merge: MergeView)
    requires
        is_lines(text),
        has_merge(more, verb, merge),
    ensures
        has_merge(text + more, verb, merge),
{
    lemma_line_behind(text, more, verb + " into "@ + merge.path + ":"@);
    assert forall|k: int| 0 <= k < merge.merged.len() implies has_line(
        text + more,
        "  "@ + #[trigger] merge.merged[k],
    ) by {
        lemma_line_behind(text, more, "  "@ + merge.merged[k]);
    }
}

/// Texts of whole lines make one.
proof fn lemma_joined(text: Seq<char>, more: Seq<char>)
    requires
        is_lines(text),
        is_lines(more),
    ensures
        is_lines(text + more),
{
    if more.len() > 0 {
        assert((text + more).last() == more.last());
    } else {
        assert(text + more =~= text);
    }
}

/// What a text tells of merges it tells with one more behind it.
proof fn lemma_one_merge_more(
    before: Seq<char>,
    text: Seq<char>,
    verb: Seq<char>,
    merges: Seq<MergeView>,
)
    requires
        merges.len() > 0,
        is_lines(before),
        has_merge(text, verb, merges.last()),
        forall|k: int|
            0 <= k < merges.len() - 1 ==> has_merge(before, verb, #[trigger] merges[k]),
    ensures
        forall|k: int|
            0 <= k < merges.len() ==> has_merge(before + text, verb, #[trigger] merges[k]),
{
    assert forall|k: int| 0 <= k < merges.len() implies has_merge(
        before + text,
        verb,
        #[trigger] merges[k],
    ) by {
        if k < merges.len() - 1 {
            lemma_merge_before(before, text, verb, merges[k]);
        } else {
            lemma_merge_behind(before, text, verb, merges.last());
        }
    }
}

proof fn lemma_merge_lines(verb: Seq<char>, merges: Seq<MergeView>)
    ensures
        is_lines(merge_lines(verb, merges)),
        forall|k: int|
            0 <= k < merges.len() ==> has_merge(
                merge_lines(verb, merges),
                verb,
                #[trigger] merges[k],
            ),
    decreases merges.len(),
{
    if merges.len() > 0 {
        let front = merges.drop_last();
        let last = merges.last();
        let before = merge_lines(verb, front);
        let text = merge_text(verb, last.path, last.merged);
        lemma_merge_lines(verb, front);
        lemma_merge_text(verb, last.path, last.merged);
        lemma_joined(before, text);
        assert forall|k: int| 0 <= k < merges.len() - 1 implies has_merge(
            before,
            verb,
            #[trigger] merges[k],
        ) by {
            assert(front[k] == merges[k]);
        }
        lemma_one_merge_more(before, text, verb, merges);
    }
}

/// The lines of each section are lines of a text that is made of them.
#[verifier::rlimit(40)]
proof fn lemma_sections(
    plan: PlanView,
    prune: Seq<char>,
    normalize: Seq<char>,
    merge: Seq<char>,
    rest: Seq<char>,
    text: Seq<char>,
)
    requires
        text == lines(prune + " "@, plan.pruned) + (normalize_lines(normalize, plan.normalized) + (
        merge_lines(merge, plan.merges) + rest)),
    ensures
        forall|k: int|
            0 <= k < plan.pruned.len() ==> has_line(
                text,
                prune + " "@ + #[trigger] plan.pruned[k],
            ),
        forall|k: int|
            0 <= k < plan.normalized.len() ==> has_line(
                text,
                normalize + " "@ + (#[trigger] plan.normalized[k]).0 + " -> "@
                    + plan.normalized[k].1,
            ),
        forall|k: int|
            0 <= k < plan.merges.len() ==> has_merge(text, merge, #[trigger] plan.merges[k]),
{
    let a = lines(prune + " "@, plan.pruned);
    let b = normalize_lines(normalize, plan.normalized);
    let c = merge_lines(merge, plan.merges);
    lemma_lines(prune + " "@, plan.pruned);
    lemma_normalize_lines(normalize, plan.normalized);
    lemma_merge_lines(merge, plan.merges);
    assert forall|k: int| 0 <= k < plan.pruned.len() implies has_line(
        text,
        prune + " "@ + #[trigger] plan.pruned[k],
    ) by {
        lemma_line_before(a, b + (c + rest), prune + " "@ + plan.pruned[k]);
    }
    assert forall|k: int| 0 <= k < plan.normalized.len() implies has_line(
        text,
        normalize + " "@ + (#[trigger] plan.normalized[k]).0 + " -> "@ + plan.normalized[k].1,
    ) by {
        let line = normalize + " "@ + plan.normalized[k].0 + " -> "@ + plan.normalized[k].1;
        lemma_line_before(b, c + rest, line);
        lemma_line_behind(a, b + (c + rest), line);
    }
    assert forall|k: int| 0 <= k < plan.merges.len() implies has_merge(
        text,
        merge,
        #[trigger] plan.merges[k],
    ) by {
        lemma_merge_before(c, rest, merge, plan.merges[k]);
        lemma_merge_behind(b, c + rest, merge, plan.merges[k]);
        lemma_merge_behind(a, b + (c + rest), merge, plan.merges[k]);
    }
}

proof fn lemma_regrouped(
    a: Seq<char>,
    b: Seq<char>,
    c: Seq<char>,
    d: Seq<char>,
    e: Seq<char>,
    f: Seq<char>,
)
    ensures
        a + b + c + d + e + f == a + (b + (c + (d + e + f))),
{
    assert(a + b + c + d + e + f =~= a + (b + (c + (d + e + f))));
}

/// Where nothing changes, a report says so. Otherwise it has a line for each
/// path that is removed, for each that changes, and those of each merge. A dry
/// run tells what would be done, and another run what was.
#[verifier::rlimit(40)]
pub proof fn reports_tell_of_each_change(
    plan: PlanView,
    dry_run: bool,
    prune: Seq<char>,
    normalize: Seq<char>,
    merge: Seq<char>,
)
    requires
        dry_run ==> prune == "would prune"@ && normalize == "would normalize"@ && merge
            == "would merge"@,
        !dry_run ==> prune == "pruned"@ && normalize == "normalized"@ && merge == "merged"@,
    ensures
        plan.pruned.len() == 0 && plan.normalized.len() == 0 && plan.merges.len() == 0
            ==> report_text(plan, dry_run) == "no changes needed\n"@,
        forall|k: int|
            0 <= k < plan.pruned.len() ==> has_line(
                report_text(plan, dry_run),
                prune + " "@ + #[trigger] plan.pruned[k],
            ),
        forall|k: int|
            0 <= k < plan.normalized.len() ==> has_line(
                report_text(plan, dry_run),
                normalize + " "@ + (#[trigger] plan.normalized[k]).0 + " -> "@
                    + plan.normalized[k].1,
            ),
        forall|k: int|
            0 <= k < plan.merges.len() ==> has_merge(
                report_text(plan, dry_run),
                merge,
                #[trigger] plan.merges[k],
            ),
{
    if plan.pruned.len() > 0 || plan.normalized.len() > 0 || plan.merges.len() > 0 {
        let d = entries_total(prune, plan.pruned.len());
        let e = entries_total(normalize, plan.normalized.len());
        let f = merges_total(merge, plan.merges);
        lemma_regrouped(
            lines(prune + " "@, plan.pruned),
            normalize_lines(normalize, plan.normalized),
            merge_lines(merge, plan.merges),
            d,
            e,
            f,
        );
        lemma_sections(plan, prune, normalize, merge, d + e + f, report_text(plan, dry_run));
    }
}

/// A report ends with the numbers of paths that are removed and changed, and of
/// entries that are merged, each where it is not zero; before them come the
/// changes one by one, in their order.
#[verifier::rlimit(40)]
pub proof fn reports_end_with_the_totals(plan: PlanView, dry_run: bool)
    requires
        plan.pruned.len() > 0 || plan.normalized.len() > 0 || plan.merges.len() > 0,
    ensures
        ({
            let prune = if dry_run {
                "would prune"@
            } else {
                "pruned"@
            };
            let normalize = if dry_run {
                "would normalize"@
            } else {
                "normalized"@
            };
            let merge = if dry_run {
                "would merge"@
            } else {
                "merged"@
            };
            let changes = lines(prune + " "@, plan.pruned) + normalize_lines(
                normalize,
                plan.normalized,
            ) + merge_lines(merge, plan.merges);
            let removed = if plan.pruned.len() == 0 {
                Seq::empty()
            } else {
                prune + " "@ + counted(plan.pruned.len(), "entry"@, "entries"@) + "\n"@
            };
            let changed = if plan.normalized.len() == 0 {
                Seq::empty()
            } else {
                normalize + " "@ + counted(plan.normalized.len(), "entry"@, "entries"@) + "\n"@
            };
            let united = if plan.merges.len() == 0 {
                Seq::empty()
            } else {
                merge + " "@ + counted(total_entries(plan.merges), "entry"@, "entries"@)
                    + " into "@ + counted(plan.merges.len(), "directory"@, "directories"@) + "\n"@
            };
            report_text(plan, dry_run) == changes + removed + changed + united
        }),
{
}

/// The texts of lists grow by what is told of each further element.
#[verifier::rlimit(40)]
pub proof fn lists_grow_by_each_element(
    verb: Seq<char>,
    texts: Seq<Seq<char>>,
    text: Seq<char>,
    changes: Seq<(Seq<char>, Seq<char>)>,
    change: (Seq<char>, Seq<char>),
    merges: Seq<MergeView>,
    merge: MergeView,
)
    ensures
        lines(verb, Seq::empty()) == Seq::<char>::empty(),
        lines(verb, texts.push(text)) == lines(verb, texts) + verb + text + "\n"@,
        normalize_lines(verb, Seq::empty()) == Seq::<char>::empty(),
        normalize_lines(verb, changes.push(change)) == normalize_lines(verb, changes) + verb + " "@
            + change.0 + " -> "@ + change.1 + "\n"@,
        merge_lines(verb, Seq::empty()) == Seq::<char>::empty(),
        merge_lines(verb, merges.push(merge)) == merge_lines(verb, merges) + verb + " into "@
            + merge.path + ":\n"@ + lines("  "@, merge.merged),
        warning_lines(Seq::empty()) == Seq::<char>::empty(),
        warning_lines(changes.push(change)) == warning_lines(changes)
            + "zoxide: warning: could not inspect "@ + change.0 + ": "@ + change.1 + "\n"@,
        total_entries(Seq::empty()) == 0,
        total_entries(merges.push(merge)) == total_entries(merges) + merge.entries,
{
    assert(texts.push(text).drop_last() =~= texts);
    assert(changes.push(change).drop_last() =~= changes);
    assert(merges.push(merge).drop_last() =~= merges);
    assert(merge_lines(verb, merges.push(merge)) =~= merge_lines(verb, merges) + verb + " into "@
        + merge.path + ":\n"@ + lines("  "@, merge.merged));
}

/// Every path that could not be looked at has its line in the warnings.
pub proof fn each_warning_has_its_line(warnings: Seq<(Seq<char>, Seq<char>)>)
    ensures
        is_lines(warning_lines(warnings)),
        forall|k: int|
            0 <= k < warnings.len() ==> has_line(
                warning_lines(warnings),
                "zoxide: warning: could not inspect "@ + (#[trigger] warnings[k]).0 + ": "@
                    + warnings[k].1,
            ),
    decreases warnings.len(),
{
    let opening = "zoxide: warning: could not inspect "@;
    if warnings.len() > 0 {
        let front = warnings.drop_last();
        let last = warnings.last();
        let line = opening + last.0 + ": "@ + last.1;
        let whole = warning_lines(warnings);
        each_warning_has_its_line(front);
        lemma_one_line(line);
        assert(whole =~= warning_lines(front) + (line + "\n"@));
        assert(whole.last() == (line + "\n"@).last()) by {
            reveal_strlit("\n");
        }
        lemma_line_behind(warning_lines(front), line + "\n"@, line);
        assert forall|k: int| 0 <= k < warnings.len() implies has_line(
            whole,
            opening + (#[trigger] warnings[k]).0 + ": "@ + warnings[k].1,
        ) by {
            if k < front.len() {
                assert(front[k] == warnings[k]);
                lemma_line_before(
                    warning_lines(front),
                    line + "\n"@,
                    opening + warnings[k].0 + ": "@ + warnings[k].1,
                );
            }
        }
    }
}

/// The report of merges has the lines of each of them, and ends with the number
/// of entries and of directories. Where nothing is merged, it says so.
#[verifier::rlimit(40)]
pub proof fn merge_reports_tell_of_each_merge(merges: Seq<MergeView>, dry_run: bool)
    ensures
        ({
            let text = dedupe_report(merges, dry_run);
            let verb = if dry_run {
                "would merge"@
            } else {
                "merged"@
            };
            &&& merges.len() == 0 ==> text == "no duplicate entries found\n"@
            &&& merges.len() > 0 ==> text == merge_lines(verb, merges) + verb + " "@ + decimal(
                total_entries(merges),
            ) + " entries into "@ + counted(merges.len(), "directory"@, "directories"@) + "\n"@
            &&& forall|k: int|
                0 <= k < merges.len() ==> has_merge(text, verb, #[trigger] merges[k])
        }),
{
    let verb = if dry_run {
        "would merge"@
    } else {
        "merged"@
    };
    lemma_merge_lines(verb, merges);
    if merges.len() > 0 {
        let text = dedupe_report(merges, dry_run);
        let rest = verb + " "@ + decimal(total_entries(merges)) + " entries into "@ + counted(
            merges.len(),
            "directory"@,
            "directories"@,
        ) + "\n"@;
        assert(text =~= merge_lines(verb, merges) + rest);
        assert forall|k: int| 0 <= k < merges.len() implies has_merge(
            text,
            verb,
            #[trigger] merges[k],
        ) by {
            lemma_merge_before(merge_lines(verb, merges), rest, verb, merges[k]);
        }
    }
}

/// The message about a version names the one that was found and the one that is
/// supported; the others say whether bytes could not be read or not be written.
pub proof fn version_messages_name_both_versions(got: u32, cause: String)
    ensures
        (DatabaseError::UnsupportedVersion { got }).text() == "unsupported version (got "@ + decimal(
            got as nat,
        ) + ", supports 3)"@,
        DatabaseError::Corrupted.text() == "could not deserialize database: corrupted data"@,
        (DatabaseError::Malformed { cause }).text() == "could not deserialize database"@,
        DatabaseError::Unwritable.text() == "could not serialize database"@,
{
    reveal_strlit(", supports ");
    reveal_strlit(")");
    reveal_strlit(", supports 3)");
    assert(decimal(3) =~= seq!['3']);
    assert((DatabaseError::UnsupportedVersion { got }).text() =~= "unsupported version (got "@
        + decimal(got as nat) + ", supports 3)"@);
}

/// Reports and warnings are seen as what their fields hold.
pub proof fn reports_are_seen_as_they_are(
    warning: Warning,
    change: NormalizeReport,
    merge: MergeReport,
    plan: TidyPlan,
)
    ensures
        warning@.0 == warning.path@ && warning@.1 == warning.error@,
        change@.0 == change.from@ && change@.1 == change.to@,
        merge@.path == merge.path@ && merge@.entries == merge.entries,
        merge@.merged.len() == merge.merged@.len(),
        forall|k: int|
            0 <= k < merge.merged@.len() ==> #[trigger] merge@.merged[k] == merge.merged@[k]@,
        plan@.rows.len() == plan.entries@.len(),
        forall|k: int|
            0 <= k < plan.entries@.len() ==> (#[trigger] plan@.rows[k]).path == plan.entries@[k].0@
                && plan@.rows[k].rank == plan.entries@[k].1 && plan@.rows[k].last_accessed
                == plan.entries@[k].2,
        plan@.pruned.len() == plan.pruned@.len(),
        forall|k: int|
            0 <= k < plan.pruned@.len() ==> #[trigger] plan@.pruned[k] == plan.pruned@[k]@,
        plan@.normalized.len() == plan.normalized@.len(),
        forall|k: int|
            0 <= k < plan.normalized@.len() ==> #[trigger] plan@.normalized[k]
                == plan.normalized@[k]@,
        plan@.merges.len() == plan.merges@.len(),
        forall|k: int|
            0 <= k < plan.merges@.len() ==> #[trigger] plan@.merges[k] == plan.merges@[k]@,
        plan@.warnings.len() == plan.warnings@.len(),
        forall|k: int|
            0 <= k < plan.warnings@.len() ==> #[trigger] plan@.warnings[k] == plan.warnings@[k]@,
{
}

} // verus!
