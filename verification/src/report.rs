//! The texts that tell the user what was merged.

use vstd::prelude::*;

use crate::sort::{views, Ordered};
use crate::text::{append_decimal, decimal, lemma_text_leq_order, text_leq, text_not_after};

verus! {

/// What the report of merged entries says.
pub struct MergeView {
    pub path: Seq<char>,
    pub merged: Seq<Seq<char>>,
    pub entries: nat,
}

/// Entries that are merged: the path that they get, the spellings that go
/// away, and how many they are.
#[derive(Debug)]
pub struct MergeReport {
    pub path: String,
    pub merged: Vec<String>,
    pub entries: usize,
}

impl View for MergeReport {
    type V = MergeView;

    open spec fn view(&self) -> MergeView {
        MergeView {
            path: self.path@,
            merged: views(self.merged@),
            entries: self.entries as nat,
        }
    }
}

/// Merges are sorted by path.
impl Ordered for MergeReport {
    open spec fn leq(a: MergeView, b: MergeView) -> bool {
        text_leq(a.path, b.path)
    }

    proof fn leq_is_total_preorder() {
        lemma_text_leq_order();
        assert forall|a: MergeView, b: MergeView| #[trigger] Self::leq(a, b) || Self::leq(b, a) by {
            assert(text_leq(a.path, b.path) || text_leq(b.path, a.path));
        }
    }

    fn not_after(&self, other: &Self) -> (leq: bool) {
        text_not_after(self.path.as_str(), other.path.as_str())
    }
}

/// One line for each text, each behind the prefix.
pub open spec fn lines(prefix: Seq<char>, texts: Seq<Seq<char>>) -> Seq<char>
    decreases texts.len(),
{
    if texts.len() == 0 {
        Seq::empty()
    } else {
        lines(prefix, texts.drop_last()) + prefix + texts.last() + "\n"@
    }
}

/// A line with the path that entries are merged into, and one for each spelling
/// that goes away.
pub open spec fn merge_text(
    verb: Seq<char>,
    path: Seq<char>,
    merged: Seq<Seq<char>>,
) -> Seq<char> {
    verb + " into "@ + path + ":\n"@ + lines("  "@, merged)
}

/// What is told of each merge.
pub open spec fn merge_lines(verb: Seq<char>, merges: Seq<MergeView>) -> Seq<char>
    decreases merges.len(),
{
    if merges.len() == 0 {
        Seq::empty()
    } else {
        let merge = merges.last();
        merge_lines(verb, merges.drop_last()) + merge_text(verb, merge.path, merge.merged)
    }
}

/// How many entries were merged.
pub open spec fn total_entries(merges: Seq<MergeView>) -> nat
    decreases merges.len(),
{
    if merges.len() == 0 {
        0
    } else {
        total_entries(merges.drop_last()) + merges.last().entries
    }
}

/// The form of a noun that goes with a number.
pub open spec fn plural_form(count: nat, one: Seq<char>, many: Seq<char>) -> Seq<char> {
    if count == 1 {
        one
    } else {
        many
    }
}

/// A number with the form of a noun that goes with it.
pub open spec fn counted(count: nat, one: Seq<char>, many: Seq<char>) -> Seq<char> {
    decimal(count) + " "@ + plural_form(count, one, many)
}

/// The form of a noun that goes with a number.
pub fn plural<'a>(count: u128, one: &'a str, many: &'a str) -> (form: &'a str)
    ensures
        form@ == plural_form(count as nat, one@, many@),
{
    if count == 1 {
        one
    } else {
        many
    }
}

/// Appends a number with the form of a noun that goes with it.
pub fn append_counted(out: &mut String, count: u128, one: &str, many: &str)
    ensures
        final(out)@ == old(out)@ + counted(count as nat, one@, many@),
{
    append_decimal(out, count);
    out.append(" ");
    out.append(plural(count, one, many));
    assert(out@ =~= old(out)@ + counted(count as nat, one@, many@));
}

/// Appends one line for each text, each behind the prefix.
pub fn append_lines(out: &mut String, prefix: &str, texts: &Vec<String>)
    ensures
        final(out)@ == old(out)@ + lines(prefix@, views(texts@)),
{
    let ghost all = views(texts@);
    let mut i: usize = 0;
    assert(out@ =~= old(out)@ + lines(prefix@, all.take(0)));
    while i < texts.len()
        invariant
            i <= texts@.len() == all.len(),
            all == views(texts@),
            out@ == old(out)@ + lines(prefix@, all.take(i as int)),
        decreases texts.len() - i,
    {
        proof {
            assert(all.take(i + 1).drop_last() =~= all.take(i as int));
            assert(all[i as int] == texts@[i as int]@);
        }
        out.append(prefix);
        out.append(texts[i].as_str());
        out.append("\n");
        assert(out@ =~= old(out)@ + lines(prefix@, all.take(i + 1)));
        i += 1;
    }
    assert(all.take(i as int) =~= all);
}

/// Appends what is told of a merge.
pub fn append_merge(out: &mut String, verb: &str, path: &str, merged: &Vec<String>)
    ensures
        final(out)@ == old(out)@ + merge_text(verb@, path@, views(merged@)),
{
    out.append(verb);
    out.append(" into ");
    out.append(path);
    out.append(":\n");
    append_lines(out, "  ", merged);
    assert(out@ =~= old(out)@ + merge_text(verb@, path@, views(merged@)));
}

/// Appends what is told of merges.
pub fn append_merges(out: &mut String, verb: &str, merges: &Vec<MergeReport>)
    ensures
        final(out)@ == old(out)@ + merge_lines(verb@, views(merges@)),
{
    let ghost all = views(merges@);
    let mut i: usize = 0;
    assert(out@ =~= old(out)@ + merge_lines(verb@, all.take(0)));
    while i < merges.len()
        invariant
            i <= merges@.len() == all.len(),
            all == views(merges@),
            out@ == old(out)@ + merge_lines(verb@, all.take(i as int)),
        decreases merges.len() - i,
    {
        proof {
            assert(all.take(i + 1).drop_last() =~= all.take(i as int));
            assert(all[i as int] == merges@[i as int]@);
        }
        append_merge(out, verb, merges[i].path.as_str(), &merges[i].merged);
        assert(out@ =~= old(out)@ + merge_lines(verb@, all.take(i + 1)));
        i += 1;
    }
    assert(all.take(i as int) =~= all);
}

/// How many entries are merged.
pub fn entry_total(merges: &Vec<MergeReport>) -> (total: u128)
    ensures
        total == total_entries(views(merges@)),
{
    let ghost all = views(merges@);
    let mut total: u128 = 0;
    let mut i: usize = 0;
    assert(all.take(0) =~= Seq::empty());
    while i < merges.len()
        invariant
            i <= merges@.len() == all.len(),
            all == views(merges@),
            total == total_entries(all.take(i as int)),
            total <= i * usize::MAX,
        decreases merges.len() - i,
    {
        let entries = merges[i].entries;
        proof {
            assert(all.take(i + 1).drop_last() =~= all.take(i as int));
            assert(all[i as int] == merges@[i as int]@);
            assert((i + 1) * usize::MAX == i * usize::MAX + usize::MAX) by (nonlinear_arith);
            assert((i + 1) * usize::MAX <= u128::MAX) by (nonlinear_arith)
                requires
                    i + 1 <= usize::MAX,
                    usize::MAX <= 0xffff_ffff_ffff_ffff,
            ;
        }
        total += entries as u128;
        i += 1;
    }
    assert(all.take(i as int) =~= all);
    total
}

} // verus!
