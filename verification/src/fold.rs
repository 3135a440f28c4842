//! The key under which spellings of one path fall together.

use unicode_normalization::UnicodeNormalization;
use vstd::prelude::*;

verus! {

/// What the full Unicode case folding of a text is.
pub uninterp spec fn case_folded(text: Seq<char>) -> Seq<char>;

/// What the canonical composition (NFC) of a text is.
pub uninterp spec fn composed(text: Seq<char>) -> Seq<char>;

/// `caseless::default_case_fold_str`: the text with full Unicode case folding
/// applied to each character, by the tables of the crate.
#[verifier::external_body]
fn case_fold(text: &str) -> (folded: String)
    ensures
        folded@ == case_folded(text@),
{
    caseless::default_case_fold_str(text)
}

/// `unicode_normalization::UnicodeNormalization::nfc`: the text in its
/// canonical composition, by the tables of the crate.
#[verifier::external_body]
fn compose(text: &str) -> (normal: String)
    ensures
        normal@ == composed(text@),
{
    text.nfc().collect::<String>()
}

/// The key of a path: the composition of its case folding.
pub open spec fn folded(path: Seq<char>) -> Seq<char> {
    composed(case_folded(path))
}

/// The key of a path: the composition of its case folding.
pub fn fold_key(path: &str) -> (key: String)
    ensures
        key@ == folded(path@),
{
    compose(case_fold(path).as_str())
}

} // verus!
