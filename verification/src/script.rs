//! What the dictionary asks of its collaborators: which language a text is
//! in, and which script a run of Chinese characters is written in.

use vstd::prelude::*;
use crate::dictionary::Index;

verus! {

/// What a text was classified as.
#[derive(Debug, Clone, Copy, PartialEq, Eq)]
pub enum ClassificationResult {
    /// Chinese characters.
    ZH,
    /// English.
    EN,
    /// Pinyin.
    PY,
    /// Uncertain: none of the three scored best.
    UN,
}

/// The classification that `chinese_detection::classify` gives a text.
pub uninterp spec fn classification_of(text: Seq<char>) -> ClassificationResult;

/// Whether `character_converter::is_traditional` takes a text for Traditional
/// script.
pub uninterp spec fn written_in_traditional(text: Seq<char>) -> bool;

/// The character index that goes with the script of `text`.
pub open spec fn script_of(text: Seq<char>) -> Index {
    if written_in_traditional(text) {
        Index::Traditional
    } else {
        Index::Simplified
    }
}

/// Classifies `raw` as English, pinyin or Chinese characters with
/// `chinese_detection::classify`, which scores the text's character bigrams
/// against three profiles that are part of that crate and returns the language
/// that scores strictly best, or `UN` on a tie. The contract only names the
/// outcome: it is the same for the same text.
#[verifier::external_body]
pub fn classify(raw: &str) -> (class: ClassificationResult)
    ensures
        class == classification_of(raw@),
{
    match chinese_detection::classify(raw) {
        chinese_detection::ClassificationResult::ZH => ClassificationResult::ZH,
        chinese_detection::ClassificationResult::EN => ClassificationResult::EN,
        chinese_detection::ClassificationResult::PY => ClassificationResult::PY,
        chinese_detection::ClassificationResult::UN => ClassificationResult::UN,
    }
}

/// Asks `character_converter::is_traditional` whether `raw` is written in
/// Traditional script: whether no character of it is known to that crate's
/// tables as Simplified only. The contract only names the outcome: it is the
/// same for the same text.
#[verifier::external_body]
pub fn is_traditional(raw: &str) -> (traditional: bool)
    ensures
        traditional == written_in_traditional(raw@),
{
    character_converter::is_traditional(raw)
}

/// The character index to search for `raw`: the Traditional one where `raw`
/// is written in Traditional script, else the Simplified one.
pub fn detect_script(raw: &str) -> (which: Index)
    ensures
        which == script_of(raw@),
{
    if is_traditional(raw) {
        Index::Traditional
    } else {
        Index::Simplified
    }
}

} // verus!
