//! The queries: by pinyin, by Chinese characters, by an exact word, and by
//! any text after it has been classified.

use vstd::prelude::*;
use vstd::string::*;
use crate::dictionary::{get_entries, Dictionary, DictionaryView, Index};
use crate::english::{english_entries, query_by_english};
use crate::entry::{views, WordEntry, WordEntryView};
use crate::script::{classification_of, classify, detect_script, script_of, ClassificationResult};
use crate::segment::{segment, segments};
use crate::text::{lowercase_of, split_on, split_spaces};

verus! {

/// The words among `words` that are not empty.
pub open spec fn tokens_of(words: Seq<Seq<char>>) -> Seq<Seq<char>> {
    words.filter(|word: Seq<char>| word.len() > 0)
}

/// The identifiers that a pinyin query finds for a text in lowercase: those
/// that the pinyin index lists under each word between the spaces of the
/// text, word after word. Empty words are not looked up.
pub open spec fn pinyin_ids(dictionary: DictionaryView, lowered: Seq<char>) -> Seq<u32> {
    dictionary.lookup_all(Index::Pinyin, tokens_of(split_on(lowered, ' ')))
}

/// The entries that a pinyin query finds for `raw`.
pub open spec fn pinyin_entries(dictionary: DictionaryView, raw: Seq<char>) -> Seq<WordEntryView> {
    dictionary.resolve(pinyin_ids(dictionary, lowercase_of(raw)))
}

/// The entries that a query by characters finds for `text` in the index
/// `which`: those listed under each word of the segmentation of `text`, word
/// after word.
pub open spec fn character_entries(dictionary: DictionaryView, which: Index, text: Seq<char>) -> Seq<
    WordEntryView,
> {
    dictionary.resolve(
        dictionary.lookup_all(which, segments(dictionary.index(which).dom(), text)),
    )
}

/// The entries that a query finds for `raw` once it has been classified as
/// `class`; nothing where the classification is uncertain.
pub open spec fn classified_entries(
    dictionary: DictionaryView,
    class: ClassificationResult,
    raw: Seq<char>,
) -> Option<Seq<WordEntryView>> {
    match class {
        ClassificationResult::EN => Some(english_entries(dictionary, raw)),
        ClassificationResult::PY => Some(pinyin_entries(dictionary, raw)),
        ClassificationResult::ZH => Some(character_entries(dictionary, script_of(raw), raw)),
        ClassificationResult::UN => None,
    }
}

/// What a query returned, as plain values.
pub open spec fn answer_view(answer: Option<Vec<&WordEntry>>) -> Option<Seq<WordEntryView>> {
    match answer {
        Some(found) => Some(views(found@)),
        None => None,
    }
}

/// An exact lookup does not segment: a text that is no key of the index finds
/// nothing, whatever words a segmentation of it would find.
pub proof fn lemma_exact_lookup_does_not_segment(
    dictionary: DictionaryView,
    which: Index,
    text: Seq<char>,
)
    requires
        !dictionary.index(which).contains_key(text),
    ensures
        dictionary.resolve(dictionary.lookup(which, text)) == Seq::<WordEntryView>::empty(),
{
    assert(dictionary.resolve(dictionary.lookup(which, text)) =~= Seq::<WordEntryView>::empty());
}

/// A query can be repeated: any two answers that fit the contract of `query`
/// for one text and one dictionary hold the same entries in the same order,
/// or are both no answer.
pub proof fn lemma_query_is_repeatable(
    dictionary: DictionaryView,
    raw: Seq<char>,
    first: Option<Vec<&WordEntry>>,
    second: Option<Vec<&WordEntry>>,
)
    ensures
        answer_view(first) == classified_entries(dictionary, classification_of(raw), raw)
            && answer_view(second) == classified_entries(dictionary, classification_of(raw), raw)
            ==> answer_view(first) == answer_view(second),
{
}

/// Keeps the words that are not empty.
fn keep_tokens(words: Vec<String>) -> (tokens: Vec<String>)
    ensures
        views(tokens@) == tokens_of(views(words@)),
{
    let mut tokens: Vec<String> = Vec::new();
    let ghost all = words@;
    proof {
        reveal(Seq::filter);
        assert(views(all.take(0)) =~= Seq::<Seq<char>>::empty());
        assert(views(tokens@) =~= tokens_of(views(all.take(0))));
    }
    for word in it: words
        invariant
            it.seq() == all,
            views(tokens@) == tokens_of(views(all.take(it.index()))),
    {
        proof {
            reveal(Seq::filter);
            let before = views(all.take(it.index()));
            let after = views(all.take(it.index() + 1));
            assert(after.drop_last() =~= before);
            assert(after.last() == word@);
            assert(views(tokens@.push(word)) =~= views(tokens@).push(word@));
        }
        if !word.as_str().is_empty() {
            tokens.push(word);
        }
    }
    proof {
        assert(all.take(all.len() as int) =~= all);
    }
    tokens
}

/// The entries for a pinyin text that is already in lowercase: those that the
/// pinyin index lists under each word between the spaces of the text, word
/// after word. A word that is no key of the index adds nothing.
pub fn lookup_pinyin<'a>(dictionary: &'a Dictionary, lowered: &str) -> (found: Vec<&'a WordEntry>)
    ensures
        views(found@) == dictionary@.resolve(pinyin_ids(dictionary@, lowered@)),
{
    let tokens = keep_tokens(split_spaces(lowered));
    let ids = dictionary.lookup_all(Index::Pinyin, &tokens);
    dictionary.entries_of(&ids)
}

/// Queries the dictionary with pinyin: with tone marks, with tone numbers, or
/// without tones. A space ends a word.
///
/// The text is put in lowercase and looked up as `lookup_pinyin` says.
pub fn query_by_pinyin<'a>(dictionary: &'a Dictionary, raw: &str) -> (found: Vec<&'a WordEntry>)
    ensures
        views(found@) == pinyin_entries(dictionary@, raw@),
{
    let lowered = raw.to_lowercase();
    lookup_pinyin(dictionary, lowered.as_str())
}

/// Queries the character index `which` with a run of Chinese characters: the
/// run is segmented into words of that index, and each word is looked up.
pub fn query_by_characters<'a>(dictionary: &'a Dictionary, which: Index, raw: &str) -> (found: Vec<
    &'a WordEntry,
>)
    ensures
        views(found@) == character_entries(dictionary@, which, raw@),
{
    let tokens = segment(dictionary, which, raw);
    let ids = dictionary.lookup_all(which, &tokens);
    dictionary.entries_of(&ids)
}

/// Queries the dictionary with Chinese characters, Traditional or Simplified:
/// the script of `raw` decides which index is searched.
pub fn query_by_chinese<'a>(dictionary: &'a Dictionary, raw: &str) -> (found: Vec<&'a WordEntry>)
    ensures
        views(found@) == character_entries(dictionary@, script_of(raw@), raw@),
{
    query_by_characters(dictionary, detect_script(raw), raw)
}

/// Looks one word up in the Simplified index. The word is not segmented.
pub fn query_by_simplified<'a>(dictionary: &'a Dictionary, raw: &str) -> (found: Vec<&'a WordEntry>)
    ensures
        views(found@) == dictionary@.resolve(dictionary@.lookup(Index::Simplified, raw@)),
{
    get_entries(dictionary, Index::Simplified, raw)
}

/// Looks one word up in the Traditional index. The word is not segmented.
pub fn query_by_traditional<'a>(dictionary: &'a Dictionary, raw: &str) -> (found: Vec<&'a WordEntry>)
    ensures
        views(found@) == dictionary@.resolve(dictionary@.lookup(Index::Traditional, raw@)),
{
    get_entries(dictionary, Index::Traditional, raw)
}

/// Queries the dictionary with a text that has been classified as `class`:
/// English, pinyin and Chinese characters each go to their query; an
/// uncertain classification has no answer.
pub fn query_classified<'a>(
    dictionary: &'a Dictionary,
    class: ClassificationResult,
    raw: &str,
) -> (answer: Option<Vec<&'a WordEntry>>)
    ensures
        answer_view(answer) == classified_entries(dictionary@, class, raw@),
{
    match class {
        ClassificationResult::EN => Some(query_by_english(dictionary, raw)),
        ClassificationResult::PY => Some(query_by_pinyin(dictionary, raw)),
        ClassificationResult::ZH => Some(query_by_chinese(dictionary, raw)),
        ClassificationResult::UN => None,
    }
}

/// Queries the dictionary with Traditional or Simplified characters, English,
/// or pinyin with tone marks, with tone numbers or without tones.
///
/// Returns `None` where the text cannot be classified, which is not the same
/// as an answer without entries.
pub fn query<'a>(dictionary: &'a Dictionary, raw: &str) -> (answer: Option<Vec<&'a WordEntry>>)
    ensures
        answer_view(answer) == classified_entries(dictionary@, classification_of(raw@), raw@),
{
    query_classified(dictionary, classify(raw), raw)
}

} // verus!
