//! Matching of English words and compounds.

use vstd::prelude::*;
use vstd::string::*;
use crate::dictionary::{first_unknown, lemma_first_unknown, Dictionary, DictionaryView, Index};
use crate::entry::{views, WordEntry, WordEntryView};
use crate::matcher::{
    covered, key_test, lemma_longest_match, lemma_spans_from, longest_match, match_keys,
    matched_spans, span_keys, spans_from, window_at, Span, Units,
};
use crate::text::{join, join_words, lowercase_of, split_on, split_spaces};

verus! {

/// The most words that one compound may have.
pub const ENGLISH_MAX_LENGTH: usize = 4;

/// What stands between the words of a compound in a key of the English index.
pub open spec fn compound_delimiter() -> Seq<char> {
    seq!['%', '2', '0']
}

/// A text as a sequence of words; a window of it forms the key that holds
/// those words with `%20` between them.
pub struct Words<'a> {
    pub words: &'a Vec<String>,
}

impl<'a> Units for Words<'a> {
    open spec fn count(&self) -> nat {
        self.words@.len()
    }

    open spec fn key_at(&self, start: int, len: int) -> Seq<char> {
        join(views(self.words@).subrange(start, start + len), compound_delimiter())
    }

    fn len(&self) -> (n: usize) {
        self.words.len()
    }

    fn key(&self, start: usize, len: usize) -> (key: String) {
        proof {
            reveal_strlit("%20");
            assert("%20"@ =~= compound_delimiter());
        }
        join_words(self.words, start, len, "%20")
    }
}

/// Whether the `len` words of `words` that begin at `start` form a compound
/// of `keys`.
pub open spec fn is_compound(keys: Set<Seq<char>>, words: Seq<Seq<char>>) -> spec_fn(
    int,
    int,
) -> bool {
    |start: int, len: int|
        keys.contains(join(words.subrange(start, start + len), compound_delimiter()))
}

/// Where the compounds of `words` lie: at every word the longest run of at
/// most `ENGLISH_MAX_LENGTH` words that forms a key of `keys`; a word at which
/// no compound begins belongs to none.
pub open spec fn compound_spans(keys: Set<Seq<char>>, words: Seq<Seq<char>>) -> Seq<Span> {
    spans_from(is_compound(keys, words), words.len() as int, ENGLISH_MAX_LENGTH as int, 0)
}

/// The keys of the compounds of `words`, in the order in which they occur.
pub open spec fn compounds(keys: Set<Seq<char>>, words: Seq<Seq<char>>) -> Seq<Seq<char>> {
    Seq::new(
        compound_spans(keys, words).len(),
        |i: int|
            join(
                words.subrange(
                    compound_spans(keys, words)[i].start,
                    compound_spans(keys, words)[i].end(),
                ),
                compound_delimiter(),
            ),
    )
}

/// `ids` without the identifiers that repeat the one just before them.
pub open spec fn dedup_adjacent(ids: Seq<u32>) -> Seq<u32>
    decreases ids.len(),
{
    if ids.len() <= 1 {
        ids
    } else if ids[ids.len() - 1] == ids[ids.len() - 2] {
        dedup_adjacent(ids.drop_last())
    } else {
        dedup_adjacent(ids.drop_last()).push(ids.last())
    }
}

/// The identifiers that an English query finds for a text in lowercase: none
/// for the empty text and for a single space; else those listed under the
/// compounds of its words, compound after compound, without immediate
/// repeats.
pub open spec fn english_ids(dictionary: DictionaryView, lowered: Seq<char>) -> Seq<u32> {
    if lowered.len() == 0 || lowered == seq![' '] {
        Seq::empty()
    } else {
        dedup_adjacent(
            dictionary.lookup_all(
                Index::English,
                compounds(dictionary.english.dom(), split_on(lowered, ' ')),
            ),
        )
    }
}

/// The entries that an English query finds for `raw`.
pub open spec fn english_entries(dictionary: DictionaryView, raw: Seq<char>) -> Seq<WordEntryView> {
    dictionary.resolve(english_ids(dictionary, lowercase_of(raw)))
}

/// What is left after `dedup_adjacent` ends as the list ended, holds no
/// identifier twice in a row, and holds just the identifiers of the list.
pub proof fn lemma_dedup_adjacent(ids: Seq<u32>)
    ensures
        dedup_adjacent(ids).len() <= ids.len(),
        ids.len() > 0 ==> dedup_adjacent(ids).len() > 0 && dedup_adjacent(ids).last() == ids.last(),
        forall|i: int|
            0 < i < dedup_adjacent(ids).len() ==> #[trigger] dedup_adjacent(ids)[i]
                != dedup_adjacent(ids)[i - 1],
        forall|id: u32| #[trigger] dedup_adjacent(ids).contains(id) <==> ids.contains(id),
    decreases ids.len(),
{
    let kept = dedup_adjacent(ids);
    if ids.len() > 1 {
        let shorter = ids.drop_last();
        let before = dedup_adjacent(shorter);
        lemma_dedup_adjacent(shorter);
        assert(shorter.last() == ids[ids.len() - 2]);
        assert forall|id: u32| #[trigger] kept.contains(id) <==> ids.contains(id) by {
            if kept.contains(id) {
                let i = choose|i: int| 0 <= i < kept.len() && kept[i] == id;
                if i < before.len() {
                    assert(before[i] == id);
                    assert(before.contains(id));
                    let j = choose|j: int| 0 <= j < shorter.len() && shorter[j] == id;
                    assert(ids[j] == id);
                } else {
                    assert(ids[ids.len() - 1] == id);
                }
            }
            if ids.contains(id) {
                let j = choose|j: int| 0 <= j < ids.len() && ids[j] == id;
                if j < shorter.len() {
                    assert(shorter[j] == id);
                    assert(before.contains(id));
                    let i = choose|i: int| 0 <= i < before.len() && before[i] == id;
                    assert(kept[i] == id);
                } else {
                    assert(kept[kept.len() - 1] == id);
                }
            }
        }
    }
}

/// A list that holds no identifier twice loses nothing to `dedup_adjacent`.
pub proof fn lemma_dedup_adjacent_of_distinct(ids: Seq<u32>)
    requires
        ids.no_duplicates(),
    ensures
        dedup_adjacent(ids) == ids,
    decreases ids.len(),
{
    if ids.len() > 1 {
        lemma_dedup_adjacent_of_distinct(ids.drop_last());
        assert(ids.drop_last().push(ids.last()) =~= ids);
    }
}

/// The compounds of a text are keys of the index, and they lie in the text
/// one behind the other: each is formed by the run of words at its place, the
/// places do not overlap, and they come in the order of the compounds.
pub proof fn lemma_compounds_are_keys_in_order(keys: Set<Seq<char>>, words: Seq<Seq<char>>)
    ensures
        compounds(keys, words).len() == compound_spans(keys, words).len(),
        forall|i: int|
            0 <= i < compounds(keys, words).len() ==> {
                let span = compound_spans(keys, words)[i];
                let compound = #[trigger] compounds(keys, words)[i];
                &&& 0 <= span.start
                &&& 1 <= span.len <= ENGLISH_MAX_LENGTH
                &&& span.end() <= words.len()
                &&& compound == join(
                    words.subrange(span.start, span.end()),
                    compound_delimiter(),
                )
                &&& keys.contains(compound)
            },
        forall|i: int, j: int|
            0 <= i < j < compound_spans(keys, words).len() ==> (#[trigger] compound_spans(
                keys,
                words,
            )[i]).end() <= (#[trigger] compound_spans(keys, words)[j]).start,
{
    lemma_spans_from(is_compound(keys, words), words.len() as int, ENGLISH_MAX_LENGTH as int, 0);
}

/// Compound matching is greedy: no longer run of words at the place of a
/// compound, up to `ENGLISH_MAX_LENGTH` words and the end of the text, forms a
/// key of the index; and at a word that no compound covers, no run of 1 to
/// `ENGLISH_MAX_LENGTH` words forms one.
pub proof fn lemma_compounds_are_longest(keys: Set<Seq<char>>, words: Seq<Seq<char>>)
    ensures
        forall|i: int, len: int|
            #![trigger compound_spans(keys, words)[i], words.subrange(compound_spans(keys, words)[i].start, compound_spans(keys, words)[i].start + len)]
            0 <= i < compound_spans(keys, words).len() && compound_spans(keys, words)[i].len < len
                <= ENGLISH_MAX_LENGTH && compound_spans(keys, words)[i].start + len <= words.len()
                ==> !keys.contains(
                join(
                    words.subrange(
                        compound_spans(keys, words)[i].start,
                        compound_spans(keys, words)[i].start + len,
                    ),
                    compound_delimiter(),
                ),
            ),
        forall|pos: int, len: int|
            #![trigger words.subrange(pos, pos + len)]
            0 <= pos && !covered(compound_spans(keys, words), pos) && 1 <= len
                <= ENGLISH_MAX_LENGTH && pos + len <= words.len() ==> !keys.contains(
                join(words.subrange(pos, pos + len), compound_delimiter()),
            ),
{
    let is_key = is_compound(keys, words);
    let count = words.len() as int;
    let window = ENGLISH_MAX_LENGTH as int;
    let spans = compound_spans(keys, words);
    lemma_spans_from(is_key, count, window, 0);
    assert forall|i: int, len: int|
        #![trigger spans[i], words.subrange(spans[i].start, spans[i].start + len)]
        0 <= i < spans.len() && spans[i].len < len <= ENGLISH_MAX_LENGTH && spans[i].start + len
            <= words.len() implies !keys.contains(
        join(words.subrange(spans[i].start, spans[i].start + len), compound_delimiter()),
    ) by {
        lemma_longest_match(is_key, spans[i].start, window_at(count, window, spans[i].start));
        assert(!is_key(spans[i].start, len));
    }
    assert forall|pos: int, len: int|
        #![trigger words.subrange(pos, pos + len)]
        0 <= pos && !covered(spans, pos) && 1 <= len <= ENGLISH_MAX_LENGTH && pos + len
            <= words.len() implies !keys.contains(
        join(words.subrange(pos, pos + len), compound_delimiter()),
    ) by {
        assert(longest_match(is_key, pos, window_at(count, window, pos)) == 0);
        lemma_longest_match(is_key, pos, window_at(count, window, pos));
        assert(!is_key(pos, len));
    }
}

/// English matching ignores case: two texts with the same lowercase form
/// find the same entries in the same order.
pub proof fn lemma_english_ignores_case(
    dictionary: DictionaryView,
    first: Seq<char>,
    second: Seq<char>,
)
    ensures
        lowercase_of(first) == lowercase_of(second) ==> english_entries(dictionary, first)
            == english_entries(dictionary, second),
{
}

/// An English text that matches one compound finds no entry twice, provided
/// that the index lists no identifier twice under that compound: what it
/// finds is what the index lists, and the entries found carry identifiers
/// that all differ.
pub proof fn lemma_one_compound_finds_no_duplicates(dictionary: DictionaryView, lowered: Seq<char>)
    requires
        dictionary.wf(),
        lowered.len() > 0,
        lowered != seq![' '],
        compounds(dictionary.english.dom(), split_on(lowered, ' ')).len() == 1,
        dictionary.lookup(
            Index::English,
            compounds(dictionary.english.dom(), split_on(lowered, ' '))[0],
        ).no_duplicates(),
    ensures
        english_ids(dictionary, lowered) == dictionary.lookup(
            Index::English,
            compounds(dictionary.english.dom(), split_on(lowered, ' '))[0],
        ),
        english_ids(dictionary, lowered).no_duplicates(),
        forall|i: int, j: int|
            0 <= i < j < english_ids(dictionary, lowered).len() ==> (
            #[trigger] dictionary.resolve(english_ids(dictionary, lowered))[i]).word_id != (
            #[trigger] dictionary.resolve(english_ids(dictionary, lowered))[j]).word_id,
{
    let keys = compounds(dictionary.english.dom(), split_on(lowered, ' '));
    let listed = dictionary.lookup(Index::English, keys[0]);
    let lists = keys.map_values(|key: Seq<char>| dictionary.lookup(Index::English, key));
    assert(lists.first() == listed);
    lists.lemma_flatten_one_element();
    lemma_dedup_adjacent_of_distinct(listed);
    let ids = english_ids(dictionary, lowered);
    lemma_compounds_are_keys_in_order(dictionary.english.dom(), split_on(lowered, ' '));
    assert(dictionary.index(Index::English).contains_key(keys[0]));
    assert forall|i: int, j: int| 0 <= i < j < ids.len() implies (#[trigger] dictionary.resolve(
        ids,
    )[i]).word_id != (#[trigger] dictionary.resolve(ids)[j]).word_id by {
        assert(dictionary.index(Index::English)[keys[0]].contains(ids[i]));
        assert(dictionary.index(Index::English)[keys[0]].contains(ids[j]));
        assert(dictionary.names(ids[i]));
        assert(dictionary.names(ids[j]));
        assert(dictionary.entries[ids[i]].word_id == ids[i]);
        assert(dictionary.entries[ids[j]].word_id == ids[j]);
    }
}

/// Drops from `ids` every identifier that repeats the one just before it.
pub fn dedup(ids: &Vec<u32>) -> (kept: Vec<u32>)
    ensures
        kept@ == dedup_adjacent(ids@),
{
    let mut kept: Vec<u32> = Vec::new();
    let mut i: usize = 0;
    while i < ids.len()
        invariant
            i <= ids.len(),
            kept@ == dedup_adjacent(ids@.take(i as int)),
        decreases ids.len() - i,
    {
        proof {
            assert(ids@.take(i + 1).drop_last() =~= ids@.take(i as int));
            if i == 0 {
                assert(ids@.take(1) =~= kept@.push(ids@[0]));
            }
        }
        if i == 0 || ids[i] != ids[i - 1] {
            kept.push(ids[i]);
        }
        i = i + 1;
    }
    proof {
        assert(ids@.take(i as int) =~= ids@);
    }
    kept
}

/// The entries for an English text that is already in lowercase.
///
/// The empty text and a single space find nothing. Any other text is split at
/// its spaces, and from left to right the longest run of at most
/// `ENGLISH_MAX_LENGTH` words that forms a key of the English index is looked
/// up; a word at which no key begins is left out. An entry that repeats the
/// one just before it is dropped.
pub fn match_english<'a>(dictionary: &'a Dictionary, lowered: &str) -> (found: Vec<&'a WordEntry>)
    ensures
        views(found@) == dictionary@.resolve(english_ids(dictionary@, lowered@)),
{
    let n = lowered.unicode_len();
    if n == 0 || (n == 1 && lowered.get_char(0) == ' ') {
        proof {
            if n == 1 {
                assert(lowered@ =~= seq![' ']);
            }
            assert(views(Seq::<&WordEntry>::empty()) =~= dictionary@.resolve(Seq::empty()));
        }
        return Vec::new();
    }
    let words = split_spaces(lowered);
    let units = Words { words: &words };
    let index = dictionary.index(Index::English);
    let keys = match_keys(&units, index, ENGLISH_MAX_LENGTH);
    let ids = dictionary.lookup_all(Index::English, &keys);
    let kept = dedup(&ids);
    proof {
        let domain = dictionary@.english.dom();
        let pieces = split_on(lowered@, ' ');
        assert(lowered@ != seq![' ']) by {
            if n == 1 {
                assert(lowered@[0] != ' ');
            }
        }
        assert(index@.dom() =~= domain);
        assert(key_test(&units, domain) =~= is_compound(domain, pieces));
        assert(matched_spans(&units, domain, ENGLISH_MAX_LENGTH as int) == compound_spans(
            domain,
            pieces,
        ));
        assert(span_keys(&units, compound_spans(domain, pieces)) =~= compounds(domain, pieces));
        let known = dictionary@.entries.dom();
        lemma_first_unknown(ids@, known);
        lemma_dedup_adjacent(ids@);
        assert forall|i: int| 0 <= i < kept@.len() implies known.contains(#[trigger] kept@[i]) by {
            assert(kept@.contains(kept@[i]));
            assert(ids@.contains(kept@[i]));
        }
        lemma_first_unknown(kept@, known);
    }
    dictionary.entries_of(&kept)
}

/// Queries the dictionary with English.
///
/// The text is put in lowercase and matched as `match_english` says.
pub fn query_by_english<'a>(dictionary: &'a Dictionary, raw: &str) -> (found: Vec<&'a WordEntry>)
    ensures
        views(found@) == english_entries(dictionary@, raw@),
{
    let lowered = raw.to_lowercase();
    match_english(dictionary, lowered.as_str())
}

} // verus!
