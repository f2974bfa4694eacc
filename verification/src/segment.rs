//! Segmentation of a run of characters into words of a dictionary.

use vstd::prelude::*;
use vstd::string::*;
use crate::dictionary::{index_view, Dictionary, Index};
use crate::entry::views;
use crate::matcher::{
    key_test, lemma_longest_match, lemma_spans_from, longest_match, match_keys, matched_spans,
    span_keys, spans_from, window_at, covered, Span, Units,
};
use crate::script::{detect_script, script_of};

verus! {

/// The most characters that one word may have.
pub const SEGMENT_WINDOW: usize = 20;

/// A text as a sequence of characters; a window of it forms the key that
/// holds just those characters.
pub struct Characters<'a> {
    pub text: &'a str,
}

impl<'a> Units for Characters<'a> {
    open spec fn count(&self) -> nat {
        self.text@.len()
    }

    open spec fn key_at(&self, start: int, len: int) -> Seq<char> {
        self.text@.subrange(start, start + len)
    }

    fn len(&self) -> (n: usize) {
        self.text.unicode_len()
    }

    fn key(&self, start: usize, len: usize) -> (key: String) {
        String::from_str(self.text.substring_char(start, start + len))
    }
}

/// Whether the `len` characters of `text` that begin at `start` are a word of
/// `keys`.
pub open spec fn is_word(keys: Set<Seq<char>>, text: Seq<char>) -> spec_fn(int, int) -> bool {
    |start: int, len: int| keys.contains(text.subrange(start, start + len))
}

/// Where the words of `text` lie: at every position the longest run of at
/// most `SEGMENT_WINDOW` characters that is a word of `keys`; a character at
/// which no word begins belongs to none.
pub open spec fn word_spans(keys: Set<Seq<char>>, text: Seq<char>) -> Seq<Span> {
    spans_from(is_word(keys, text), text.len() as int, SEGMENT_WINDOW as int, 0)
}

/// The words of `text`, in the order in which they occur in it.
pub open spec fn segments(keys: Set<Seq<char>>, text: Seq<char>) -> Seq<Seq<char>> {
    Seq::new(
        word_spans(keys, text).len(),
        |i: int| text.subrange(word_spans(keys, text)[i].start, word_spans(keys, text)[i].end()),
    )
}

/// The tokens of a segmentation are words of the index, and they lie in the
/// text one behind the other: each is the run of characters at its place, the
/// places do not overlap, and they come in the order of the tokens.
pub proof fn lemma_segments_are_words_in_order(keys: Set<Seq<char>>, text: Seq<char>)
    ensures
        segments(keys, text).len() == word_spans(keys, text).len(),
        forall|i: int|
            0 <= i < segments(keys, text).len() ==> {
                let span = word_spans(keys, text)[i];
                let token = #[trigger] segments(keys, text)[i];
                &&& 0 <= span.start
                &&& 1 <= span.len <= SEGMENT_WINDOW
                &&& span.end() <= text.len()
                &&& token == text.subrange(span.start, span.end())
                &&& token.len() == span.len
                &&& keys.contains(token)
            },
        forall|i: int, j: int|
            0 <= i < j < word_spans(keys, text).len() ==> (#[trigger] word_spans(keys, text)[i]).end()
                <= (#[trigger] word_spans(keys, text)[j]).start,
{
    lemma_spans_from(is_word(keys, text), text.len() as int, SEGMENT_WINDOW as int, 0);
}

/// Segmentation is greedy: no longer run of characters at the place of a
/// token, up to `SEGMENT_WINDOW` characters and the end of the text, is a word
/// of the index; and at a character that no token covers, no run of 1 to
/// `SEGMENT_WINDOW` characters is a word.
pub proof fn lemma_segments_are_longest(keys: Set<Seq<char>>, text: Seq<char>)
    ensures
        forall|i: int, len: int|
            #![trigger word_spans(keys, text)[i], text.subrange(word_spans(keys, text)[i].start, word_spans(keys, text)[i].start + len)]
            0 <= i < word_spans(keys, text).len() && word_spans(keys, text)[i].len < len
                <= SEGMENT_WINDOW && word_spans(keys, text)[i].start + len <= text.len()
                ==> !keys.contains(
                text.subrange(
                    word_spans(keys, text)[i].start,
                    word_spans(keys, text)[i].start + len,
                ),
            ),
        forall|pos: int, len: int|
            #![trigger text.subrange(pos, pos + len)]
            0 <= pos && !covered(word_spans(keys, text), pos) && 1 <= len <= SEGMENT_WINDOW && pos
                + len <= text.len() ==> !keys.contains(text.subrange(pos, pos + len)),
{
    let is_key = is_word(keys, text);
    let count = text.len() as int;
    let window = SEGMENT_WINDOW as int;
    let spans = word_spans(keys, text);
    lemma_spans_from(is_key, count, window, 0);
    assert forall|i: int, len: int|
        #![trigger spans[i], text.subrange(spans[i].start, spans[i].start + len)]
        0 <= i < spans.len() && spans[i].len < len <= SEGMENT_WINDOW && spans[i].start + len
            <= text.len() implies !keys.contains(
        text.subrange(spans[i].start, spans[i].start + len),
    ) by {
        lemma_longest_match(is_key, spans[i].start, window_at(count, window, spans[i].start));
        assert(!is_key(spans[i].start, len));
    }
    assert forall|pos: int, len: int|
        #![trigger text.subrange(pos, pos + len)]
        0 <= pos && !covered(spans, pos) && 1 <= len <= SEGMENT_WINDOW && pos + len
            <= text.len() implies !keys.contains(text.subrange(pos, pos + len)) by {
        assert(longest_match(is_key, pos, window_at(count, window, pos)) == 0);
        lemma_longest_match(is_key, pos, window_at(count, window, pos));
        assert(!is_key(pos, len));
    }
}

/// A text in which no run of 1 to `SEGMENT_WINDOW` characters is a word of the
/// index has no tokens; the empty text is one such.
pub proof fn lemma_segments_of_unmatched_text(keys: Set<Seq<char>>, text: Seq<char>)
    requires
        forall|pos: int, len: int|
            #![trigger text.subrange(pos, pos + len)]
            0 <= pos && 1 <= len <= SEGMENT_WINDOW && pos + len <= text.len() ==> !keys.contains(
                text.subrange(pos, pos + len),
            ),
    ensures
        segments(keys, text) == Seq::<Seq<char>>::empty(),
{
    lemma_segments_are_words_in_order(keys, text);
    if segments(keys, text).len() > 0 {
        let span = word_spans(keys, text)[0];
        assert(keys.contains(segments(keys, text)[0]));
        assert(!keys.contains(text.subrange(span.start, span.start + span.len)));
    }
    assert(segments(keys, text) =~= Seq::<Seq<char>>::empty());
}

/// Segments `raw` into words of the index `which`: from left to right, at
/// every character the longest run of at most `SEGMENT_WINDOW` characters
/// that is a key of the index. A character at which no key begins is left
/// out.
pub fn segment(dictionary: &Dictionary, which: Index, raw: &str) -> (tokens: Vec<String>)
    ensures
        views(tokens@) == segments(dictionary@.index(which).dom(), raw@),
{
    let units = Characters { text: raw };
    let index = dictionary.index(which);
    let tokens = match_keys(&units, index, SEGMENT_WINDOW);
    proof {
        let keys = dictionary@.index(which).dom();
        assert(index@.dom() =~= keys);
        assert(key_test(&units, keys) =~= is_word(keys, raw@));
        assert(matched_spans(&units, keys, SEGMENT_WINDOW as int) == word_spans(keys, raw@));
        assert(span_keys(&units, word_spans(keys, raw@)) =~= segments(keys, raw@));
    }
    tokens
}

/// Segments `raw` into words of the character index that goes with its
/// script.
pub fn tokenize(dictionary: &Dictionary, raw: &str) -> (tokens: Vec<String>)
    ensures
        views(tokens@) == segments(dictionary@.index(script_of(raw@)).dom(), raw@),
{
    segment(dictionary, detect_script(raw), raw)
}

} // verus!
