//! Splitting, joining and lowercasing of query text.

use vstd::prelude::*;
use vstd::string::*;
use crate::entry::views;

verus! {

/// The pieces of `text` between the occurrences of `sep`, in order. A text
/// with `n` separators has `n + 1` pieces, some of which may be empty.
pub open spec fn split_on(text: Seq<char>, sep: char) -> Seq<Seq<char>>
    decreases text.len(),
{
    if text.len() == 0 {
        seq![Seq::empty()]
    } else {
        let before = split_on(text.drop_last(), sep);
        if text.last() == sep {
            before.push(Seq::empty())
        } else {
            before.drop_last().push(before.last().push(text.last()))
        }
    }
}

/// The words of `words` in order, with `delim` between each two neighbours.
pub open spec fn join(words: Seq<Seq<char>>, delim: Seq<char>) -> Seq<char>
    decreases words.len(),
{
    if words.len() == 0 {
        Seq::empty()
    } else if words.len() == 1 {
        words[0]
    } else {
        join(words.drop_last(), delim) + delim + words.last()
    }
}

/// A split always yields at least one piece.
pub proof fn lemma_split_on_nonempty(text: Seq<char>, sep: char)
    ensures
        split_on(text, sep).len() >= 1,
    decreases text.len(),
{
    if text.len() > 0 {
        lemma_split_on_nonempty(text.drop_last(), sep);
    }
}

/// Splitting loses nothing and leaves no separator behind: no piece holds
/// `sep`, and the pieces joined by `sep` give the text back.
pub proof fn lemma_split_on_inverts_join(text: Seq<char>, sep: char)
    ensures
        forall|i: int|
            0 <= i < split_on(text, sep).len() ==> !(#[trigger] split_on(text, sep)[i]).contains(
                sep,
            ),
        join(split_on(text, sep), seq![sep]) == text,
    decreases text.len(),
{
    let pieces = split_on(text, sep);
    if text.len() == 0 {
        assert(pieces[0] =~= Seq::<char>::empty());
        assert(join(pieces, seq![sep]) =~= text);
    } else {
        let shorter = text.drop_last();
        let before = split_on(shorter, sep);
        lemma_split_on_nonempty(shorter, sep);
        lemma_split_on_inverts_join(shorter, sep);
        if text.last() == sep {
            assert(pieces.drop_last() =~= before);
            assert(join(pieces, seq![sep]) =~= shorter + seq![sep] + Seq::<char>::empty());
            assert(shorter + seq![sep] + Seq::<char>::empty() =~= text);
        } else {
            let grown = before.last().push(text.last());
            assert forall|i: int| 0 <= i < pieces.len() implies !(#[trigger] pieces[i]).contains(
                sep,
            ) by {
                if i < pieces.len() - 1 {
                    assert(pieces[i] == before[i]);
                } else {
                    assert(pieces[i] == grown);
                    if grown.contains(sep) {
                        let j = choose|j: int| 0 <= j < grown.len() && grown[j] == sep;
                        assert(before.last()[j] == sep);
                        assert(before.last().contains(sep));
                    }
                }
            }
            if before.len() == 1 {
                assert(join(before, seq![sep]) == before[0]);
                assert(join(pieces, seq![sep]) == grown);
                assert(grown =~= text);
            } else {
                assert(pieces.drop_last() =~= before.drop_last());
                assert(join(pieces, seq![sep]) == join(before.drop_last(), seq![sep]) + seq![sep]
                    + grown);
                assert(join(before, seq![sep]) == join(before.drop_last(), seq![sep]) + seq![sep]
                    + before.last());
                assert(join(pieces, seq![sep]) =~= shorter.push(text.last()));
                assert(shorter.push(text.last()) =~= text);
            }
        }
    }
}

/// Splits `text` at every space.
pub fn split_spaces(text: &str) -> (words: Vec<String>)
    ensures
        views(words@) == split_on(text@, ' '),
{
    let n = text.unicode_len();
    let mut words: Vec<String> = Vec::new();
    let mut start: usize = 0;
    let mut i: usize = 0;
    proof {
        let nothing = text@.subrange(0, 0);
        assert(nothing =~= Seq::<char>::empty());
        assert(views(words@).push(nothing) =~= split_on(nothing, ' '));
    }
    while i < n
        invariant
            start <= i <= n,
            n == text@.len(),
            split_on(text@.subrange(0, i as int), ' ') == views(words@).push(
                text@.subrange(start as int, i as int),
            ),
        decreases n - i,
    {
        let c = text.get_char(i);
        let ghost seen = text@.subrange(0, i as int);
        let ghost grown = text@.subrange(0, i + 1);
        let ghost open = text@.subrange(start as int, i as int);
        proof {
            assert(grown.drop_last() =~= seen);
            assert(grown.last() == c);
            assert(views(words@).push(open).drop_last() =~= views(words@));
        }
        if c == ' ' {
            let word = String::from_str(text.substring_char(start, i));
            proof {
                assert(views(words@.push(word)) =~= views(words@).push(open));
                assert(text@.subrange(i + 1, i + 1) =~= Seq::<char>::empty());
            }
            words.push(word);
            start = i + 1;
        } else {
            proof {
                assert(open.push(c) =~= text@.subrange(start as int, i + 1));
            }
        }
        i = i + 1;
    }
    let word = String::from_str(text.substring_char(start, n));
    proof {
        assert(text@.subrange(0, n as int) =~= text@);
        assert(views(words@.push(word)) =~= views(words@).push(word@));
    }
    words.push(word);
    words
}

/// Joins the words `words[start..start + len]` with `delim` between them.
pub fn join_words(words: &Vec<String>, start: usize, len: usize, delim: &str) -> (joined: String)
    requires
        start + len <= words@.len(),
    ensures
        joined@ == join(views(words@).subrange(start as int, start + len), delim@),
{
    let total = words.len();
    let mut joined = String::new();
    let mut i: usize = 0;
    assert(views(words@).subrange(start as int, start + 0) =~= Seq::<Seq<char>>::empty());
    while i < len
        invariant
            i <= len,
            start + len <= total == words@.len(),
            joined@ == join(views(words@).subrange(start as int, start + i), delim@),
        decreases len - i,
    {
        let ghost before = views(words@).subrange(start as int, start + i);
        let ghost grown = views(words@).subrange(start as int, start + i + 1);
        proof {
            assert(grown.drop_last() =~= before);
            assert(grown.last() == words@[start + i]@);
        }
        if i > 0 {
            joined.append(delim);
        } else {
            proof {
                assert(joined@ + words@[start + i]@ =~= words@[start + i]@);
            }
        }
        joined.append(words[start + i].as_str());
        i = i + 1;
    }
    joined
}

/// The lowercase form of a text, as `str::to_lowercase` of the standard
/// library computes it.
pub uninterp spec fn lowercase_of(text: Seq<char>) -> Seq<char>;

/// `str::to_lowercase`: the lowercase form of `text` as a new `String`. The
/// Unicode case mapping is not written out here; the result has a name.
pub assume_specification[ str::to_lowercase ](text: &str) -> (lowered: String)
    ensures
        lowered@ == lowercase_of(text@),
;

} // verus!
