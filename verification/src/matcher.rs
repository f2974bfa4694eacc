//! Greedy longest-match over a sequence of units.
//!
//! Both the segmentation of a run of characters and the matching of English
//! compound words walk their input from left to right and, at every position,
//! take the longest window of units that forms a key of an index. The units
//! differ (characters, words) and so does the way a window becomes a key; the
//! walk is the same and is stated and proved here once.

use vstd::prelude::*;
use vstd::hash_map::StringHashMap;
use crate::entry::views;

verus! {

/// A matched window: `len` units that begin at unit `start`.
pub struct Span {
    pub start: int,
    pub len: int,
}

impl Span {
    /// The position just behind the window.
    pub open spec fn end(self) -> int {
        self.start + self.len
    }

    /// Whether position `pos` lies inside the window.
    pub open spec fn covers(self, pos: int) -> bool {
        self.start <= pos < self.end()
    }
}

/// The largest window that may be tried at `pos`: at most `window` units, and
/// no more than are left.
pub open spec fn window_at(count: int, window: int, pos: int) -> int {
    if window < count - pos {
        window
    } else {
        count - pos
    }
}

/// The length of the longest window of at most `bound` units at `start` that
/// forms a key, or 0 when no window of 1 to `bound` units does.
pub open spec fn longest_match(is_key: spec_fn(int, int) -> bool, start: int, bound: int) -> int
    decreases bound,
{
    if bound <= 0 {
        0
    } else if is_key(start, bound) {
        bound
    } else {
        longest_match(is_key, start, bound - 1)
    }
}

/// The windows that a greedy walk from `pos` to `count` matches, in order.
///
/// `is_key(start, len)` says whether the `len` units at `start` form a key.
/// Where a window matches, the walk goes on behind it; where none does, the
/// unit at `pos` is passed over.
pub open spec fn spans_from(
    is_key: spec_fn(int, int) -> bool,
    count: int,
    window: int,
    pos: int,
) -> Seq<Span>
    decreases count - pos,
    via spans_from_decreases
{
    if pos >= count {
        Seq::empty()
    } else {
        let len = longest_match(is_key, pos, window_at(count, window, pos));
        if len <= 0 {
            spans_from(is_key, count, window, pos + 1)
        } else {
            seq![Span { start: pos, len }] + spans_from(is_key, count, window, pos + len)
        }
    }
}

#[via_fn]
proof fn spans_from_decreases(
    is_key: spec_fn(int, int) -> bool,
    count: int,
    window: int,
    pos: int,
) {
    lemma_longest_match(is_key, pos, window_at(count, window, pos));
}

/// Whether some window of `spans` covers `pos`.
pub open spec fn covered(spans: Seq<Span>, pos: int) -> bool {
    exists|i: int| 0 <= i < spans.len() && (#[trigger] spans[i]).covers(pos)
}

/// `longest_match` returns 0 or a length between 1 and `bound` that forms a
/// key, and no longer window up to `bound` forms one.
pub proof fn lemma_longest_match(is_key: spec_fn(int, int) -> bool, start: int, bound: int)
    ensures
        0 <= longest_match(is_key, start, bound),
        bound >= 0 ==> longest_match(is_key, start, bound) <= bound,
        longest_match(is_key, start, bound) > 0 ==> is_key(
            start,
            longest_match(is_key, start, bound),
        ),
        forall|k: int|
            longest_match(is_key, start, bound) < k <= bound && 1 <= k ==> !#[trigger] is_key(
                start,
                k,
            ),
    decreases bound,
{
    if bound > 0 && !is_key(start, bound) {
        lemma_longest_match(is_key, start, bound - 1);
    }
}

/// The windows of a greedy walk begun at `pos` lie at or behind `pos` and
/// inside the input, one behind the other. Each forms a key and is the
/// longest at its place that does. At a position that none of them covers, no
/// window forms a key.
pub proof fn lemma_spans_from(
    is_key: spec_fn(int, int) -> bool,
    count: int,
    window: int,
    pos: int,
)
    requires
        0 <= pos,
    ensures
        ({
            let spans = spans_from(is_key, count, window, pos);
            &&& forall|i: int|
                0 <= i < spans.len() ==> {
                    let s = #[trigger] spans[i];
                    &&& pos <= s.start
                    &&& 1 <= s.len <= window
                    &&& s.end() <= count
                    &&& is_key(s.start, s.len)
                    &&& s.len == longest_match(is_key, s.start, window_at(count, window, s.start))
                }
            &&& forall|i: int, j: int|
                0 <= i < j < spans.len() ==> (#[trigger] spans[i]).end() <= (
                #[trigger] spans[j]).start
            &&& forall|p: int|
                pos <= p < count && !covered(spans, p) ==> #[trigger] longest_match(
                    is_key,
                    p,
                    window_at(count, window, p),
                ) == 0
        }),
    decreases count - pos,
{
    let spans = spans_from(is_key, count, window, pos);
    if pos < count {
        let bound = window_at(count, window, pos);
        let len = longest_match(is_key, pos, bound);
        lemma_longest_match(is_key, pos, bound);
        if len <= 0 {
            lemma_spans_from(is_key, count, window, pos + 1);
            assert forall|p: int| pos <= p < count && !covered(spans, p) implies longest_match(
                is_key,
                p,
                window_at(count, window, p),
            ) == 0 by {
                if p > pos {
                    assert(!covered(spans_from(is_key, count, window, pos + 1), p));
                }
            }
        } else {
            let head = Span { start: pos, len };
            let rest = spans_from(is_key, count, window, pos + len);
            lemma_spans_from(is_key, count, window, pos + len);
            assert(spans == seq![head] + rest);
            assert(spans[0] == head);
            assert forall|i: int| 0 < i < spans.len() implies #[trigger] spans[i] == rest[i - 1] by {}
            assert forall|i: int, j: int| 0 <= i < j < spans.len() implies (#[trigger] spans[i]).end()
                <= (#[trigger] spans[j]).start by {
                assert(spans[j] == rest[j - 1]);
                if i > 0 {
                    assert(spans[i] == rest[i - 1]);
                }
            }
            assert forall|p: int| pos <= p < count && !covered(spans, p) implies longest_match(
                is_key,
                p,
                window_at(count, window, p),
            ) == 0 by {
                assert(!spans[0].covers(p));
                if covered(rest, p) {
                    let i = choose|i: int| 0 <= i < rest.len() && (#[trigger] rest[i]).covers(p);
                    assert(spans[i + 1] == rest[i]);
                    assert(spans[i + 1].covers(p));
                }
            }
        }
    }
}

/// A sequence of units whose windows form keys: the input of a greedy walk.
pub trait Units {
    /// The number of units.
    spec fn count(&self) -> nat;

    /// The key that the `len` units beginning at `start` form.
    spec fn key_at(&self, start: int, len: int) -> Seq<char>;

    /// The number of units.
    fn len(&self) -> (n: usize)
        ensures
            n == self.count(),
    ;

    /// The key that the `len` units beginning at `start` form.
    fn key(&self, start: usize, len: usize) -> (key: String)
        requires
            1 <= len,
            start + len <= self.count() <= usize::MAX,
        ensures
            key@ == self.key_at(start as int, len as int),
    ;
}

/// The membership test of a walk over `units` against a set of keys.
pub open spec fn key_test<U: Units>(units: &U, keys: Set<Seq<char>>) -> spec_fn(int, int) -> bool {
    |start: int, len: int| keys.contains(units.key_at(start, len))
}

/// The windows that a greedy walk over `units` matches against `keys`.
pub open spec fn matched_spans<U: Units>(units: &U, keys: Set<Seq<char>>, window: int) -> Seq<
    Span,
> {
    spans_from(key_test(units, keys), units.count() as int, window, 0)
}

/// The keys that the windows `spans` of `units` form, in order.
pub open spec fn span_keys<U: Units>(units: &U, spans: Seq<Span>) -> Seq<Seq<char>> {
    Seq::new(spans.len(), |i: int| units.key_at(spans[i].start, spans[i].len))
}

/// Walks `units` from left to right and returns the keys of `index` that it
/// matches. At every position it tries the longest window first, of `window`
/// units or of all that are left, and shortens it by one unit until the window
/// forms a key of `index`. A unit at which no window matches is passed over.
pub fn match_keys<U: Units>(units: &U, index: &StringHashMap<Vec<u32>>, window: usize) -> (keys:
    Vec<String>)
    ensures
        views(keys@) == span_keys(units, matched_spans(units, index@.dom(), window as int)),
{
    let count = units.len();
    let mut keys: Vec<String> = Vec::new();
    let ghost is_key = key_test(units, index@.dom());
    let ghost mut done: Seq<Span> = Seq::empty();
    let mut skip: usize = 0;
    assert(views(keys@) =~= span_keys(units, done));
    assert(done + spans_from(is_key, count as int, window as int, 0) =~= spans_from(
        is_key,
        count as int,
        window as int,
        0,
    ));
    while skip < count
        invariant
            skip <= count,
            count == units.count(),
            is_key == key_test(units, index@.dom()),
            done + spans_from(is_key, count as int, window as int, skip as int) == spans_from(
                is_key,
                count as int,
                window as int,
                0,
            ),
            views(keys@) == span_keys(units, done),
        decreases count - skip,
    {
        let bound: usize = if window < count - skip {
            window
        } else {
            count - skip
        };
        let mut take: usize = bound;
        let mut hit: Option<String> = None;
        while take > 0 && hit.is_none()
            invariant
                skip < count,
                count == units.count(),
                take <= bound,
                bound == window_at(count as int, window as int, skip as int),
                is_key == key_test(units, index@.dom()),
                hit is Some ==> take >= 1 && hit->0@ == units.key_at(skip as int, take as int),
                longest_match(is_key, skip as int, bound as int) == (if hit is Some {
                    take as int
                } else {
                    longest_match(is_key, skip as int, take as int)
                }),
            decreases take, (if hit is None { 1int } else { 0int }),
        {
            let key = units.key(skip, take);
            if index.contains_key(key.as_str()) {
                hit = Some(key);
            } else {
                take = take - 1;
            }
        }
        let ghost rest = spans_from(is_key, count as int, window as int, skip as int);
        match hit {
            Some(key) => {
                let ghost span = Span { start: skip as int, len: take as int };
                proof {
                    assert(rest == seq![span] + spans_from(
                        is_key,
                        count as int,
                        window as int,
                        skip + take,
                    ));
                    assert(done.push(span) + spans_from(
                        is_key,
                        count as int,
                        window as int,
                        skip + take,
                    ) =~= done + rest);
                    assert(views(keys@).len() == keys@.len());
                    assert(span_keys(units, done).len() == done.len());
                    let pushed = views(keys@.push(key));
                    let formed = span_keys(units, done.push(span));
                    assert forall|i: int| 0 <= i < pushed.len() implies pushed[i] == formed[i] by {
                        if i < keys@.len() {
                            assert(pushed[i] == views(keys@)[i]);
                            assert(formed[i] == span_keys(units, done)[i]);
                        }
                    }
                    assert(pushed =~= formed);
                    done = done.push(span);
                }
                keys.push(key);
                skip = skip + take;
            },
            None => {
                skip = skip + 1;
            },
        }
    }
    proof {
        assert(done + Seq::<Span>::empty() =~= done);
    }
    keys
}

} // verus!
