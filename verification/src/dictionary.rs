//! The index store: four indices from keys to entry identifiers, and the
//! entries they name.

use std::collections::HashMap;
use vstd::prelude::*;
use vstd::hash_map::StringHashMap;
use crate::entry::{views, WordEntry, WordEntryView};

verus! {

broadcast use vstd::std_specs::hash::group_hash_axioms;

/// One of the four indices of a dictionary.
#[derive(Debug, Clone, Copy, PartialEq, Eq)]
pub enum Index {
    /// Words spelled in Traditional characters.
    Traditional,
    /// Words spelled in Simplified characters.
    Simplified,
    /// Pinyin syllable runs, with tone marks, tone numbers or no tones.
    Pinyin,
    /// English words and compounds; the words of a compound are joined by `%20`.
    English,
}

/// Why a dictionary could not be put together.
#[derive(Debug, Clone, Copy, PartialEq, Eq)]
pub enum DictionaryError {
    /// An index names this identifier and no entry carries it.
    MissingEntry(u32),
}

/// What a dictionary holds: for each index the identifiers listed under each
/// key, and the entry of each identifier.
pub struct DictionaryView {
    pub traditional: Map<Seq<char>, Seq<u32>>,
    pub simplified: Map<Seq<char>, Seq<u32>>,
    pub pinyin: Map<Seq<char>, Seq<u32>>,
    pub english: Map<Seq<char>, Seq<u32>>,
    pub entries: Map<u32, WordEntryView>,
}

impl DictionaryView {
    /// The index that `which` names.
    pub open spec fn index(self, which: Index) -> Map<Seq<char>, Seq<u32>> {
        match which {
            Index::Traditional => self.traditional,
            Index::Simplified => self.simplified,
            Index::Pinyin => self.pinyin,
            Index::English => self.english,
        }
    }

    /// The identifiers listed under `key`; none when `key` is no key.
    pub open spec fn lookup(self, which: Index, key: Seq<char>) -> Seq<u32> {
        if self.index(which).contains_key(key) {
            self.index(which)[key]
        } else {
            Seq::empty()
        }
    }

    /// The identifiers listed under each of `keys`, key after key.
    pub open spec fn lookup_all(self, which: Index, keys: Seq<Seq<char>>) -> Seq<u32> {
        keys.map_values(|key: Seq<char>| self.lookup(which, key)).flatten()
    }

    /// The entries that `ids` name, in the order of `ids`.
    pub open spec fn resolve(self, ids: Seq<u32>) -> Seq<WordEntryView> {
        Seq::new(ids.len(), |i: int| self.entries[ids[i]])
    }

    /// Whether some key of some index lists `id`.
    pub open spec fn names(self, id: u32) -> bool {
        exists|which: Index, key: Seq<char>|
            #![trigger self.index(which)[key]]
            self.index(which).contains_key(key) && self.index(which)[key].contains(id)
    }

    /// Every identifier that an index lists has its entry, and every entry is
    /// stored under the identifier it carries.
    pub open spec fn wf(self) -> bool {
        &&& forall|id: u32| #[trigger] self.names(id) ==> self.entries.contains_key(id)
        &&& forall|id: u32|
            self.entries.contains_key(id) ==> (#[trigger] self.entries[id]).word_id == id
    }
}

/// The index that a list of keys with their identifiers makes. Where a key
/// occurs twice, the later occurrence counts.
pub open spec fn index_from(pairs: Seq<(Seq<char>, Seq<u32>)>) -> Map<Seq<char>, Seq<u32>>
    decreases pairs.len(),
{
    if pairs.len() == 0 {
        Map::empty()
    } else {
        index_from(pairs.drop_last()).insert(pairs.last().0, pairs.last().1)
    }
}

/// The store that a list of entries makes: each entry under the identifier it
/// carries. Where an identifier occurs twice, the later entry counts.
pub open spec fn store_from(entries: Seq<WordEntryView>) -> Map<u32, WordEntryView>
    decreases entries.len(),
{
    if entries.len() == 0 {
        Map::empty()
    } else {
        store_from(entries.drop_last()).insert(entries.last().word_id, entries.last())
    }
}

/// The first of `ids` that is not in `known`.
pub open spec fn first_unknown(ids: Seq<u32>, known: Set<u32>) -> Option<u32>
    decreases ids.len(),
{
    if ids.len() == 0 {
        None
    } else {
        match first_unknown(ids.drop_last(), known) {
            Some(id) => Some(id),
            None => if known.contains(ids.last()) {
                None
            } else {
                Some(ids.last())
            },
        }
    }
}

/// The first identifier in `pairs`, read pair after pair, that is not in
/// `known`.
pub open spec fn first_dangling(pairs: Seq<(Seq<char>, Seq<u32>)>, known: Set<u32>) -> Option<u32>
    decreases pairs.len(),
{
    if pairs.len() == 0 {
        None
    } else {
        match first_dangling(pairs.drop_last(), known) {
            Some(id) => Some(id),
            None => first_unknown(pairs.last().1, known),
        }
    }
}

/// The keys and identifier lists of `pairs` as plain values.
pub open spec fn pairs_view(pairs: Seq<(String, Vec<u32>)>) -> Seq<(Seq<char>, Seq<u32>)> {
    Seq::new(pairs.len(), |i: int| (pairs[i].0@, pairs[i].1@))
}

/// A store of entries as the views of its entries.
pub open spec fn store_view(store: Map<u32, WordEntry>) -> Map<u32, WordEntryView> {
    store.map_values(|entry: WordEntry| entry@)
}

/// An index as plain values.
pub open spec fn index_view(index: Map<Seq<char>, Vec<u32>>) -> Map<Seq<char>, Seq<u32>> {
    index.map_values(|ids: Vec<u32>| ids@)
}

/// `first_unknown` finds nothing exactly when every identifier is known, and
/// what it finds is an unknown identifier of the list.
pub proof fn lemma_first_unknown(ids: Seq<u32>, known: Set<u32>)
    ensures
        first_unknown(ids, known) is None <==> forall|i: int|
            0 <= i < ids.len() ==> known.contains(#[trigger] ids[i]),
        first_unknown(ids, known) matches Some(id) ==> ids.contains(id) && !known.contains(id),
    decreases ids.len(),
{
    if ids.len() > 0 {
        let shorter = ids.drop_last();
        lemma_first_unknown(shorter, known);
        match first_unknown(shorter, known) {
            Some(id) => {
                let i = choose|i: int| 0 <= i < shorter.len() && shorter[i] == id;
                assert(ids[i] == id);
            },
            None => {
                assert forall|i: int| 0 <= i < ids.len() - 1 implies known.contains(
                    #[trigger] ids[i],
                ) by {
                    assert(shorter[i] == ids[i]);
                }
                assert(ids[ids.len() - 1] == ids.last());
            },
        }
    }
}

/// `first_dangling` finds nothing exactly when every identifier of every pair
/// is known, and what it finds is an unknown identifier of some pair.
pub proof fn lemma_first_dangling(pairs: Seq<(Seq<char>, Seq<u32>)>, known: Set<u32>)
    ensures
        first_dangling(pairs, known) is None <==> forall|i: int, j: int|
            0 <= i < pairs.len() && 0 <= j < pairs[i].1.len() ==> known.contains(
                #[trigger] pairs[i].1[j],
            ),
        first_dangling(pairs, known) matches Some(id) ==> !known.contains(id) && exists|i: int|
            0 <= i < pairs.len() && (#[trigger] pairs[i]).1.contains(id),
    decreases pairs.len(),
{
    if pairs.len() > 0 {
        let shorter = pairs.drop_last();
        lemma_first_dangling(shorter, known);
        lemma_first_unknown(pairs.last().1, known);
        match first_dangling(shorter, known) {
            Some(id) => {
                let i = choose|i: int| 0 <= i < shorter.len() && (#[trigger] shorter[i]).1.contains(id);
                assert(pairs[i] == shorter[i]);
                let j = choose|j: int| 0 <= j < pairs[i].1.len() && pairs[i].1[j] == id;
                assert(!known.contains(pairs[i].1[j]));
            },
            None => {
                assert forall|i: int, j: int|
                    0 <= i < pairs.len() - 1 && 0 <= j < pairs[i].1.len() implies known.contains(
                    #[trigger] pairs[i].1[j],
                ) by {
                    assert(shorter[i] == pairs[i]);
                }
                match first_unknown(pairs.last().1, known) {
                    Some(id) => {
                        let last = pairs.len() - 1;
                        assert(pairs[last].1.contains(id));
                        let j = choose|j: int| 0 <= j < pairs[last].1.len() && pairs[last].1[j] == id;
                        assert(!known.contains(pairs[last].1[j]));
                    },
                    None => {},
                }
            },
        }
    }
}

/// Every list of identifiers in `index_from(pairs)` is the list of some pair.
pub proof fn lemma_index_from_lists(pairs: Seq<(Seq<char>, Seq<u32>)>, key: Seq<char>)
    requires
        index_from(pairs).contains_key(key),
    ensures
        exists|i: int| 0 <= i < pairs.len() && #[trigger] pairs[i] == (key, index_from(pairs)[key]),
    decreases pairs.len(),
{
    if pairs.len() > 0 {
        let shorter = pairs.drop_last();
        if pairs.last().0 == key {
            assert(pairs[pairs.len() - 1] == (key, index_from(pairs)[key]));
        } else {
            lemma_index_from_lists(shorter, key);
            let i = choose|i: int|
                0 <= i < shorter.len() && #[trigger] shorter[i] == (key, index_from(shorter)[key]);
            assert(pairs[i] == shorter[i]);
        }
    }
}

/// Every entry of `store_from(entries)` is stored under the identifier it
/// carries.
pub proof fn lemma_store_from_keys(entries: Seq<WordEntryView>)
    ensures
        forall|id: u32|
            store_from(entries).contains_key(id) ==> (#[trigger] store_from(entries)[id]).word_id
                == id,
    decreases entries.len(),
{
    if entries.len() > 0 {
        let shorter = entries.drop_last();
        lemma_store_from_keys(shorter);
        assert forall|id: u32| store_from(entries).contains_key(id) implies (
        #[trigger] store_from(entries)[id]).word_id == id by {
            if id != entries.last().word_id {
                assert(store_from(shorter).contains_key(id));
                assert(store_from(entries)[id] == store_from(shorter)[id]);
            }
        }
    }
}

/// What `first_unknown` finds in the first `n` identifiers, it finds in all.
pub proof fn lemma_first_unknown_prefix(ids: Seq<u32>, known: Set<u32>, n: int)
    requires
        0 <= n <= ids.len(),
        first_unknown(ids.take(n), known) is Some,
    ensures
        first_unknown(ids, known) == first_unknown(ids.take(n), known),
    decreases ids.len() - n,
{
    if n < ids.len() {
        assert(ids.take(n + 1).drop_last() =~= ids.take(n));
        lemma_first_unknown_prefix(ids, known, n + 1);
    } else {
        assert(ids.take(n) =~= ids);
    }
}

/// What `first_dangling` finds in the first `n` pairs, it finds in all.
pub proof fn lemma_first_dangling_prefix(
    pairs: Seq<(Seq<char>, Seq<u32>)>,
    known: Set<u32>,
    n: int,
)
    requires
        0 <= n <= pairs.len(),
        first_dangling(pairs.take(n), known) is Some,
    ensures
        first_dangling(pairs, known) == first_dangling(pairs.take(n), known),
    decreases pairs.len() - n,
{
    if n < pairs.len() {
        assert(pairs.take(n + 1).drop_last() =~= pairs.take(n));
        lemma_first_dangling_prefix(pairs, known, n + 1);
    } else {
        assert(pairs.take(n) =~= pairs);
    }
}

/// The first dangling identifier of the four indices, read in the order
/// Traditional, Simplified, pinyin, English.
pub open spec fn load_error(
    traditional: Seq<(Seq<char>, Seq<u32>)>,
    simplified: Seq<(Seq<char>, Seq<u32>)>,
    pinyin: Seq<(Seq<char>, Seq<u32>)>,
    english: Seq<(Seq<char>, Seq<u32>)>,
    entries: Seq<WordEntryView>,
) -> Option<u32> {
    let known = store_from(entries).dom();
    if first_dangling(traditional, known) is Some {
        first_dangling(traditional, known)
    } else if first_dangling(simplified, known) is Some {
        first_dangling(simplified, known)
    } else if first_dangling(pinyin, known) is Some {
        first_dangling(pinyin, known)
    } else {
        first_dangling(english, known)
    }
}

/// The dictionary that four lists of keys and one list of entries make.
pub open spec fn assemble(
    traditional: Seq<(Seq<char>, Seq<u32>)>,
    simplified: Seq<(Seq<char>, Seq<u32>)>,
    pinyin: Seq<(Seq<char>, Seq<u32>)>,
    english: Seq<(Seq<char>, Seq<u32>)>,
    entries: Seq<WordEntryView>,
) -> DictionaryView {
    DictionaryView {
        traditional: index_from(traditional),
        simplified: index_from(simplified),
        pinyin: index_from(pinyin),
        english: index_from(english),
        entries: store_from(entries),
    }
}

/// A dictionary without dangling identifiers is well formed.
pub proof fn lemma_assemble_wf(
    traditional: Seq<(Seq<char>, Seq<u32>)>,
    simplified: Seq<(Seq<char>, Seq<u32>)>,
    pinyin: Seq<(Seq<char>, Seq<u32>)>,
    english: Seq<(Seq<char>, Seq<u32>)>,
    entries: Seq<WordEntryView>,
)
    requires
        load_error(traditional, simplified, pinyin, english, entries) is None,
    ensures
        assemble(traditional, simplified, pinyin, english, entries).wf(),
{
    let d = assemble(traditional, simplified, pinyin, english, entries);
    let known = store_from(entries).dom();
    lemma_store_from_keys(entries);
    lemma_first_dangling(traditional, known);
    lemma_first_dangling(simplified, known);
    lemma_first_dangling(pinyin, known);
    lemma_first_dangling(english, known);
    assert forall|id: u32| #[trigger] d.names(id) implies d.entries.contains_key(id) by {
        let (which, key) = choose|which: Index, key: Seq<char>|
            #![trigger d.index(which)[key]]
            d.index(which).contains_key(key) && d.index(which)[key].contains(id);
        let pairs = match which {
            Index::Traditional => traditional,
            Index::Simplified => simplified,
            Index::Pinyin => pinyin,
            Index::English => english,
        };
        assert(d.index(which) == index_from(pairs));
        lemma_index_from_lists(pairs, key);
        let i = choose|i: int|
            0 <= i < pairs.len() && #[trigger] pairs[i] == (key, index_from(pairs)[key]);
        let j = choose|j: int| 0 <= j < pairs[i].1.len() && pairs[i].1[j] == id;
        assert(known.contains(pairs[i].1[j]));
    }
}

/// The first of `ids` that `store` has no entry for.
fn find_unknown(ids: &Vec<u32>, store: &HashMap<u32, WordEntry>) -> (found: Option<u32>)
    ensures
        found == first_unknown(ids@, store@.dom()),
{
    let mut i: usize = 0;
    while i < ids.len()
        invariant
            i <= ids.len(),
            first_unknown(ids@.take(i as int), store@.dom()) is None,
        decreases ids.len() - i,
    {
        let id = ids[i];
        proof {
            assert(ids@.take(i + 1).drop_last() =~= ids@.take(i as int));
        }
        if !store.contains_key(&id) {
            proof {
                lemma_first_unknown_prefix(ids@, store@.dom(), i + 1);
            }
            return Some(id);
        }
        i = i + 1;
    }
    proof {
        assert(ids@.take(i as int) =~= ids@);
    }
    None
}

/// Puts the entries into a store, each under the identifier it carries.
fn build_store(entries: Vec<WordEntry>) -> (store: HashMap<u32, WordEntry>)
    ensures
        store_view(store@) == store_from(views(entries@)),
{
    let mut store: HashMap<u32, WordEntry> = HashMap::new();
    let ghost all = entries@;
    proof {
        assert(store_view(store@) =~= store_from(views(all.take(0))));
    }
    for entry in it: entries
        invariant
            it.seq() == all,
            store_view(store@) == store_from(views(all.take(it.index()))),
    {
        let id = entry.word_id;
        proof {
            let before = views(all.take(it.index()));
            let after = views(all.take(it.index() + 1));
            assert(after.drop_last() =~= before);
            assert(after.last() == entry@);
            assert(store_view(store@.insert(id, entry)) =~= store_view(store@).insert(id, entry@));
        }
        store.insert(id, entry);
    }
    proof {
        assert(all.take(all.len() as int) =~= all);
    }
    store
}

/// Puts the pairs into an index, unless one of them names an identifier that
/// `store` has no entry for.
fn build_index(pairs: Vec<(String, Vec<u32>)>, store: &HashMap<u32, WordEntry>) -> (result: Result<
    StringHashMap<Vec<u32>>,
    DictionaryError,
>)
    ensures
        match result {
            Ok(index) => {
                &&& first_dangling(pairs_view(pairs@), store@.dom()) is None
                &&& index_view(index@) == index_from(pairs_view(pairs@))
            },
            Err(DictionaryError::MissingEntry(id)) => first_dangling(
                pairs_view(pairs@),
                store@.dom(),
            ) == Some(id),
        },
{
    let mut index: StringHashMap<Vec<u32>> = StringHashMap::new();
    let ghost all = pairs@;
    proof {
        assert(index_view(index@) =~= index_from(pairs_view(all.take(0))));
    }
    for pair in it: pairs
        invariant
            it.seq() == all,
            first_dangling(pairs_view(all.take(it.index())), store@.dom()) is None,
            index_view(index@) == index_from(pairs_view(all.take(it.index()))),
    {
        let (key, ids) = pair;
        let unknown = find_unknown(&ids, store);
        proof {
            let before = pairs_view(all.take(it.index()));
            let after = pairs_view(all.take(it.index() + 1));
            assert(after.drop_last() =~= before);
            assert(after.last() == (key@, ids@));
            assert(pairs_view(all).take(it.index() + 1) =~= after);
            assert(index_view(index@.insert(key@, ids)) =~= index_view(index@).insert(
                key@,
                ids@,
            ));
        }
        match unknown {
            Some(id) => {
                proof {
                    lemma_first_dangling_prefix(pairs_view(all), store@.dom(), it.index() + 1);
                }
                return Err(DictionaryError::MissingEntry(id));
            },
            None => {},
        }
        index.insert(key, ids);
    }
    proof {
        assert(all.take(all.len() as int) =~= all);
    }
    Ok(index)
}

/// A dictionary: four indices over one store of entries.
///
/// Every identifier that an index lists has its entry in the store, so a
/// lookup never comes back without the entries it was promised.
pub struct Dictionary {
    traditional: StringHashMap<Vec<u32>>,
    simplified: StringHashMap<Vec<u32>>,
    pinyin: StringHashMap<Vec<u32>>,
    english: StringHashMap<Vec<u32>>,
    entries: HashMap<u32, WordEntry>,
}

impl View for Dictionary {
    type V = DictionaryView;

    closed spec fn view(&self) -> DictionaryView {
        DictionaryView {
            traditional: index_view(self.traditional@),
            simplified: index_view(self.simplified@),
            pinyin: index_view(self.pinyin@),
            english: index_view(self.english@),
            entries: store_view(self.entries@),
        }
    }
}

impl Dictionary {
    #[verifier::type_invariant]
    spec fn well_formed(&self) -> bool {
        self@.wf()
    }

    /// Builds a dictionary from the keys of its four indices, each with the
    /// identifiers listed under it, and from its entries.
    ///
    /// Where a key occurs twice in one index, or an identifier in two
    /// entries, the later occurrence replaces the earlier one.
    ///
    /// Fails with the first identifier that an index names and no entry
    /// carries. The indices are read in the order Traditional, Simplified,
    /// pinyin, English, each from its first key to its last, and every key is
    /// read, also one that a later one replaces.
    pub fn new(
        traditional: Vec<(String, Vec<u32>)>,
        simplified: Vec<(String, Vec<u32>)>,
        pinyin: Vec<(String, Vec<u32>)>,
        english: Vec<(String, Vec<u32>)>,
        entries: Vec<WordEntry>,
    ) -> (result: Result<Dictionary, DictionaryError>)
        ensures
            match result {
                Ok(dictionary) => {
                    &&& load_error(
                        pairs_view(traditional@),
                        pairs_view(simplified@),
                        pairs_view(pinyin@),
                        pairs_view(english@),
                        views(entries@),
                    ) is None
                    &&& dictionary@ == assemble(
                        pairs_view(traditional@),
                        pairs_view(simplified@),
                        pairs_view(pinyin@),
                        pairs_view(english@),
                        views(entries@),
                    )
                    &&& dictionary@.wf()
                },
                Err(DictionaryError::MissingEntry(id)) => load_error(
                    pairs_view(traditional@),
                    pairs_view(simplified@),
                    pairs_view(pinyin@),
                    pairs_view(english@),
                    views(entries@),
                ) == Some(id),
            },
    {
        let ghost t = pairs_view(traditional@);
        let ghost s = pairs_view(simplified@);
        let ghost p = pairs_view(pinyin@);
        let ghost e = pairs_view(english@);
        let ghost w = views(entries@);
        let store = build_store(entries);
        assert(store@.dom() =~= store_from(w).dom());
        let traditional = match build_index(traditional, &store) {
            Ok(index) => index,
            Err(error) => {
                return Err(error);
            },
        };
        let simplified = match build_index(simplified, &store) {
            Ok(index) => index,
            Err(error) => {
                return Err(error);
            },
        };
        let pinyin = match build_index(pinyin, &store) {
            Ok(index) => index,
            Err(error) => {
                return Err(error);
            },
        };
        let english = match build_index(english, &store) {
            Ok(index) => index,
            Err(error) => {
                return Err(error);
            },
        };
        proof {
            lemma_assemble_wf(t, s, p, e, w);
        }
        Ok(Dictionary { traditional, simplified, pinyin, english, entries: store })
    }

    /// The index that `which` names.
    pub fn index(&self, which: Index) -> (index: &StringHashMap<Vec<u32>>)
        ensures
            self@.wf(),
            index_view(index@) == self@.index(which),
    {
        proof {
            use_type_invariant(self);
        }
        match which {
            Index::Traditional => &self.traditional,
            Index::Simplified => &self.simplified,
            Index::Pinyin => &self.pinyin,
            Index::English => &self.english,
        }
    }

    /// The entry that carries `id`, or the error that names `id` when no
    /// entry does.
    pub fn resolve(&self, id: u32) -> (result: Result<&WordEntry, DictionaryError>)
        ensures
            self@.wf(),
            match result {
                Ok(entry) => self@.entries.contains_key(id) && entry@ == self@.entries[id],
                Err(error) => !self@.entries.contains_key(id) && error
                    == DictionaryError::MissingEntry(id),
            },
    {
        proof {
            use_type_invariant(self);
        }
        match self.entries.get(&id) {
            Some(entry) => Ok(entry),
            None => Err(DictionaryError::MissingEntry(id)),
        }
    }

    /// The entries that carry `ids`, in the order of `ids`, or the error that
    /// names the first of `ids` that no entry carries.
    pub fn resolve_all<'a>(&'a self, ids: &Vec<u32>) -> (result: Result<
        Vec<&'a WordEntry>,
        DictionaryError,
    >)
        ensures
            match result {
                Ok(found) => {
                    &&& first_unknown(ids@, self@.entries.dom()) is None
                    &&& views(found@) == self@.resolve(ids@)
                },
                Err(DictionaryError::MissingEntry(id)) => first_unknown(
                    ids@,
                    self@.entries.dom(),
                ) == Some(id),
            },
    {
        let mut found: Vec<&'a WordEntry> = Vec::new();
        let mut i: usize = 0;
        let ghost known = self@.entries.dom();
        assert(known =~= self.entries@.dom());
        while i < ids.len()
            invariant
                i <= ids.len(),
                known == self@.entries.dom(),
                known == self.entries@.dom(),
                first_unknown(ids@.take(i as int), known) is None,
                views(found@) == self@.resolve(ids@.take(i as int)),
            decreases ids.len() - i,
        {
            let id = ids[i];
            proof {
                assert(ids@.take(i + 1).drop_last() =~= ids@.take(i as int));
            }
            match self.entries.get(&id) {
                Some(entry) => {
                    proof {
                        let grown = views(found@.push(entry));
                        let wanted = self@.resolve(ids@.take(i + 1));
                        assert(views(found@).len() == i);
                        assert(self.entries@[id] == *entry);
                        assert(self@.entries[id] == entry@);
                        assert forall|j: int| 0 <= j < grown.len() implies grown[j] == wanted[j] by {
                            if j < i {
                                assert(grown[j] == views(found@)[j]);
                                assert(wanted[j] == self@.resolve(ids@.take(i as int))[j]);
                            }
                        }
                        assert(grown =~= wanted);
                    }
                    found.push(entry);
                },
                None => {
                    proof {
                        lemma_first_unknown_prefix(ids@, known, i + 1);
                    }
                    return Err(DictionaryError::MissingEntry(id));
                },
            }
            i = i + 1;
        }
        proof {
            assert(ids@.take(i as int) =~= ids@);
        }
        Ok(found)
    }

    /// The identifiers that the index `which` lists under each of `keys`, key
    /// after key. Each of them has its entry.
    pub fn lookup_all(&self, which: Index, keys: &Vec<String>) -> (ids: Vec<u32>)
        ensures
            ids@ == self@.lookup_all(which, views(keys@)),
            first_unknown(ids@, self@.entries.dom()) is None,
    {
        let index = self.index(which);
        let mut ids: Vec<u32> = Vec::new();
        let mut k: usize = 0;
        let ghost all = views(keys@);
        let ghost known = self@.entries.dom();
        proof {
            use_type_invariant(self);
            assert(all.take(0).map_values(|key: Seq<char>| self@.lookup(which, key)) =~= Seq::<
                Seq<u32>,
            >::empty());
        }
        while k < keys.len()
            invariant
                k <= keys.len(),
                all == views(keys@),
                known == self@.entries.dom(),
                self@.wf(),
                index_view(index@) == self@.index(which),
                ids@ == self@.lookup_all(which, all.take(k as int)),
                first_unknown(ids@, known) is None,
            decreases keys.len() - k,
        {
            let ghost before = ids@;
            let ghost key = keys@[k as int]@;
            let ghost listed = self@.lookup(which, key);
            proof {
                let lists = all.take(k as int).map_values(
                    |key: Seq<char>| self@.lookup(which, key),
                );
                assert(all.take(k + 1).map_values(|key: Seq<char>| self@.lookup(which, key))
                    =~= lists.push(listed));
                lists.lemma_flatten_push(listed);
                assert(index_view(index@).contains_key(key) == index@.contains_key(key));
                lemma_first_unknown(before, known);
                assert forall|j: int| 0 <= j < listed.len() implies known.contains(
                    #[trigger] listed[j],
                ) by {
                    assert(self@.index(which)[key].contains(listed[j]));
                    assert(self@.names(listed[j]));
                }
            }
            match index.get(keys[k].as_str()) {
                Some(found) => {
                    proof {
                        assert(found@ == listed);
                    }
                    let mut j: usize = 0;
                    while j < found.len()
                        invariant
                            j <= found.len(),
                            found@ == listed,
                            ids@ == before + listed.take(j as int),
                        decreases found.len() - j,
                    {
                        proof {
                            assert(listed.take(j + 1) =~= listed.take(j as int).push(listed[j as int]));
                        }
                        ids.push(found[j]);
                        j = j + 1;
                    }
                    proof {
                        assert(listed.take(j as int) =~= listed);
                    }
                },
                None => {
                    proof {
                        assert(before + listed =~= before);
                    }
                },
            }
            proof {
                assert forall|j: int| 0 <= j < ids@.len() implies known.contains(
                    #[trigger] ids@[j],
                ) by {
                    if j < before.len() {
                        assert(ids@[j] == before[j]);
                    } else {
                        assert(ids@[j] == listed[j - before.len()]);
                    }
                }
                lemma_first_unknown(ids@, known);
            }
            k = k + 1;
        }
        proof {
            assert(all.take(k as int) =~= all);
        }
        ids
    }

    /// The entries that carry `ids`, where every one of `ids` has its entry.
    pub(crate) fn entries_of<'a>(&'a self, ids: &Vec<u32>) -> (found: Vec<&'a WordEntry>)
        requires
            first_unknown(ids@, self@.entries.dom()) is None,
        ensures
            views(found@) == self@.resolve(ids@),
    {
        match self.resolve_all(ids) {
            Ok(found) => found,
            Err(_) => Vec::new(),
        }
    }
}

/// The entries that the index `which` lists under `word`, in the order of the
/// index; none when `word` is no key of it.
pub fn get_entries<'a>(dictionary: &'a Dictionary, which: Index, word: &str) -> (found: Vec<
    &'a WordEntry,
>)
    ensures
        views(found@) == dictionary@.resolve(dictionary@.lookup(which, word@)),
{
    let mut keys: Vec<String> = Vec::new();
    keys.push(word.to_owned());
    let ids = dictionary.lookup_all(which, &keys);
    proof {
        let lists = views(keys@).map_values(|key: Seq<char>| dictionary@.lookup(which, key));
        assert(lists.len() == 1);
        assert(lists.first() == dictionary@.lookup(which, word@));
        lists.lemma_flatten_one_element();
    }
    dictionary.entries_of(&ids)
}

} // verus!
