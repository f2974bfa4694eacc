//! A searchable Chinese / English dictionary.
//!
//! The dictionary is a set of four indices (Traditional characters, Simplified
//! characters, pinyin and English) over one store of entries. Queries segment
//! their input with a greedy longest-match against the keys of an index and
//! resolve every matched key to the entries it names.

pub mod dictionary;
pub mod english;
pub mod entry;
pub mod matcher;
pub mod query;
pub mod script;
pub mod segment;
pub mod text;

pub use dictionary::{get_entries, Dictionary, DictionaryError, DictionaryView, Index};
pub use english::{match_english, query_by_english};
pub use entry::{MeasureWord, MeasureWordView, WordEntry, WordEntryView};
pub use query::{
    lookup_pinyin, query, query_by_characters, query_by_chinese, query_by_pinyin,
    query_by_simplified, query_by_traditional, query_classified,
};
pub use script::{classify, is_traditional, ClassificationResult};
pub use segment::{segment, tokenize};
