//! The records the dictionary serves.

use vstd::prelude::*;

verus! {

/// The views of a sequence of values, in order.
pub open spec fn views<T: View>(items: Seq<T>) -> Seq<T::V> {
    Seq::new(items.len(), |i: int| items[i]@)
}

/// A measure word (classifier) that goes with an entry.
#[derive(Debug, Clone, PartialEq, Eq)]
pub struct MeasureWord {
    pub traditional: String,
    pub simplified: String,
    pub pinyin_marks: String,
    pub pinyin_numbers: String,
}

/// What a [`MeasureWord`] holds, as plain sequences of characters.
pub struct MeasureWordView {
    pub traditional: Seq<char>,
    pub simplified: Seq<char>,
    pub pinyin_marks: Seq<char>,
    pub pinyin_numbers: Seq<char>,
}

impl View for MeasureWord {
    type V = MeasureWordView;

    open spec fn view(&self) -> MeasureWordView {
        MeasureWordView {
            traditional: self.traditional@,
            simplified: self.simplified@,
            pinyin_marks: self.pinyin_marks@,
            pinyin_numbers: self.pinyin_numbers@,
        }
    }
}

/// One dictionary entry. Its identity is `word_id`.
#[derive(Debug, Clone, PartialEq, Eq)]
pub struct WordEntry {
    pub traditional: String,
    pub simplified: String,
    pub pinyin_marks: String,
    pub pinyin_numbers: String,
    pub english: Vec<String>,
    pub tone_marks: Vec<u8>,
    pub hash: u64,
    pub measure_words: Vec<MeasureWord>,
    pub hsk: u8,
    pub word_id: u32,
}

/// What a [`WordEntry`] holds, as plain values.
pub struct WordEntryView {
    pub traditional: Seq<char>,
    pub simplified: Seq<char>,
    pub pinyin_marks: Seq<char>,
    pub pinyin_numbers: Seq<char>,
    pub english: Seq<Seq<char>>,
    pub tone_marks: Seq<u8>,
    pub hash: u64,
    pub measure_words: Seq<MeasureWordView>,
    pub hsk: u8,
    pub word_id: u32,
}

impl View for WordEntry {
    type V = WordEntryView;

    open spec fn view(&self) -> WordEntryView {
        WordEntryView {
            traditional: self.traditional@,
            simplified: self.simplified@,
            pinyin_marks: self.pinyin_marks@,
            pinyin_numbers: self.pinyin_numbers@,
            english: views(self.english@),
            tone_marks: self.tone_marks@,
            hash: self.hash,
            measure_words: views(self.measure_words@),
            hsk: self.hsk,
            word_id: self.word_id,
        }
    }
}

} // verus!
