use chinese_dictionary::dictionary::Index;
use chinese_dictionary::english::{dedup, Words, ENGLISH_MAX_LENGTH};
use chinese_dictionary::matcher::{match_keys, Units};
use chinese_dictionary::segment::{Characters, SEGMENT_WINDOW};
use chinese_dictionary::text::{join_words, split_spaces};
use chinese_dictionary::{
    get_entries, lookup_pinyin, match_english, query, query_by_characters, query_by_chinese,
    query_by_english, query_by_pinyin, query_by_simplified, query_by_traditional,
    query_classified, segment, tokenize, ClassificationResult, Dictionary, DictionaryError,
    WordEntry,
};

fn entry(word_id: u32, traditional: &str, simplified: &str) -> WordEntry {
    WordEntry {
        traditional: traditional.to_string(),
        simplified: simplified.to_string(),
        pinyin_marks: String::new(),
        pinyin_numbers: String::new(),
        english: Vec::new(),
        tone_marks: vec![1, 2],
        hash: 0,
        measure_words: Vec::new(),
        hsk: 1,
        word_id,
    }
}

fn keys(pairs: &[(&str, &[u32])]) -> Vec<(String, Vec<u32>)> {
    pairs.iter().map(|(key, ids)| (key.to_string(), ids.to_vec())).collect()
}

fn numbered(count: u32) -> Vec<WordEntry> {
    (1..=count).map(|id| entry(id, &format!("t{}", id), &format!("s{}", id))).collect()
}

fn with_traditional(pairs: &[(&str, &[u32])]) -> Dictionary {
    Dictionary::new(keys(pairs), Vec::new(), Vec::new(), Vec::new(), numbered(9)).unwrap()
}

fn with_english(pairs: &[(&str, &[u32])]) -> Dictionary {
    Dictionary::new(Vec::new(), Vec::new(), Vec::new(), keys(pairs), numbered(9)).unwrap()
}

fn with_pinyin(pairs: &[(&str, &[u32])]) -> Dictionary {
    Dictionary::new(Vec::new(), Vec::new(), keys(pairs), Vec::new(), numbered(9)).unwrap()
}

fn ids(found: &[&WordEntry]) -> Vec<u32> {
    found.iter().map(|entry| entry.word_id).collect()
}

fn strings(words: &[&str]) -> Vec<String> {
    words.iter().map(|word| word.to_string()).collect()
}

#[test]
fn segment_prefers_the_longest_key() {
    let dictionary = with_traditional(&[("AB", &[1]), ("A", &[2])]);
    assert_eq!(segment(&dictionary, Index::Traditional, "ABC"), strings(&["AB"]));
}

#[test]
fn segment_shrinks_until_a_key_matches() {
    let dictionary = with_traditional(&[("A", &[1]), ("BC", &[2]), ("ABCD", &[3])]);
    assert_eq!(segment(&dictionary, Index::Traditional, "ABC"), strings(&["A", "BC"]));
}

#[test]
fn segment_leaves_unmatched_characters_out() {
    let dictionary = with_traditional(&[("A", &[1]), ("BC", &[2])]);
    assert_eq!(segment(&dictionary, Index::Traditional, "xAy。BCz"), strings(&["A", "BC"]));
    assert_eq!(segment(&dictionary, Index::Traditional, "xyz"), Vec::<String>::new());
}

#[test]
fn segment_of_nothing_is_empty() {
    let dictionary = with_traditional(&[("A", &[1])]);
    assert_eq!(segment(&dictionary, Index::Traditional, ""), Vec::<String>::new());
    assert_eq!(segment(&dictionary, Index::Traditional, " "), Vec::<String>::new());
    assert_eq!(tokenize(&dictionary, ""), Vec::<String>::new());
    assert_eq!(tokenize(&dictionary, " "), Vec::<String>::new());
}

#[test]
fn segment_searches_the_index_it_is_given() {
    let dictionary = Dictionary::new(
        keys(&[("A", &[1])]),
        keys(&[("B", &[2])]),
        Vec::new(),
        Vec::new(),
        numbered(2),
    )
    .unwrap();
    assert_eq!(segment(&dictionary, Index::Traditional, "AB"), strings(&["A"]));
    assert_eq!(segment(&dictionary, Index::Simplified, "AB"), strings(&["B"]));
    assert_eq!(segment(&dictionary, Index::Pinyin, "AB"), Vec::<String>::new());
}

#[test]
fn segment_tries_at_most_twenty_characters() {
    assert_eq!(SEGMENT_WINDOW, 20);
    let twenty = "a".repeat(20);
    let twenty_one = "a".repeat(21);
    let dictionary = with_traditional(&[(&twenty_one, &[1])]);
    assert_eq!(segment(&dictionary, Index::Traditional, &twenty_one), Vec::<String>::new());
    let dictionary = with_traditional(&[(&twenty, &[1]), ("a", &[2])]);
    assert_eq!(
        segment(&dictionary, Index::Traditional, &twenty_one),
        vec![twenty.clone(), "a".to_string()]
    );
}

#[test]
fn segment_counts_characters_and_not_bytes() {
    let twenty = "字".repeat(20);
    let text = format!("{}字", twenty);
    let dictionary = with_traditional(&[(&twenty, &[1])]);
    assert_eq!(segment(&dictionary, Index::Traditional, &text), vec![twenty.clone()]);
}

#[test]
fn segment_tokens_are_keys_in_the_order_of_the_text() {
    let dictionary = with_traditional(&[("今天", &[1]), ("天", &[2]), ("天氣", &[3]), ("氣", &[4])]);
    let text = "今天天氣，天天氣";
    let tokens = segment(&dictionary, Index::Traditional, text);
    assert_eq!(tokens, strings(&["今天", "天氣", "天", "天氣"]));
    let mut rest = text;
    for token in &tokens {
        assert!(!get_entries(&dictionary, Index::Traditional, token).is_empty());
        let at = rest.find(token.as_str()).unwrap();
        rest = &rest[at + token.len()..];
    }
}

#[test]
fn match_keys_takes_the_window_it_is_given() {
    let dictionary = with_traditional(&[("ABC", &[1]), ("AB", &[2]), ("C", &[3])]);
    let index = dictionary.index(Index::Traditional);
    let text = Characters { text: "ABC" };
    assert_eq!(text.len(), 3);
    assert_eq!(text.key(1, 2), "BC");
    assert_eq!(match_keys(&text, index, 3), strings(&["ABC"]));
    assert_eq!(match_keys(&text, index, 2), strings(&["AB", "C"]));
    assert_eq!(match_keys(&text, index, 1), strings(&["C"]));
    assert_eq!(match_keys(&text, index, 0), Vec::<String>::new());
}

#[test]
fn words_form_keys_with_the_compound_delimiter() {
    let words = strings(&["people", "around", "the", "world"]);
    let units = Words { words: &words };
    assert_eq!(units.len(), 4);
    assert_eq!(units.key(0, 1), "people");
    assert_eq!(units.key(1, 3), "around%20the%20world");
    assert_eq!(join_words(&words, 0, 4, "%20"), "people%20around%20the%20world");
    assert_eq!(join_words(&words, 2, 0, "%20"), "");
    assert_eq!(join_words(&words, 2, 2, ", "), "the, world");
}

#[test]
fn split_spaces_keeps_empty_pieces() {
    assert_eq!(split_spaces(""), strings(&[""]));
    assert_eq!(split_spaces(" "), strings(&["", ""]));
    assert_eq!(split_spaces("to run"), strings(&["to", "run"]));
    assert_eq!(split_spaces("a  b "), strings(&["a", "", "b", ""]));
    assert_eq!(split_spaces("nǐ hǎo"), strings(&["nǐ", "hǎo"]));
}

#[test]
fn dedup_drops_immediate_repeats_only() {
    assert_eq!(dedup(&Vec::new()), Vec::<u32>::new());
    assert_eq!(dedup(&vec![7]), vec![7]);
    assert_eq!(dedup(&vec![1, 1, 2, 1]), vec![1, 2, 1]);
    assert_eq!(dedup(&vec![3, 3, 3, 4, 4, 3]), vec![3, 4, 3]);
}

#[test]
fn english_prefers_the_longest_compound() {
    let dictionary = with_english(&[("to%20run", &[1]), ("to", &[2]), ("run", &[3])]);
    assert_eq!(ids(&query_by_english(&dictionary, "to run")), vec![1]);
    assert_eq!(ids(&query_by_english(&dictionary, "run to run to")), vec![3, 1, 2]);
}

#[test]
fn english_tries_at_most_four_words() {
    assert_eq!(ENGLISH_MAX_LENGTH, 4);
    let dictionary = with_english(&[("a%20b%20c%20d%20e", &[1])]);
    assert_eq!(ids(&query_by_english(&dictionary, "a b c d e")), Vec::<u32>::new());
    let dictionary = with_english(&[("a%20b%20c%20d", &[1]), ("e", &[2]), ("a", &[3])]);
    assert_eq!(ids(&query_by_english(&dictionary, "a b c d e")), vec![1, 2]);
}

#[test]
fn english_leaves_unmatched_words_out() {
    let dictionary = with_english(&[("people", &[1]), ("world", &[2])]);
    assert_eq!(ids(&query_by_english(&dictionary, "people around the world")), vec![1, 2]);
    assert_eq!(ids(&query_by_english(&dictionary, "nothing here")), Vec::<u32>::new());
}

#[test]
fn english_joins_words_with_the_delimiter_and_not_a_space() {
    let dictionary = with_english(&[("to run", &[1])]);
    assert_eq!(ids(&query_by_english(&dictionary, "to run")), Vec::<u32>::new());
    assert_eq!(ids(&get_entries(&dictionary, Index::English, "to run")), vec![1]);
}

#[test]
fn english_keeps_the_order_of_the_index_within_a_key() {
    let dictionary = with_english(&[("test", &[5, 2, 9]), ("exam", &[9, 1])]);
    assert_eq!(ids(&query_by_english(&dictionary, "exam test")), vec![9, 1, 5, 2, 9]);
}

#[test]
fn english_drops_an_entry_that_repeats_the_one_before() {
    let dictionary = with_english(&[("test", &[4]), ("exam", &[4, 5]), ("quiz", &[5, 5, 6])]);
    assert_eq!(ids(&query_by_english(&dictionary, "test test")), vec![4]);
    assert_eq!(ids(&query_by_english(&dictionary, "test exam")), vec![4, 5]);
    assert_eq!(ids(&query_by_english(&dictionary, "exam exam")), vec![4, 5, 4, 5]);
    assert_eq!(ids(&query_by_english(&dictionary, "quiz")), vec![5, 6]);
}

#[test]
fn english_finds_nothing_for_the_empty_text_and_for_a_space() {
    let dictionary = with_english(&[("", &[1]), (" ", &[2]), ("%20", &[3])]);
    assert_eq!(ids(&query_by_english(&dictionary, "")), Vec::<u32>::new());
    assert_eq!(ids(&query_by_english(&dictionary, " ")), Vec::<u32>::new());
    assert_eq!(ids(&match_english(&dictionary, "")), Vec::<u32>::new());
    assert_eq!(ids(&match_english(&dictionary, " ")), Vec::<u32>::new());
    assert_eq!(ids(&match_english(&dictionary, "  ")), vec![3, 1]);
}

#[test]
fn english_ignores_case() {
    let dictionary = with_english(&[("watermelon", &[1]), ("to%20run", &[2])]);
    let lower = ids(&query_by_english(&dictionary, "watermelon"));
    let upper = ids(&query_by_english(&dictionary, "Watermelon"));
    assert_eq!(lower, vec![1]);
    assert_eq!(lower, upper);
    assert_eq!(ids(&query_by_english(&dictionary, "TO Run")), vec![2]);
    assert_eq!(ids(&match_english(&dictionary, "Watermelon")), Vec::<u32>::new());
}

#[test]
fn english_round_trip() {
    let mut melon = entry(1, "西瓜", "西瓜");
    melon.english = strings(&["watermelon"]);
    let mut run = entry(2, "執行", "执行");
    run.english = strings(&["to implement", "to run"]);
    let dictionary = Dictionary::new(
        Vec::new(),
        Vec::new(),
        Vec::new(),
        keys(&[("watermelon", &[1]), ("to%20run", &[2])]),
        vec![melon, run],
    )
    .unwrap();
    let found = query_by_english(&dictionary, "watermelon");
    assert_eq!(found.len(), 1);
    assert_eq!(found[0].simplified, "西瓜");
    assert_eq!(found[0].english, strings(&["watermelon"]));
    let found = query_by_english(&dictionary, "to run");
    assert_eq!(found.len(), 1);
    assert_eq!(found[0].traditional, "執行");
}

#[test]
fn english_one_compound_finds_no_entry_twice() {
    let dictionary = with_english(&[("test", &[3, 1, 2]), ("test%20test", &[7, 8])]);
    for text in ["test", "test test"] {
        let found = ids(&query_by_english(&dictionary, text));
        let mut seen = Vec::new();
        for id in found {
            assert!(!seen.contains(&id));
            seen.push(id);
        }
    }
    assert_eq!(ids(&query_by_english(&dictionary, "test")), vec![3, 1, 2]);
    assert_eq!(ids(&query_by_english(&dictionary, "test test")), vec![7, 8]);
}

#[test]
fn pinyin_looks_each_word_up() {
    let dictionary = with_pinyin(&[("nihao", &[1]), ("beijing", &[2, 3]), ("ni", &[4])]);
    assert_eq!(ids(&query_by_pinyin(&dictionary, "nihao beijing")), vec![1, 2, 3]);
    assert_eq!(ids(&query_by_pinyin(&dictionary, "beijing xx nihao")), vec![2, 3, 1]);
    assert_eq!(ids(&query_by_pinyin(&dictionary, "ni hao")), vec![4]);
    assert_eq!(ids(&query_by_pinyin(&dictionary, "nihao nihao")), vec![1, 1]);
    assert_eq!(ids(&query_by_pinyin(&dictionary, "Beijing")), vec![2, 3]);
    assert_eq!(ids(&lookup_pinyin(&dictionary, "Beijing")), Vec::<u32>::new());
}

#[test]
fn pinyin_does_not_look_empty_words_up() {
    let dictionary = with_pinyin(&[("", &[1]), ("a", &[2]), ("b", &[3])]);
    assert_eq!(ids(&query_by_pinyin(&dictionary, "")), Vec::<u32>::new());
    assert_eq!(ids(&query_by_pinyin(&dictionary, " ")), Vec::<u32>::new());
    assert_eq!(ids(&query_by_pinyin(&dictionary, "a  b ")), vec![2, 3]);
    assert_eq!(ids(&get_entries(&dictionary, Index::Pinyin, "")), vec![1]);
}

#[test]
fn pinyin_finds_one_word_under_every_way_of_writing_its_tones() {
    let hello = entry(8, "你好", "你好");
    let dictionary = Dictionary::new(
        Vec::new(),
        Vec::new(),
        keys(&[("nihao", &[8]), ("ni3hao3", &[8]), ("nǐhǎo", &[8])]),
        Vec::new(),
        vec![hello],
    )
    .unwrap();
    for text in ["nihao", "ni3hao3", "nǐhǎo"] {
        let found = query_by_pinyin(&dictionary, text);
        assert_eq!(found.len(), 1);
        assert_eq!(found[0].traditional, "你好");
        assert_eq!(found[0].word_id, 8);
    }
    for text in ["nihao", "ni3hao3", "nǐhǎo"] {
        let found = query(&dictionary, text).unwrap();
        assert_eq!(found.len(), 1);
        assert_eq!(found[0].traditional, "你好");
    }
}

#[test]
fn exact_lookup_does_not_segment() {
    let dictionary = Dictionary::new(
        keys(&[("今天", &[1]), ("天氣", &[2])]),
        keys(&[("今天", &[1]), ("天气", &[2])]),
        Vec::new(),
        Vec::new(),
        numbered(2),
    )
    .unwrap();
    assert_eq!(tokenize(&dictionary, "今天天气"), strings(&["今天", "天气"]));
    assert_eq!(ids(&query_by_chinese(&dictionary, "今天天气")), vec![1, 2]);
    assert_eq!(ids(&query_by_simplified(&dictionary, "今天天气")), Vec::<u32>::new());
    assert_eq!(ids(&query_by_simplified(&dictionary, "天气")), vec![2]);
    assert_eq!(tokenize(&dictionary, "今天天氣"), strings(&["今天", "天氣"]));
    assert_eq!(ids(&query_by_traditional(&dictionary, "今天天氣")), Vec::<u32>::new());
    assert_eq!(ids(&query_by_traditional(&dictionary, "天氣")), vec![2]);
    assert_eq!(ids(&query_by_traditional(&dictionary, "天气")), Vec::<u32>::new());
}

#[test]
fn chinese_query_searches_the_index_of_the_script() {
    let dictionary = Dictionary::new(
        keys(&[("繁體字", &[1]), ("字", &[3])]),
        keys(&[("繁体字", &[2]), ("字", &[4])]),
        Vec::new(),
        Vec::new(),
        numbered(4),
    )
    .unwrap();
    assert_eq!(ids(&query_by_chinese(&dictionary, "繁體字")), vec![1]);
    assert_eq!(ids(&query_by_chinese(&dictionary, "繁体字")), vec![2]);
    assert_eq!(ids(&query_by_chinese(&dictionary, "繁体字字")), vec![2, 4]);
    assert_eq!(ids(&query_by_characters(&dictionary, Index::Traditional, "繁体字")), vec![3]);
    assert_eq!(ids(&query_by_characters(&dictionary, Index::Simplified, "繁體字")), vec![4]);
}

#[test]
fn query_goes_where_the_classification_says() {
    let dictionary = Dictionary::new(
        keys(&[("x", &[1])]),
        keys(&[("x", &[2])]),
        keys(&[("x", &[3])]),
        keys(&[("x", &[4])]),
        numbered(4),
    )
    .unwrap();
    let english = query_classified(&dictionary, ClassificationResult::EN, "X").unwrap();
    assert_eq!(ids(&english), vec![4]);
    let pinyin = query_classified(&dictionary, ClassificationResult::PY, "X").unwrap();
    assert_eq!(ids(&pinyin), vec![3]);
    let chinese = query_classified(&dictionary, ClassificationResult::ZH, "x").unwrap();
    assert_eq!(ids(&chinese), vec![1]);
    assert!(query_classified(&dictionary, ClassificationResult::ZH, "X").unwrap().is_empty());
    assert!(query_classified(&dictionary, ClassificationResult::UN, "x").is_none());
}

#[test]
fn query_gives_the_same_answer_twice() {
    let dictionary = Dictionary::new(
        keys(&[("今天", &[1]), ("天氣", &[2])]),
        keys(&[("今天", &[1]), ("天气", &[2])]),
        keys(&[("jintian", &[1])]),
        keys(&[("today", &[1]), ("weather", &[2])]),
        numbered(2),
    )
    .unwrap();
    for text in ["today weather", "jintian", "今天天气", "今天天氣", "", "?"] {
        let first = query(&dictionary, text).map(|found| ids(&found));
        let second = query(&dictionary, text).map(|found| ids(&found));
        assert_eq!(first, second);
    }
    assert_eq!(query(&dictionary, "今天天气").map(|found| ids(&found)), Some(vec![1, 2]));
}

#[test]
fn get_entries_follows_the_index() {
    let dictionary = with_traditional(&[("A", &[3, 1, 2]), ("B", &[])]);
    assert_eq!(ids(&get_entries(&dictionary, Index::Traditional, "A")), vec![3, 1, 2]);
    assert_eq!(ids(&get_entries(&dictionary, Index::Traditional, "B")), Vec::<u32>::new());
    assert_eq!(ids(&get_entries(&dictionary, Index::Traditional, "C")), Vec::<u32>::new());
    assert_eq!(ids(&get_entries(&dictionary, Index::Simplified, "A")), Vec::<u32>::new());
    let found = get_entries(&dictionary, Index::Traditional, "A");
    assert_eq!(found[0].traditional, "t3");
    assert_eq!(found[2].simplified, "s2");
}

#[test]
fn a_later_key_and_a_later_entry_replace_an_earlier_one() {
    let dictionary = Dictionary::new(
        keys(&[("A", &[1]), ("B", &[2]), ("A", &[2, 1])]),
        Vec::new(),
        Vec::new(),
        Vec::new(),
        vec![entry(1, "old", "old"), entry(2, "two", "two"), entry(1, "new", "new")],
    )
    .unwrap();
    let found = get_entries(&dictionary, Index::Traditional, "A");
    assert_eq!(ids(&found), vec![2, 1]);
    assert_eq!(found[1].traditional, "new");
}

#[test]
fn a_dictionary_with_a_dangling_identifier_is_refused() {
    let refused = Dictionary::new(
        keys(&[("A", &[1]), ("B", &[2, 7, 8])]),
        keys(&[("C", &[9])]),
        Vec::new(),
        Vec::new(),
        numbered(2),
    );
    assert_eq!(refused.err(), Some(DictionaryError::MissingEntry(7)));
    let refused = Dictionary::new(
        keys(&[("A", &[1])]),
        keys(&[("B", &[2])]),
        keys(&[("c", &[1, 2])]),
        keys(&[("d", &[2, 3])]),
        numbered(2),
    );
    assert_eq!(refused.err(), Some(DictionaryError::MissingEntry(3)));
    let refused = Dictionary::new(
        Vec::new(),
        keys(&[("B", &[5])]),
        keys(&[("c", &[6])]),
        Vec::new(),
        Vec::new(),
    );
    assert_eq!(refused.err(), Some(DictionaryError::MissingEntry(5)));
    let empty = Dictionary::new(Vec::new(), Vec::new(), Vec::new(), Vec::new(), Vec::new());
    assert!(empty.is_ok());
}

#[test]
fn resolve_finds_the_entry_or_names_the_identifier() {
    let dictionary = with_traditional(&[("A", &[1])]);
    assert_eq!(dictionary.resolve(4).unwrap().traditional, "t4");
    assert_eq!(dictionary.resolve(10).err(), Some(DictionaryError::MissingEntry(10)));
    let found = dictionary.resolve_all(&vec![2, 1, 2]).unwrap();
    assert_eq!(ids(&found), vec![2, 1, 2]);
    let missing = dictionary.resolve_all(&vec![2, 11, 1, 12]);
    assert_eq!(missing.err(), Some(DictionaryError::MissingEntry(11)));
    let listed = dictionary.lookup_all(Index::Traditional, &strings(&["A", "B", "A"]));
    assert_eq!(listed, vec![1, 1]);
}
