//! Checks of tokenization, local counting, rendering, and the small data
//! types around the engine.

use tweet_top_words::count_map::CountMap;
use tweet_top_words::process_tweets::process_tweet;
use tweet_top_words::process_tweets::process_tweets;
use tweet_top_words::processed_tweets_output::count_to_string;
use tweet_top_words::processed_tweets_output::get_top_words_text_from_counts;
use tweet_top_words::processed_tweets_output::top_word_list_to_string;
use tweet_top_words::tokenize::tokenize;
use tweet_top_words::DataFileMetaData;
use tweet_top_words::WordAndCount;

#[test]
fn splits_on_whitespace_runs() {
    let toks = tokenize("  one two\t\tthree \r\n four  ");
    assert_eq!(toks, vec!["one", "two", "three", "four"]);
}

#[test]
fn unicode_whitespace_splits_too() {
    let toks = tokenize("a\u{3000}b\u{2003}c");
    assert_eq!(toks, vec!["a", "b", "c"]);
}

#[test]
fn empty_record_has_no_tokens() {
    assert!(tokenize("").is_empty());
    assert!(tokenize(" \t \n ").is_empty());
}

#[test]
fn tokens_are_case_sensitive() {
    let m = process_tweet("Ab ab aB Ab");
    assert_eq!(m.get(&String::from("Ab")), Some(2));
    assert_eq!(m.get(&String::from("ab")), Some(1));
    assert_eq!(m.get(&String::from("aB")), Some(1));
}

#[test]
fn local_count_counts_occurrences() {
    let m = process_tweet("a b a a c");
    assert_eq!(m.get(&String::from("a")), Some(3));
    assert_eq!(m.get(&String::from("b")), Some(1));
    assert_eq!(m.get(&String::from("c")), Some(1));
    assert_eq!(m.get(&String::from("d")), None);
    assert_eq!(m.num_tokens(), 3);
    assert_eq!(m.get_total(), 5);
}

#[test]
fn fresh_map_is_empty() {
    let m = CountMap::new();
    assert_eq!(m.num_tokens(), 0);
    assert_eq!(m.get_total(), 0);
    assert_eq!(m.get(&String::from("a")), None);
}

#[test]
fn add_count_accumulates() {
    let mut m = CountMap::new();
    m.add_count(&String::from("tok"), 2);
    m.add_count(&String::from("tok"), 3);
    m.add_count(&String::from("other"), 1);
    assert_eq!(m.get(&String::from("tok")), Some(5));
    assert_eq!(m.get(&String::from("other")), Some(1));
    assert_eq!(m.get_total(), 6);
}

#[test]
fn word_and_count_accessors() {
    let mut e = WordAndCount::new("word", 4);
    assert_eq!(e.get_word().as_str(), "word");
    assert_eq!(e.get_count(), 4);
    e.increment_count();
    assert_eq!(e.get_count(), 5);
}

#[test]
fn renders_counts_in_decimal() {
    assert_eq!(count_to_string(0).as_str(), "0");
    assert_eq!(count_to_string(9).as_str(), "9");
    assert_eq!(count_to_string(10).as_str(), "10");
    assert_eq!(count_to_string(907).as_str(), "907");
    assert_eq!(count_to_string(1_000_000).as_str(), "1000000");
    assert_eq!(
        count_to_string(i64::MAX).as_str(),
        "9223372036854775807"
    );
}

#[test]
fn renders_lines_with_crlf() {
    let list = vec![WordAndCount::new("a", 3), WordAndCount::new("b", 1)];
    assert_eq!(top_word_list_to_string(&list).as_str(), "a 3\r\nb 1");
}

#[test]
fn empty_list_renders_empty() {
    let list: Vec<WordAndCount> = Vec::new();
    assert_eq!(top_word_list_to_string(&list).as_str(), "");
}

#[test]
fn report_shows_both_categories() {
    let tweets: Vec<String> = ["a a #x", "a #x #x", "b"]
        .iter()
        .map(|r| String::from(*r))
        .collect();
    let ranked = process_tweets(&tweets, false);
    let text = get_top_words_text_from_counts(&ranked);
    assert_eq!(
        text.as_str(),
        "Top words:\r\na 3\r\nb 1\r\n\r\nTop hashtags:\r\n#x 3"
    );
}

#[test]
fn metadata_keeps_its_values() {
    let df = DataFileMetaData::new(
        "corpus1.csv",
        "0123456789abcdef0123456789abcdef",
        "https://example.org/corpus1.csv?download=1",
    );
    assert_eq!(df.get_file_name(), "corpus1.csv");
    assert_eq!(df.get_md5_digest(), "0123456789abcdef0123456789abcdef");
    assert_eq!(df.get_url(), "https://example.org/corpus1.csv?download=1");
}

#[test]
fn file_path_prefixes_data_dir() {
    let df = DataFileMetaData::new("corpus1.csv", "d", "u");
    assert_eq!(df.get_file_path().as_str(), "data/corpus1.csv");
}
