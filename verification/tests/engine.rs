//! End-to-end checks of the aggregation and top-K engine.

use tweet_top_words::count_map::combine_processed_tweets;
use tweet_top_words::process_tweets::corpus_fits;
use tweet_top_words::process_tweets::count_corpus;
use tweet_top_words::process_tweets::process_tweet;
use tweet_top_words::process_tweets::process_tweets;
use tweet_top_words::top_k::top_k;
use tweet_top_words::WordAndCount;

fn corpus(records: &[&str]) -> Vec<String> {
    records.iter().map(|r| String::from(*r)).collect()
}

fn get_count(m: &tweet_top_words::CountMap, token: &str) -> Option<i64> {
    m.get(&String::from(token))
}

fn pairs(entries: &[WordAndCount]) -> Vec<(String, i64)> {
    entries.iter().map(|e| (e.get_word().clone(), e.get_count())).collect()
}

#[test]
fn three_record_scenario() {
    let tweets = corpus(&["a a #x", "a #x #x", "b"]);
    let counts = count_corpus(&tweets, false);
    assert_eq!(get_count(&counts, "a"), Some(3));
    assert_eq!(get_count(&counts, "#x"), Some(3));
    assert_eq!(get_count(&counts, "b"), Some(1));
    assert_eq!(counts.num_tokens(), 3);

    let ranked = process_tweets(&tweets, false);
    let top_words = top_k(&ranked, 1, false, '#');
    assert_eq!(pairs(&top_words), vec![(String::from("a"), 3)]);
    let top_tags = top_k(&ranked, 1, true, '#');
    assert_eq!(pairs(&top_tags), vec![(String::from("#x"), 3)]);
}

#[test]
fn tie_breaks_lexicographically() {
    let tweets = corpus(&["p q"]);
    let counts = count_corpus(&tweets, false);
    assert_eq!(get_count(&counts, "p"), Some(1));
    assert_eq!(get_count(&counts, "q"), Some(1));

    let ranked = process_tweets(&tweets, false);
    let top_words = top_k(&ranked, 2, false, '#');
    assert_eq!(
        pairs(&top_words),
        vec![(String::from("p"), 1), (String::from("q"), 1)]
    );
}

#[test]
fn ranked_list_orders_by_count_then_token() {
    let tweets = corpus(&["b a", "#x #x a"]);
    let ranked = process_tweets(&tweets, false);
    assert_eq!(
        pairs(&ranked),
        vec![
            (String::from("#x"), 2),
            (String::from("a"), 2),
            (String::from("b"), 1),
        ]
    );
}

#[test]
fn empty_corpus_yields_empty_results() {
    let tweets: Vec<String> = Vec::new();
    let counts = count_corpus(&tweets, false);
    assert_eq!(counts.num_tokens(), 0);
    let ranked = process_tweets(&tweets, true);
    assert!(ranked.is_empty());
    assert!(top_k(&ranked, 10, false, '#').is_empty());
    assert!(top_k(&ranked, 10, true, '#').is_empty());
}

#[test]
fn k_zero_returns_nothing() {
    let tweets = corpus(&["a b c #d"]);
    let ranked = process_tweets(&tweets, false);
    assert!(top_k(&ranked, 0, false, '#').is_empty());
    assert!(top_k(&ranked, 0, true, '#').is_empty());
}

#[test]
fn fewer_than_k_returns_all() {
    let tweets = corpus(&["a b", "#t"]);
    let ranked = process_tweets(&tweets, false);
    let words = top_k(&ranked, 10, false, '#');
    assert_eq!(
        pairs(&words),
        vec![(String::from("a"), 1), (String::from("b"), 1)]
    );
    let tags = top_k(&ranked, 10, true, '#');
    assert_eq!(pairs(&tags), vec![(String::from("#t"), 1)]);
}

#[test]
fn sequential_and_parallel_agree() {
    let tweets = corpus(&[
        "the quick brown fox",
        "the lazy dog",
        "#tag the fox",
        "quick quick #tag",
        "",
        "dog dog dog #other",
    ]);
    let seq_ranked = process_tweets(&tweets, false);
    let par_ranked = process_tweets(&tweets, true);
    assert_eq!(pairs(&seq_ranked), pairs(&par_ranked));
}

#[test]
fn merge_matches_whole_corpus() {
    let all = corpus(&["a a b", "b c", "c a #z"]);
    let whole = count_corpus(&all, false);

    let m0 = process_tweet("a a b");
    let m1 = process_tweet("b c");
    let m2 = process_tweet("c a #z");
    let left = combine_processed_tweets(&combine_processed_tweets(&m0, &m1), &m2);
    let right = combine_processed_tweets(&m0, &combine_processed_tweets(&m1, &m2));

    for token in ["a", "b", "c", "#z"] {
        assert_eq!(get_count(&left, token), get_count(&whole, token));
        assert_eq!(get_count(&right, token), get_count(&whole, token));
    }
    assert_eq!(left.num_tokens(), whole.num_tokens());
    assert_eq!(right.num_tokens(), whole.num_tokens());
}

#[test]
fn merge_commutes() {
    let m0 = process_tweet("a a b");
    let m1 = process_tweet("b #c");
    let ab = combine_processed_tweets(&m0, &m1);
    let ba = combine_processed_tweets(&m1, &m0);
    for token in ["a", "b", "#c"] {
        assert_eq!(get_count(&ab, token), get_count(&ba, token));
    }
    assert_eq!(ab.num_tokens(), ba.num_tokens());
}

#[test]
fn global_count_matches_recount() {
    let records = ["a b a", "b c", "a #t c b"];
    let tweets = corpus(&records);
    let counts = count_corpus(&tweets, true);
    for token in ["a", "b", "c", "#t"] {
        let mut expected: i64 = 0;
        for r in &records {
            expected += r.split_whitespace().filter(|w| *w == token).count() as i64;
        }
        assert_eq!(get_count(&counts, token), Some(expected));
    }
}

#[test]
fn top_k_counts_dominate_excluded() {
    let tweets = corpus(&["x x x", "y y", "z", "#t #t"]);
    let ranked = process_tweets(&tweets, false);
    let words = top_k(&ranked, 2, false, '#');
    assert_eq!(words.len(), 2);
    let lowest_kept = words.iter().map(|e| e.get_count()).min().unwrap();
    let excluded = get_count(&count_corpus(&tweets, false), "z").unwrap();
    assert!(lowest_kept >= excluded);
}

#[test]
fn categories_share_no_token() {
    let tweets = corpus(&["#a a #b b ab #ab", "a #a"]);
    let ranked = process_tweets(&tweets, false);
    let words = top_k(&ranked, 10, false, '#');
    let tags = top_k(&ranked, 10, true, '#');
    for w in &words {
        assert!(!w.get_word().starts_with('#'));
        for t in &tags {
            assert_ne!(w.get_word(), t.get_word());
        }
    }
    for t in &tags {
        assert!(t.get_word().starts_with('#'));
    }
}

#[test]
fn custom_marker_selects_other_tags() {
    let tweets = corpus(&["@user hello @other hello"]);
    let ranked = process_tweets(&tweets, false);
    let tags = top_k(&ranked, 10, true, '@');
    assert_eq!(
        pairs(&tags),
        vec![(String::from("@other"), 1), (String::from("@user"), 1)]
    );
    let words = top_k(&ranked, 10, false, '@');
    assert_eq!(pairs(&words), vec![(String::from("hello"), 2)]);
}

#[test]
fn small_corpus_fits() {
    let tweets = corpus(&["a a a", "b"]);
    assert!(corpus_fits(&tweets));
}

#[test]
fn tie_break_orders_prefixes_first() {
    let tweets: Vec<String> = vec![String::from("ab a ac a ab ac")];
    let ranked = process_tweets(&tweets, false);
    assert_eq!(
        pairs(&ranked),
        vec![
            (String::from("a"), 2),
            (String::from("ab"), 2),
            (String::from("ac"), 2),
        ]
    );
}

#[test]
fn tie_break_uses_scalar_values_beyond_ascii() {
    let tweets: Vec<String> = vec![String::from("é a é a")];
    let ranked = process_tweets(&tweets, true);
    assert_eq!(
        pairs(&ranked),
        vec![(String::from("a"), 2), (String::from("é"), 2)]
    );
}
