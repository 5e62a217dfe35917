use wiki_ngram::ngram::{extract_ngrams_from_tokens, filter_ngrams, prune_ngrams, NgramCounts};
use wiki_ngram::tokenize::process_article;

fn toks(s: &str) -> Vec<String> {
    s.split(' ').map(|t| t.to_string()).collect()
}

fn log_score(count: usize) -> u64 {
    ((count as f64).ln() * 1000.0) as u64
}

#[test]
fn bigrams_of_one_sentence() {
    let mut counts = NgramCounts::new();
    extract_ngrams_from_tokens(&toks("東京 は 日本 の 首都 です"), 2, &mut counts);
    assert_eq!(counts.len(), 5);
    for key in ["東京 は", "は 日本", "日本 の", "の 首都", "首都 です"] {
        assert_eq!(counts.get(key), 1);
    }
    assert_eq!(counts.get("東京 は 日本"), 0);
}

#[test]
fn trigrams_are_counted_up_to_the_maximum() {
    let mut counts = NgramCounts::new();
    extract_ngrams_from_tokens(&toks("a b c d"), 3, &mut counts);
    assert_eq!(counts.len(), 5);
    assert_eq!(counts.get("a b c"), 1);
    assert_eq!(counts.get("b c d"), 1);
    assert_eq!(counts.get("a b c d"), 0);
}

#[test]
fn repeated_windows_add_up() {
    let mut counts = NgramCounts::new();
    extract_ngrams_from_tokens(&toks("a b a b"), 2, &mut counts);
    assert_eq!(counts.get("a b"), 2);
    assert_eq!(counts.get("b a"), 1);
    extract_ngrams_from_tokens(&toks("a b"), 2, &mut counts);
    assert_eq!(counts.get("a b"), 3);
}

#[test]
fn large_maximum_is_capped_by_the_sentence() {
    let mut counts = NgramCounts::new();
    extract_ngrams_from_tokens(&toks("x y z"), usize::MAX, &mut counts);
    assert_eq!(counts.len(), 3);
    assert_eq!(counts.get("x y z"), 1);
}

#[test]
fn fewer_than_two_tokens_give_nothing() {
    let mut counts = NgramCounts::new();
    extract_ngrams_from_tokens(&[], 3, &mut counts);
    assert_eq!(counts.len(), 0);
    extract_ngrams_from_tokens(&toks("東京"), 3, &mut counts);
    assert_eq!(counts.len(), 0);
}

#[test]
fn maximum_below_two_gives_nothing() {
    let mut counts = NgramCounts::new();
    extract_ngrams_from_tokens(&toks("a b c"), 1, &mut counts);
    assert_eq!(counts.len(), 0);
}

#[test]
fn prune_removes_hapaxes_over_the_threshold() {
    let mut counts = NgramCounts::new();
    extract_ngrams_from_tokens(&toks("a b a b c"), 2, &mut counts);
    assert_eq!(counts.len(), 3);
    prune_ngrams(&mut counts, 2);
    assert_eq!(counts.len(), 1);
    assert_eq!(counts.get("a b"), 2);
    assert_eq!(counts.get("b a"), 0);
    assert_eq!(counts.get("b c"), 0);
}

#[test]
fn prune_leaves_a_small_table_alone() {
    let mut counts = NgramCounts::new();
    extract_ngrams_from_tokens(&toks("a b a b c"), 2, &mut counts);
    prune_ngrams(&mut counts, 3);
    assert_eq!(counts.len(), 3);
    assert_eq!(counts.get("b c"), 1);
}

#[test]
fn pruned_key_starts_again_from_one() {
    let mut counts = NgramCounts::new();
    extract_ngrams_from_tokens(&toks("a b a b c"), 2, &mut counts);
    prune_ngrams(&mut counts, 0);
    extract_ngrams_from_tokens(&toks("b c"), 2, &mut counts);
    assert_eq!(counts.get("b c"), 1);
}

#[test]
fn filter_is_strict_and_sorted() {
    let mut counts = NgramCounts::new();
    extract_ngrams_from_tokens(&toks("c d c d c d a b a b"), 2, &mut counts);
    // "c d": 3, "d c": 2, "d a": 1, "a b": 2, "b a": 1
    let out = filter_ngrams(&counts, 2, log_score);
    assert_eq!(out, vec![("c d".to_string(), log_score(3))]);
    let out = filter_ngrams(&counts, 1, log_score);
    let keys: Vec<&str> = out.iter().map(|e| e.0.as_str()).collect();
    assert_eq!(keys, vec!["a b", "c d", "d c"]);
    assert_eq!(out[0].1, 693);
    assert_eq!(out[1].1, 1098);
}

#[test]
fn filter_orders_keys_by_bytes() {
    let mut counts = NgramCounts::new();
    extract_ngrams_from_tokens(&toks("日本 の"), 2, &mut counts);
    extract_ngrams_from_tokens(&toks("Z a"), 2, &mut counts);
    extract_ngrams_from_tokens(&toks("é x"), 2, &mut counts);
    let out = filter_ngrams(&counts, 0, log_score);
    let keys: Vec<&str> = out.iter().map(|e| e.0.as_str()).collect();
    let mut sorted = keys.clone();
    sorted.sort_by(|a, b| a.as_bytes().cmp(b.as_bytes()));
    assert_eq!(keys, sorted);
    assert_eq!(keys, vec!["Z a", "é x", "日本 の"]);
}

#[test]
fn log_scores_rise_with_counts() {
    let mut last = 0;
    for c in 1..2000usize {
        let s = log_score(c);
        assert!(last <= s);
        last = s;
    }
    assert_eq!(log_score(1), 0);
    assert_eq!(log_score(10), 2302);
}

#[test]
fn article_counts_each_sentence_as_split() {
    let mut counts = NgramCounts::new();
    let split = |s: String| s.split(' ').map(|t| t.to_string()).collect::<Vec<String>>();
    process_article("東京 は 日本 の。日本 の 首都！ab", split, 2, &mut counts);
    assert_eq!(counts.get("日本 の"), 2);
    assert_eq!(counts.get("東京 は"), 1);
    assert_eq!(counts.get("の 首都"), 1);
    assert_eq!(counts.len(), 4);
}

#[test]
fn article_without_sentences_changes_nothing() {
    let mut counts = NgramCounts::new();
    process_article("ab。\n", |s: String| vec![s.clone(), s], 2, &mut counts);
    assert_eq!(counts.len(), 0);
}
