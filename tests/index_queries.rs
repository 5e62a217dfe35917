use wiki_ngram::index::{build_index, IndexError, NgramIndex};
use wiki_ngram::ngram::{extract_ngrams_from_tokens, filter_ngrams, NgramCounts};

fn entries(list: &[(&str, u64)]) -> Vec<(String, u64)> {
    list.iter().map(|(k, v)| (k.to_string(), *v)).collect()
}

fn open(list: &[(&str, u64)]) -> NgramIndex {
    let bytes = build_index(&entries(list)).expect("sorted input builds");
    NgramIndex::open(bytes).expect("sealed blob opens")
}

fn log_score(count: usize) -> u64 {
    ((count as f64).ln() * 1000.0) as u64
}

#[test]
fn end_to_end_bigram_scores() {
    let tokens: Vec<String> = "東京 は 日本 の 首都 です".split(' ').map(String::from).collect();
    let mut counts = NgramCounts::new();
    extract_ngrams_from_tokens(&tokens, 2, &mut counts);
    let scored = filter_ngrams(&counts, 0, log_score);
    assert_eq!(scored.len(), 5);
    let index = NgramIndex::open(build_index(&scored).unwrap()).unwrap();
    assert_eq!(index.get("日本 の".as_bytes()), Some(0));
    assert_eq!(index.get("首都 です".as_bytes()), Some(0));
    assert_eq!(index.get("日本".as_bytes()), None);
}

#[test]
fn round_trip_returns_every_value() {
    let list = [("a", 1), ("ab", 20), ("b", 300), ("こんにちは 世界", 800)];
    let index = open(&list);
    for (k, v) in list {
        assert_eq!(index.get(k.as_bytes()), Some(v));
    }
    assert_eq!(index.get(b"c"), None);
}

#[test]
fn out_of_order_keys_fail_construction() {
    assert_eq!(build_index(&entries(&[("b", 1), ("a", 2)])), Err(IndexError::OutOfOrder));
}

#[test]
fn duplicate_keys_fail_construction() {
    assert_eq!(build_index(&entries(&[("a", 1), ("a", 2)])), Err(IndexError::OutOfOrder));
}

#[test]
fn empty_index_builds_and_opens() {
    let index = NgramIndex::open(build_index(&[]).unwrap()).unwrap();
    assert!(index.entries().is_empty());
    assert_eq!(index.get(b""), None);
}

#[test]
fn prefix_search_stops_at_the_first_other_key() {
    let index = open(&[("P", 1), ("Px", 2), ("Q", 3)]);
    let found = index.predictive_search(b"P");
    assert_eq!(found, vec![(b"P".to_vec(), 1), (b"Px".to_vec(), 2)]);
}

#[test]
fn prefix_search_for_a_phrase_start() {
    let index = open(&[("今日 は", 1000), ("今日 も", 500), ("明日 は", 700)]);
    let found = index.predictive_search("今日 ".as_bytes());
    let keys: Vec<String> = found.iter().map(|e| String::from_utf8(e.0.clone()).unwrap()).collect();
    assert_eq!(keys, vec!["今日 は", "今日 も"]);
    assert!(index.predictive_search("昨日".as_bytes()).is_empty());
}

#[test]
fn cursor_starts_at_the_first_key_not_below() {
    let index = open(&[("b", 1), ("d", 2)]);
    assert_eq!(index.first_from(b"a"), Some((b"b".to_vec(), 1)));
    assert_eq!(index.first_from(b"c"), Some((b"d".to_vec(), 2)));
    assert_eq!(index.first_from(b"e"), None);
}

#[test]
fn iteration_is_in_key_order() {
    let index = open(&[("a", 3), ("b", 2), ("c", 1)]);
    assert_eq!(
        index.entries(),
        vec![(b"a".to_vec(), 3), (b"b".to_vec(), 2), (b"c".to_vec(), 1)]
    );
}

#[test]
fn foreign_bytes_do_not_open() {
    assert!(matches!(NgramIndex::open(vec![1, 2, 3]), Err(IndexError::Corrupt)));
}

#[test]
fn first_entries_stop_after_the_count() {
    let index = open(&[("a", 3), ("b", 2), ("c", 1)]);
    assert_eq!(index.len(), 3);
    assert_eq!(index.first_entries(2), vec![(b"a".to_vec(), 3), (b"b".to_vec(), 2)]);
    assert_eq!(index.first_entries(10).len(), 3);
    assert!(index.first_entries(0).is_empty());
}

#[test]
fn other_format_versions_do_not_open() {
    let mut bytes = build_index(&entries(&[("a", 1)])).unwrap();
    for b in bytes.iter_mut().take(8) {
        *b = 0;
    }
    assert!(matches!(NgramIndex::open(bytes), Err(IndexError::Corrupt)));
}

#[test]
fn changed_bytes_fail_the_checksum() {
    let mut bytes = build_index(&entries(&[("ab", 1), ("cd", 2)])).unwrap();
    bytes[9] ^= 0x01;
    assert!(matches!(NgramIndex::open(bytes), Err(IndexError::Corrupt)));
}
