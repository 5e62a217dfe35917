use wiki_ngram::keys::{compare_keys, starts_with_bytes};
use wiki_ngram::segment::trim_chars;
use wiki_ngram::text::{append_str, chars_of, string_of};

#[test]
fn chars_and_strings_round_trip() {
    let v = chars_of("日本語 text");
    assert_eq!(v.len(), 8);
    assert_eq!(v[0], '日');
    assert_eq!(string_of(&v), "日本語 text");
    assert_eq!(string_of(&[]), "");
}

#[test]
fn append_adds_at_the_end() {
    let mut s = String::from("東京");
    append_str(&mut s, " は");
    assert_eq!(s, "東京 は");
}

#[test]
fn trim_removes_unicode_white_space_at_both_ends() {
    let v: Vec<char> = "\u{3000} a b \u{A0}\n".chars().collect();
    assert_eq!(trim_chars(&v), vec!['a', ' ', 'b']);
    let blank: Vec<char> = " \t ".chars().collect();
    assert!(trim_chars(&blank).is_empty());
}

#[test]
fn key_comparison_follows_code_points() {
    let a: Vec<char> = "ab".chars().collect();
    let b: Vec<char> = "abc".chars().collect();
    let c: Vec<char> = "日".chars().collect();
    assert!(compare_keys(&a, &b) < 0);
    assert!(compare_keys(&b, &a) > 0);
    assert_eq!(compare_keys(&a, &a), 0);
    assert!(compare_keys(&b, &c) < 0);
}

#[test]
fn byte_prefix_check() {
    assert!(starts_with_bytes(b"abc", b"ab"));
    assert!(starts_with_bytes(b"abc", b""));
    assert!(!starts_with_bytes(b"ab", b"abc"));
    assert!(!starts_with_bytes(b"abc", b"b"));
}
