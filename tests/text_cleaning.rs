use wiki_ngram::markup::clean_wiki_markup;
use wiki_ngram::segment::split_sentences;

#[test]
fn clean_drops_templates_and_link_delimiters() {
    let out = clean_wiki_markup("{{infobox|x}}Hello [[target|display]] world");
    assert_eq!(out, "Hello targetdisplay world");
}

#[test]
fn clean_handles_nested_templates() {
    assert_eq!(clean_wiki_markup("a{{b{{c}}d}}e"), "ae");
}

#[test]
fn clean_keeps_single_braces_and_pipes_outside_links() {
    assert_eq!(clean_wiki_markup("a{b}c|d"), "a{b}c|d");
}

#[test]
fn clean_closing_template_never_goes_below_zero() {
    assert_eq!(clean_wiki_markup("}}abc{{x}}def"), "abcdef");
}

#[test]
fn clean_drops_link_text_inside_template() {
    assert_eq!(clean_wiki_markup("{{a [[b]] c}}d"), "d");
    assert_eq!(clean_wiki_markup("a{{t [[L]] u}}b"), "ab");
}

#[test]
fn clean_keeps_lone_brackets_inside_link() {
    assert_eq!(clean_wiki_markup("[[a]b]]"), "a]b");
    assert_eq!(clean_wiki_markup("[[a[b]]"), "a[b");
}

#[test]
fn clean_is_idempotent_on_plain_text() {
    let x = "東京は日本の首都です。 plain text | with a pipe";
    let once = clean_wiki_markup(x);
    assert_eq!(once, x);
    assert_eq!(clean_wiki_markup(&once), once);
}

#[test]
fn clean_empty_text() {
    assert_eq!(clean_wiki_markup(""), "");
}

#[test]
fn split_on_terminators_and_drop_short_pieces() {
    let s = split_sentences("東京は日本の首都です。今日は晴れ！\nab.明日は雨？");
    assert_eq!(s, vec!["東京は日本の首都です", "今日は晴れ", "明日は雨"]);
}

#[test]
fn split_trims_white_space() {
    let s = split_sentences(" \u{3000}テスト文です\t。  ");
    assert_eq!(s, vec!["テスト文です"]);
}

#[test]
fn split_counts_characters_not_bytes() {
    assert_eq!(split_sentences("東京。abc"), vec!["abc"]);
}

#[test]
fn split_empty_text_gives_no_sentence() {
    assert!(split_sentences("").is_empty());
    assert!(split_sentences("。。\n..").is_empty());
}
