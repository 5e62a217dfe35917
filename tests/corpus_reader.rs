use wiki_ngram::corpus::{CorpusReader, ReaderStep, XmlEvent};

fn start(n: &str) -> XmlEvent {
    XmlEvent::Start(n.as_bytes().to_vec())
}

fn end(n: &str) -> XmlEvent {
    XmlEvent::End(n.as_bytes().to_vec())
}

fn text(t: &str) -> XmlEvent {
    XmlEvent::Text(t.to_string())
}

fn article(step: ReaderStep) -> Option<(String, bool)> {
    match step {
        ReaderStep::Article(s) => Some((s, false)),
        ReaderStep::LastArticle(s) => Some((s, true)),
        _ => None,
    }
}

#[test]
fn text_element_yields_cleaned_article() {
    let mut r = CorpusReader::new(None);
    assert!(matches!(r.on_event(start("page")), ReaderStep::Continue));
    assert!(matches!(r.on_event(text("ignored")), ReaderStep::Continue));
    assert!(matches!(r.on_event(start("text")), ReaderStep::Continue));
    assert!(matches!(r.on_event(text("{{x}}東京は")), ReaderStep::Continue));
    assert!(matches!(r.on_event(text("[[日本]]です")), ReaderStep::Continue));
    assert_eq!(article(r.on_event(end("text"))), Some(("東京は日本です".to_string(), false)));
    assert_eq!(r.article_count(), 1);
}

#[test]
fn empty_article_is_skipped() {
    let mut r = CorpusReader::new(None);
    r.on_event(start("text"));
    r.on_event(text("{{only a template}}"));
    assert!(matches!(r.on_event(end("text")), ReaderStep::Continue));
    assert_eq!(r.article_count(), 0);
}

#[test]
fn cap_ends_the_stream_cleanly() {
    let mut r = CorpusReader::new(Some(2));
    for (i, t) in ["one", "two"].iter().enumerate() {
        r.on_event(start("text"));
        r.on_event(text(t));
        let got = article(r.on_event(end("text"))).unwrap();
        assert_eq!(got, (t.to_string(), i == 1));
    }
    assert!(matches!(r.on_event(start("text")), ReaderStep::Stop));
    assert_eq!(r.article_count(), 2);
}

#[test]
fn malformed_input_stops_and_keeps_count() {
    let mut r = CorpusReader::new(None);
    r.on_event(start("text"));
    r.on_event(text("abc"));
    assert!(article(r.on_event(end("text"))).is_some());
    assert!(matches!(r.on_event(XmlEvent::Malformed), ReaderStep::Stop));
    assert!(matches!(r.on_event(start("text")), ReaderStep::Stop));
    assert_eq!(r.article_count(), 1);
}

#[test]
fn end_of_stream_stops() {
    let mut r = CorpusReader::new(None);
    assert!(matches!(r.on_event(XmlEvent::Eof), ReaderStep::Stop));
}

#[test]
fn closing_other_elements_changes_nothing() {
    let mut r = CorpusReader::new(None);
    r.on_event(start("text"));
    r.on_event(text("abc"));
    assert!(matches!(r.on_event(end("title")), ReaderStep::Continue));
    r.on_event(text("def"));
    assert_eq!(article(r.on_event(end("text"))), Some(("abcdef".to_string(), false)));
}

#[test]
fn cap_of_zero_hands_out_nothing() {
    let mut r = CorpusReader::new(Some(0));
    r.on_event(start("text"));
    r.on_event(text("abc"));
    assert!(matches!(r.on_event(end("text")), ReaderStep::Stop));
    assert_eq!(r.article_count(), 0);
    assert!(matches!(r.on_event(start("text")), ReaderStep::Stop));
}
