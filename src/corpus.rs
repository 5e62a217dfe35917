use vstd::prelude::*;

use crate::markup::{clean_wiki_markup, cleaned};
use crate::text::append_str;

verus! {

/// One event of a pull parse of the corpus markup, as the reader needs it.
pub enum XmlEvent {
    /// An element opens; its name.
    Start(Vec<u8>),
    /// An element closes; its name.
    End(Vec<u8>),
    /// Text content, with entity references already resolved.
    Text(String),
    /// The end of the stream.
    Eof,
    /// The stream is malformed at this point.
    Malformed,
}

/// What the reader asks of its caller after an event.
pub enum ReaderStep {
    /// Read the next event.
    Continue,
    /// Process this article text, then read the next event.
    Article(String),
    /// Process this article text, then stop: the article cap is reached.
    LastArticle(String),
    /// Stop reading.
    Stop,
}

/// The name of the element that holds an article's text.
pub open spec fn is_text_name(name: Seq<u8>) -> bool {
    name == seq![0x74u8, 0x65u8, 0x78u8, 0x74u8]
}

fn is_text_element(name: &[u8]) -> (r: bool)
    ensures
        r == is_text_name(name@),
{
    let r = name.len() == 4 && name[0] == 0x74u8 && name[1] == 0x65u8 && name[2] == 0x78u8
        && name[3] == 0x74u8;
    proof {
        if r {
            assert(name@ =~= seq![0x74u8, 0x65u8, 0x78u8, 0x74u8]);
        }
    }
    r
}

/// How a reader `a` that takes `event` becomes `b` and answers `r`.
pub open spec fn step_taken(a: CorpusReader, event: XmlEvent, b: CorpusReader, r: ReaderStep) -> bool {
    if a.stopped() {
        r is Stop && b == a
    } else {
        match event {
            XmlEvent::Start(name) => r is Continue && if is_text_name(name@) {
                b.in_text() && b.current().len() == 0 && b.articles() == a.articles() && b.limit()
                    == a.limit() && !b.stopped()
            } else {
                b == a
            },
            XmlEvent::Text(t) => r is Continue && b.in_text() == a.in_text() && b.articles()
                == a.articles() && b.limit() == a.limit() && !b.stopped() && b.current() == if a.in_text() {
                a.current() + t@
            } else {
                a.current()
            },
            XmlEvent::End(name) => if is_text_name(name@) && a.in_text() {
                closed_text(a, b, r)
            } else {
                r is Continue && b == a
            },
            _ => r is Stop && b.stopped() && b.articles() == a.articles() && b.limit() == a.limit(),
        }
    }
}

/// How a reader `a` that closes a text-bearing element becomes `b` and
/// answers `r`.
pub open spec fn closed_text(a: CorpusReader, b: CorpusReader, r: ReaderStep) -> bool {
    let c = cleaned(a.current());
    let n = if a.articles() < usize::MAX {
        a.articles() + 1
    } else {
        a.articles()
    };
    &&& !b.in_text()
    &&& b.limit() == a.limit()
    &&& if c.len() == 0 {
        r is Continue && b.articles() == a.articles() && !b.stopped()
    } else if a.limit() is Some && a.articles() >= a.limit()->0 {
        r is Stop && b.stopped() && b.articles() == a.articles()
    } else {
        &&& b.articles() == n
        &&& match a.limit() {
            Some(l) => if n >= l {
                b.stopped() && (r matches ReaderStep::LastArticle(s) && s@ == c)
            } else {
                !b.stopped() && (r matches ReaderStep::Article(s) && s@ == c)
            },
            None => !b.stopped() && (r matches ReaderStep::Article(s) && s@ == c),
        }
    }
}

/// The state of a scan over the corpus: whether it is inside a text-bearing
/// element, the text gathered there so far, how many articles it has handed
/// out, the optional cap on that number, and whether it has stopped.
pub struct CorpusReader {
    in_text: bool,
    current: String,
    articles: usize,
    limit: Option<usize>,
    stopped: bool,
}

impl CorpusReader {
    pub closed spec fn in_text(self) -> bool {
        self.in_text
    }

    pub closed spec fn current(self) -> Seq<char> {
        self.current@
    }

    pub closed spec fn articles(self) -> nat {
        self.articles as nat
    }

    pub closed spec fn limit(self) -> Option<usize> {
        self.limit
    }

    pub closed spec fn stopped(self) -> bool {
        self.stopped
    }

    /// A reader at the start of a stream, handing out at most `limit`
    /// articles where a cap is given.
    pub fn new(limit: Option<usize>) -> (r: CorpusReader)
        ensures
            !r.in_text(),
            r.current().len() == 0,
            r.articles() == 0,
            r.limit() == limit,
            !r.stopped(),
    {
        CorpusReader { in_text: false, current: String::new(), articles: 0, limit, stopped: false }
    }

    /// The number of articles handed out so far.
    pub fn article_count(&self) -> (r: usize)
        ensures
            r == self.articles(),
    {
        self.articles
    }

    /// Takes one event and says what the caller does next.
    ///
    /// Opening a text-bearing element starts gathering afresh; text inside
    /// one is appended. Closing it hands out the gathered text, cleaned of
    /// markup, as one article, unless nothing is left of it after cleaning;
    /// the article that reaches the cap is the last, and where the cap is
    /// already reached (a cap of zero) the scan stops without handing out
    /// any. The end of the stream, and malformed input, stop the scan and keep what was handed out.
    pub fn on_event(&mut self, event: XmlEvent) -> (r: ReaderStep)
        ensures
            step_taken(*old(self), event, *final(self), r),
    {
        if self.stopped {
            return ReaderStep::Stop;
        }
        match event {
            XmlEvent::Start(name) => {
                if is_text_element(name.as_slice()) {
                    self.in_text = true;
                    self.current = String::new();
                }
                ReaderStep::Continue
            },
            XmlEvent::Text(t) => {
                if self.in_text {
                    append_str(&mut self.current, t.as_str());
                }
                ReaderStep::Continue
            },
            XmlEvent::End(name) => {
                if !(is_text_element(name.as_slice()) && self.in_text) {
                    return ReaderStep::Continue;
                }
                self.in_text = false;
                let text = clean_wiki_markup(self.current.as_str());
                if text.as_str().is_empty() {
                    return ReaderStep::Continue;
                }
                if let Some(l) = self.limit {
                    if self.articles >= l {
                        self.stopped = true;
                        return ReaderStep::Stop;
                    }
                }
                if self.articles < usize::MAX {
                    self.articles = self.articles + 1;
                }
                match self.limit {
                    Some(l) => {
                        if self.articles >= l {
                            self.stopped = true;
                            ReaderStep::LastArticle(text)
                        } else {
                            ReaderStep::Article(text)
                        }
                    },
                    None => ReaderStep::Article(text),
                }
            },
            XmlEvent::Eof | XmlEvent::Malformed => {
                self.stopped = true;
                ReaderStep::Stop
            },
        }
    }
}

} // verus!
