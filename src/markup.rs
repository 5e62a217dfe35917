use vstd::prelude::*;

use crate::text::{chars_of, string_of};

verus! {

/// What the scan emits for `s` when it starts with template depth `depth`
/// and with a link span open or not.
///
/// A doubled `{` opens a template and a doubled `}` closes one (never below
/// zero); a doubled `[` opens a link span and a doubled `]` closes it; the
/// delimiters themselves are dropped. While the depth is above zero every
/// character is dropped. Inside a link every `|` is dropped too, so only the
/// rest of the link's text is kept. Everything else passes through.
pub open spec fn clean_from(s: Seq<char>, depth: nat, in_link: bool) -> Seq<char>
    decreases s.len(),
{
    if s.len() == 0 {
        Seq::empty()
    } else {
        let c = s[0];
        let doubled = s.len() >= 2 && s[1] == c;
        if c == '{' && doubled {
            clean_from(s.subrange(2, s.len() as int), depth + 1, in_link)
        } else if c == '}' && doubled {
            clean_from(
                s.subrange(2, s.len() as int),
                if depth > 0 { (depth - 1) as nat } else { 0 },
                in_link,
            )
        } else if c == '[' && doubled {
            clean_from(s.subrange(2, s.len() as int), depth, true)
        } else if c == ']' && doubled {
            clean_from(s.subrange(2, s.len() as int), depth, false)
        } else if c == '|' && in_link {
            clean_from(s.drop_first(), depth, in_link)
        } else if depth == 0 {
            seq![c] + clean_from(s.drop_first(), depth, in_link)
        } else {
            clean_from(s.drop_first(), depth, in_link)
        }
    }
}

/// The cleaned text of `s`: the scan from its start, outside any markup.
pub open spec fn cleaned(s: Seq<char>) -> Seq<char> {
    clean_from(s, 0, false)
}

/// `s` holds no template or link delimiter: no character among `{`, `}`,
/// `[`, `]` is directly followed by the same character.
pub open spec fn has_no_markup(s: Seq<char>) -> bool {
    forall|i: int|
        0 <= i < s.len() - 1 ==> !(#[trigger] s[i] == s[i + 1] && (s[i] == '{' || s[i] == '}'
            || s[i] == '[' || s[i] == ']'))
}

proof fn lemma_plain_text_unchanged(s: Seq<char>)
    requires
        has_no_markup(s),
    ensures
        cleaned(s) == s,
    decreases s.len(),
{
    if s.len() > 0 {
        let t = s.drop_first();
        assert forall|i: int| 0 <= i < t.len() - 1 implies !(#[trigger] t[i] == t[i + 1] && (
        t[i] == '{' || t[i] == '}' || t[i] == '[' || t[i] == ']')) by {
            assert(t[i] == s[i + 1] && t[i + 1] == s[i + 2]);
        }
        lemma_plain_text_unchanged(t);
        assert(seq![s[0]] + t =~= s);
    }
}

/// Cleaning text that holds no template or link markup leaves it as it is,
/// so cleaning it a second time changes nothing.
pub proof fn lemma_clean_idempotent_on_plain_text(s: Seq<char>)
    requires
        has_no_markup(s),
    ensures
        cleaned(s) == s,
        cleaned(cleaned(s)) == cleaned(s),
{
    lemma_plain_text_unchanged(s);
}

/// Strips template blocks and link delimiters from article text in one
/// left-to-right scan, keeping the display text of links.
pub fn clean_wiki_markup(text: &str) -> (r: String)
    ensures
        r@ == cleaned(text@),
{
    let s = chars_of(text);
    let n = s.len();
    let mut out: Vec<char> = Vec::new();
    let mut depth: usize = 0;
    let mut in_link = false;
    let mut i: usize = 0;
    assert(s@.subrange(0, n as int) =~= s@);
    while i < n
        invariant
            n == s.len(),
            i <= n,
            depth <= i,
            out@ + clean_from(s@.subrange(i as int, n as int), depth as nat, in_link) == cleaned(
                s@,
            ),
        decreases n - i,
    {
        let ghost rest = s@.subrange(i as int, n as int);
        let c = s[i];
        let doubled = i + 1 < n && s[i + 1] == c;
        proof {
            assert(rest[0] == c);
            if i + 1 < n {
                assert(rest[1] == s@[i + 1]);
                assert(rest.subrange(2, rest.len() as int) =~= s@.subrange(i + 2, n as int));
            }
            assert(rest.drop_first() =~= s@.subrange(i + 1, n as int));
        }
        if c == '{' && doubled {
            depth += 1;
            i += 2;
        } else if c == '}' && doubled {
            if depth > 0 {
                depth -= 1;
            }
            i += 2;
        } else if c == '[' && doubled {
            in_link = true;
            i += 2;
        } else if c == ']' && doubled {
            in_link = false;
            i += 2;
        } else if c == '|' && in_link {
            i += 1;
        } else {
            if depth == 0 {
                let ghost before = out@;
                out.push(c);
                assert(out@ + clean_from(s@.subrange(i + 1, n as int), depth as nat, in_link)
                    =~= before + (seq![c] + clean_from(
                    s@.subrange(i + 1, n as int),
                    depth as nat,
                    in_link,
                )));
            }
            i += 1;
        }
    }
    assert(s@.subrange(n as int, n as int) =~= Seq::<char>::empty());
    assert(out@ + Seq::<char>::empty() =~= out@);
    string_of(out.as_slice())
}

} // verus!
