use vstd::prelude::*;

use crate::ngram::{
    extract_ngrams_from_tokens, lemma_count_fits, ngram_hits, sat_add, token_views, NgramCounts,
};
use crate::segment::{sentences, split_sentences};

verus! {

/// How many times `k` occurs among the n-grams of width 2 to `upto` of the
/// token lists `tl`, one list per sentence.
pub open spec fn article_hits(tl: Seq<Seq<Seq<char>>>, upto: nat, k: Seq<char>) -> nat
    decreases tl.len(),
{
    if tl.len() == 0 {
        0
    } else {
        article_hits(tl.drop_last(), upto, k) + ngram_hits(tl.last(), upto, k)
    }
}

/// `toks` are the surfaces of the tokens that `tokenize` handed back for a
/// string holding `sentence`.
pub open spec fn tokens_for<F: Fn(String) -> Vec<String>>(
    tokenize: F,
    sentence: Seq<char>,
    toks: Seq<Seq<char>>,
) -> bool {
    exists|s: String, r: Vec<String>|
        #![trigger tokenize.ensures((s,), r)]
        s@ == sentence && tokenize.ensures((s,), r) && toks == token_views(r@)
}

/// `tl` holds, for each sentence of `ss` in order, the surfaces of the tokens
/// that `tokenize` handed back for it.
pub open spec fn tokenized_by<F: Fn(String) -> Vec<String>>(
    tokenize: F,
    ss: Seq<Seq<char>>,
    tl: Seq<Seq<Seq<char>>>,
) -> bool {
    &&& tl.len() == ss.len()
    &&& forall|i: int| 0 <= i < ss.len() ==> #[trigger] tokens_for(tokenize, ss[i], tl[i])
}

/// Counts the n-grams of each sentence of cleaned article text, as
/// `tokenize` splits it into surface tokens: each count grows by the
/// occurrences of its key among the n-grams of every sentence, held at
/// `usize::MAX`. Text without a sentence leaves the table as it was.
pub fn process_article<F: Fn(String) -> Vec<String>>(
    text: &str,
    tokenize: F,
    max_ngram: usize,
    ngram_counts: &mut NgramCounts,
)
    requires
        old(ngram_counts).wf(),
        forall|s: String| #[trigger] tokenize.requires((s,)),
    ensures
        final(ngram_counts).wf(),
        exists|tl: Seq<Seq<Seq<char>>>|
            #[trigger] tokenized_by(tokenize, sentences(text@), tl) && forall|k: Seq<char>|
                #[trigger] final(ngram_counts).count(k) == sat_add(
                    old(ngram_counts).count(k),
                    article_hits(tl, max_ngram as nat, k),
                ),
        forall|k: Seq<char>| #[trigger] final(ngram_counts).count(k) >= old(ngram_counts).count(k),
        sentences(text@).len() == 0 ==> *final(ngram_counts) == *old(ngram_counts),
{
    let parts = split_sentences(text);
    let ghost ss = sentences(text@);
    let ghost start = *ngram_counts;
    let ghost mut tl: Seq<Seq<Seq<char>>> = Seq::empty();
    proof {
        assert(ss.take(0) =~= Seq::<Seq<char>>::empty());
        assert forall|k: Seq<char>| #[trigger]
            ngram_counts.count(k) == sat_add(start.count(k), article_hits(tl, max_ngram as nat, k)) by {
            lemma_count_fits(start, k);
        }
    }
    let mut i: usize = 0;
    while i < parts.len()
        invariant
            i <= parts@.len(),
            parts.deep_view() == ss,
            ngram_counts.wf(),
            forall|s: String| #[trigger] tokenize.requires((s,)),
            tokenized_by(tokenize, ss.take(i as int), tl),
            forall|k: Seq<char>| #[trigger]
                ngram_counts.count(k) == sat_add(start.count(k), article_hits(tl, max_ngram as nat, k)),
            i == 0 ==> *ngram_counts == start,
        decreases parts@.len() - i,
    {
        let sentence = parts[i].clone();
        let ghost sg = sentence;
        assert(sg@ == ss[i as int]);
        let tokens = tokenize(sentence);
        let ghost before = *ngram_counts;
        let ghost old_tl = tl;
        extract_ngrams_from_tokens(tokens.as_slice(), max_ngram, ngram_counts);
        proof {
            tl = tl.push(token_views(tokens@));
            assert(tl.drop_last() =~= old_tl);
            let t = ss.take(i + 1);
            assert(tokens_for(tokenize, ss[i as int], tl[i as int])) by {
                assert(sg@ == ss[i as int] && tokenize.ensures((sg,), tokens) && tl[i as int]
                    == token_views(tokens@));
            }
            assert forall|j: int| 0 <= j < t.len() implies #[trigger] tokens_for(
                tokenize,
                t[j],
                tl[j],
            ) by {
                if j < i {
                    assert(t[j] == ss.take(i as int)[j]);
                    assert(tl[j] == old_tl[j]);
                    assert(tokens_for(tokenize, ss.take(i as int)[j], old_tl[j]));
                } else {
                    assert(t[j] == ss[i as int]);
                }
            }
            assert(tl.len() == t.len());
            assert(tokenized_by(tokenize, t, tl));
            assert forall|k: Seq<char>| #[trigger]
                ngram_counts.count(k) == sat_add(start.count(k), article_hits(tl, max_ngram as nat, k)) by {
                lemma_count_fits(start, k);
                assert(before.count(k) == sat_add(
                    start.count(k),
                    article_hits(old_tl, max_ngram as nat, k),
                ));
            }
        }
        i += 1;
    }
    proof {
        assert(ss.take(parts@.len() as int) =~= ss);
        assert forall|k: Seq<char>| #[trigger] ngram_counts.count(k) >= start.count(k) by {
            lemma_count_fits(start, k);
        }
        assert(tokenized_by(tokenize, ss, tl));
    }
}

} // verus!
