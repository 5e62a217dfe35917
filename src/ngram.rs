use vstd::prelude::*;

use vstd::utf8::encode_utf8;

use crate::keys::{
    bytes_lt, compare_keys, key_lt, lemma_key_lt_irreflexive, lemma_key_lt_transitive,
};
use crate::text::{chars_of, string_of};
use crate::utf8_order::lemma_encoding_keeps_order;

verus! {

/// The character sequences of a token list.
pub open spec fn token_views(ts: Seq<String>) -> Seq<Seq<char>> {
    ts.map_values(|t: String| t@)
}

/// The key of a window of tokens: the tokens joined by single spaces.
pub open spec fn join_tokens(ts: Seq<Seq<char>>) -> Seq<char>
    decreases ts.len(),
{
    if ts.len() == 0 {
        Seq::empty()
    } else if ts.len() == 1 {
        ts[0]
    } else {
        join_tokens(ts.drop_last()) + seq![' '] + ts.last()
    }
}

/// How many of the windows of width `n` that start before position `m` have
/// key `k`.
pub open spec fn window_hits(ts: Seq<Seq<char>>, n: nat, m: nat, k: Seq<char>) -> nat
    decreases m,
{
    if m == 0 {
        0
    } else {
        window_hits(ts, n, (m - 1) as nat, k) + if join_tokens(
            ts.subrange(m - 1, m - 1 + n),
        ) == k {
            1nat
        } else {
            0nat
        }
    }
}

/// The number of windows of width `n` over `len` tokens.
pub open spec fn num_windows(len: nat, n: nat) -> nat {
    if n <= len {
        (len - n + 1) as nat
    } else {
        0
    }
}

/// How many times `k` occurs among the n-grams of `ts`, for every width `n`
/// with `2 <= n <= upto`.
pub open spec fn ngram_hits(ts: Seq<Seq<char>>, upto: nat, k: Seq<char>) -> nat
    decreases upto,
{
    if upto < 2 {
        0
    } else {
        ngram_hits(ts, (upto - 1) as nat, k) + window_hits(ts, upto, num_windows(ts.len(), upto), k)
    }
}

/// `a + b`, held at `usize::MAX`.
pub open spec fn sat_add(a: nat, b: nat) -> nat {
    if a + b > usize::MAX {
        usize::MAX as nat
    } else {
        a + b
    }
}

/// The keys of `es` rise strictly.
pub open spec fn strictly_ascending(es: Seq<(Seq<char>, usize)>) -> bool {
    forall|i: int, j: int| 0 <= i < j < es.len() ==> key_lt(#[trigger] es[i].0, #[trigger] es[j].0)
}

/// The count that `es` holds for `k`, zero where it holds none.
pub open spec fn count_in(es: Seq<(Seq<char>, usize)>, k: Seq<char>) -> nat
    decreases es.len(),
{
    if es.len() == 0 {
        0
    } else if es.last().0 == k {
        es.last().1 as nat
    } else {
        count_in(es.drop_last(), k)
    }
}

proof fn lemma_count_at(es: Seq<(Seq<char>, usize)>, i: int)
    requires
        strictly_ascending(es),
        0 <= i < es.len(),
    ensures
        count_in(es, es[i].0) == es[i].1,
    decreases es.len(),
{
    if i != es.len() - 1 {
        assert(key_lt(es[i].0, es[es.len() - 1].0));
        lemma_key_lt_irreflexive(es[i].0);
        let d = es.drop_last();
        assert(d[i] == es[i]);
        assert forall|a: int, b: int| 0 <= a < b < d.len() implies key_lt(
            #[trigger] d[a].0,
            #[trigger] d[b].0,
        ) by {
            assert(key_lt(es[a].0, es[b].0));
        }
        lemma_count_at(d, i);
    }
}

proof fn lemma_count_absent(es: Seq<(Seq<char>, usize)>, k: Seq<char>)
    requires
        forall|i: int| 0 <= i < es.len() ==> es[i].0 != k,
    ensures
        count_in(es, k) == 0,
    decreases es.len(),
{
    if es.len() > 0 {
        let d = es.drop_last();
        assert forall|i: int| 0 <= i < d.len() implies d[i].0 != k by {
            assert(d[i] == es[i]);
        }
        lemma_count_absent(d, k);
    }
}

proof fn lemma_count_cases(es: Seq<(Seq<char>, usize)>, k: Seq<char>)
    ensures
        (exists|p: int| 0 <= p < es.len() && es[p].0 == k && count_in(es, k) == es[p].1) || (
        count_in(es, k) == 0 && forall|p: int| 0 <= p < es.len() ==> es[p].0 != k),
    decreases es.len(),
{
    if es.len() > 0 {
        let d = es.drop_last();
        lemma_count_cases(d, k);
        if es.last().0 == k {
            assert(es[es.len() - 1].0 == k);
        } else if exists|p: int| 0 <= p < d.len() && d[p].0 == k && count_in(d, k) == d[p].1 {
            let p = choose|p: int| 0 <= p < d.len() && d[p].0 == k && count_in(d, k) == d[p].1;
            assert(es[p] == d[p]);
        } else {
            assert forall|p: int| 0 <= p < es.len() implies es[p].0 != k by {
                if p < d.len() {
                    assert(es[p] == d[p]);
                }
            }
        }
    }
}

/// A count never exceeds `usize::MAX`.
pub proof fn lemma_count_fits(c: NgramCounts, k: Seq<char>)
    ensures
        c.count(k) <= usize::MAX,
{
    lemma_count_cases(c.entries_view(), k);
}

proof fn lemma_sat_step(a: nat, h: nat)
    ensures
        sat_add(sat_add(a, h), 1) == sat_add(a, h + 1),
{
}

proof fn lemma_hits_capped(ts: Seq<Seq<char>>, upto: nat, k: Seq<char>)
    requires
        upto >= ts.len(),
    ensures
        ngram_hits(ts, upto, k) == ngram_hits(ts, ts.len(), k),
    decreases upto,
{
    if upto > ts.len() {
        lemma_hits_capped(ts, (upto - 1) as nat, k);
    }
}

/// A frequency table of n-gram keys. Entries are kept in ascending key order,
/// one per key, each with a count of at least one.
pub struct NgramCounts {
    entries: Vec<(Vec<char>, usize)>,
}

impl NgramCounts {
    /// The entries, as keys and counts, in key order.
    pub closed spec fn entries_view(self) -> Seq<(Seq<char>, usize)> {
        self.entries@.map_values(|e: (Vec<char>, usize)| (e.0@, e.1))
    }

    pub open spec fn wf(self) -> bool {
        &&& strictly_ascending(self.entries_view())
        &&& forall|i: int| 0 <= i < self.entries_view().len() ==> #[trigger] self.entries_view()[i].1 >= 1
    }

    /// The count of `k`: zero where the table holds no entry for it.
    pub open spec fn count(self, k: Seq<char>) -> nat {
        count_in(self.entries_view(), k)
    }

    /// The number of distinct keys.
    pub open spec fn size(self) -> nat {
        self.entries_view().len()
    }

    /// An empty table.
    pub fn new() -> (r: NgramCounts)
        ensures
            r.wf(),
            r.size() == 0,
            forall|k: Seq<char>| r.count(k) == 0,
    {
        let r = NgramCounts { entries: Vec::new() };
        assert(r.entries_view().len() == 0);
        r
    }

    /// The number of distinct keys.
    pub fn len(&self) -> (r: usize)
        ensures
            r == self.size(),
    {
        self.entries.len()
    }

    /// Where `key` stands in the table: `Ok` with its position, or `Err` with
    /// the position at which it would be inserted to keep the key order.
    fn search(&self, key: &[char]) -> (r: Result<usize, usize>)
        requires
            self.wf(),
        ensures
            r is Ok ==> r->Ok_0 < self.size() && self.entries_view()[r->Ok_0 as int].0 == key@,
            r is Err ==> r->Err_0 <= self.size() && (forall|i: int|
                0 <= i < r->Err_0 ==> key_lt(#[trigger] self.entries_view()[i].0, key@)) && (
            forall|i: int|
                r->Err_0 <= i < self.size() ==> key_lt(key@, #[trigger] self.entries_view()[i].0)),
    {
        let ghost es = self.entries_view();
        let mut lo: usize = 0;
        let mut hi: usize = self.entries.len();
        while lo < hi
            invariant
                es == self.entries_view(),
                self.wf(),
                lo <= hi <= es.len(),
                forall|i: int| 0 <= i < lo ==> key_lt(#[trigger] es[i].0, key@),
                forall|i: int| hi <= i < es.len() ==> key_lt(key@, #[trigger] es[i].0),
            decreases hi - lo,
        {
            let mid = lo + (hi - lo) / 2;
            let c = compare_keys(self.entries[mid].0.as_slice(), key);
            assert(es[mid as int].0 == self.entries@[mid as int].0@);
            if c == 0 {
                return Ok(mid);
            } else if c < 0 {
                proof {
                    assert forall|i: int| 0 <= i <= mid implies key_lt(#[trigger] es[i].0, key@) by {
                        if i < mid {
                            lemma_key_lt_transitive(es[i].0, es[mid as int].0, key@);
                        }
                    }
                }
                lo = mid + 1;
            } else {
                proof {
                    assert forall|i: int| mid <= i < es.len() implies key_lt(key@, #[trigger] es[i].0) by {
                        if i > mid {
                            lemma_key_lt_transitive(key@, es[mid as int].0, es[i].0);
                        }
                    }
                }
                hi = mid;
            }
        }
        Err(lo)
    }

    /// The count of `key`, zero where the table holds none.
    pub fn get(&self, key: &str) -> (r: usize)
        requires
            self.wf(),
        ensures
            r == self.count(key@),
    {
        let k = chars_of(key);
        let ghost es = self.entries_view();
        match self.search(k.as_slice()) {
            Ok(i) => {
                proof {
                    assert(es[i as int] == (self.entries@[i as int].0@, self.entries@[i as int].1));
                    lemma_count_at(es, i as int);
                }
                self.entries[i].1
            },
            Err(_) => {
                proof {
                    lemma_key_lt_irreflexive(k@);
                    lemma_count_absent(es, k@);
                }
                0
            },
        }
    }

    /// Adds one to the count of `key`, held at `usize::MAX`.
    fn increment(&mut self, key: Vec<char>)
        requires
            old(self).wf(),
        ensures
            final(self).wf(),
            forall|k: Seq<char>|
                #[trigger] final(self).count(k) == if k == key@ {
                    sat_add(old(self).count(k), 1)
                } else {
                    old(self).count(k)
                },
    {
        let ghost es = self.entries_view();
        match self.search(key.as_slice()) {
            Ok(mid) => {
                let old_count = self.entries[mid].1;
                let new_count = if old_count < usize::MAX {
                    old_count + 1
                } else {
                    old_count
                };
                self.entries.set(mid, (key, new_count));
                proof {
                    let ns = self.entries_view();
                    assert(ns =~= es.update(mid as int, (key@, new_count)));
                    assert forall|i: int| 0 <= i < ns.len() implies #[trigger] ns[i].1 >= 1 by {
                        if i != mid {
                            assert(ns[i] == es[i]);
                        }
                    }
                    lemma_count_at(es, mid as int);
                    assert forall|i: int, j: int| 0 <= i < j < ns.len() implies key_lt(
                        #[trigger] ns[i].0,
                        #[trigger] ns[j].0,
                    ) by {
                        assert(key_lt(es[i].0, es[j].0));
                    }
                    assert forall|k: Seq<char>| #[trigger]
                        count_in(ns, k) == if k == key@ {
                            sat_add(count_in(es, k), 1)
                        } else {
                            count_in(es, k)
                        } by {
                        if k == key@ {
                            lemma_count_at(ns, mid as int);
                        } else if exists|i: int| 0 <= i < es.len() && es[i].0 == k {
                            let i = choose|i: int| 0 <= i < es.len() && es[i].0 == k;
                            lemma_count_at(es, i);
                            lemma_count_at(ns, i);
                        } else {
                            lemma_count_absent(es, k);
                            assert forall|i: int| 0 <= i < ns.len() implies ns[i].0 != k by {
                                if i != mid {
                                    assert(ns[i] == es[i]);
                                }
                            }
                            lemma_count_absent(ns, k);
                        }
                    }
                }
            },
            Err(lo) => {
                let ghost kv = key@;
                self.entries.insert(lo, (key, 1));
                proof {
                    let ns = self.entries_view();
                    assert(ns =~= es.insert(lo as int, (kv, 1usize)));
                    assert forall|i: int| 0 <= i < ns.len() implies #[trigger] ns[i].1 >= 1 by {
                        if i < lo {
                            assert(ns[i] == es[i]);
                        } else if i > lo {
                            assert(ns[i] == es[i - 1]);
                        }
                    }
                    assert forall|i: int, j: int| 0 <= i < j < ns.len() implies key_lt(
                        #[trigger] ns[i].0,
                        #[trigger] ns[j].0,
                    ) by {
                        if j < lo {
                            assert(key_lt(es[i].0, es[j].0));
                        } else if i > lo {
                            assert(key_lt(es[i - 1].0, es[j - 1].0));
                        } else if i < lo && j > lo {
                            lemma_key_lt_transitive(es[i].0, kv, es[j - 1].0);
                        }
                    }
                    assert forall|k: Seq<char>| #[trigger]
                        count_in(ns, k) == if k == kv {
                            sat_add(count_in(es, k), 1)
                        } else {
                            count_in(es, k)
                        } by {
                        if k == kv {
                            lemma_count_at(ns, lo as int);
                            assert forall|i: int| 0 <= i < es.len() implies es[i].0 != k by {
                                lemma_key_lt_irreflexive(k);
                            }
                            lemma_count_absent(es, k);
                        } else if exists|i: int| 0 <= i < es.len() && es[i].0 == k {
                            let i = choose|i: int| 0 <= i < es.len() && es[i].0 == k;
                            lemma_count_at(es, i);
                            if i < lo {
                                lemma_count_at(ns, i);
                            } else {
                                assert(ns[i + 1] == es[i]);
                                lemma_count_at(ns, i + 1);
                            }
                        } else {
                            assert forall|i: int| 0 <= i < ns.len() implies ns[i].0 != k by {
                                if i > lo {
                                    assert(ns[i] == es[i - 1]);
                                } else if i < lo {
                                    assert(ns[i] == es[i]);
                                }
                            }
                            lemma_count_absent(es, k);
                            lemma_count_absent(ns, k);
                        }
                    }
                }
            },
        }
    }
}

/// The key of the window of `width` tokens that starts at `start`.
fn join_window(tokens: &[String], start: usize, width: usize) -> (r: Vec<char>)
    requires
        1 <= width,
        start + width <= tokens@.len(),
    ensures
        r@ == join_tokens(token_views(tokens@).subrange(start as int, start + width)),
{
    let ghost tv = token_views(tokens@);
    let mut key = chars_of(tokens[start].as_str());
    assert(tv.subrange(start as int, start + 1) =~= seq![tv[start as int]]);
    let end = start + width;
    let mut j: usize = start + 1;
    while j < end
        invariant
            tv == token_views(tokens@),
            end == start + width,
            start < j <= start + width,
            start + width <= tokens@.len(),
            key@ == join_tokens(tv.subrange(start as int, j as int)),
        decreases end - j,
    {
        let mut t = chars_of(tokens[j].as_str());
        key.push(' ');
        key.append(&mut t);
        let ghost w = tv.subrange(start as int, j + 1);
        assert(w.drop_last() =~= tv.subrange(start as int, j as int));
        assert(w.last() == tokens@[j as int]@);
        j += 1;
    }
    key
}

/// Counts every n-gram of `tokens` of each width from 2 up to `max_ngram`:
/// each window of that many consecutive tokens, joined by single spaces,
/// adds one to the count of its key. Counts are held at `usize::MAX`.
/// Fewer than two tokens give no n-gram and leave the table as it was.
pub fn extract_ngrams_from_tokens(tokens: &[String], max_ngram: usize, ngram_counts: &mut NgramCounts)
    requires
        old(ngram_counts).wf(),
    ensures
        final(ngram_counts).wf(),
        forall|k: Seq<char>|
            #[trigger] final(ngram_counts).count(k) == sat_add(
                old(ngram_counts).count(k),
                ngram_hits(token_views(tokens@), max_ngram as nat, k),
            ),
        forall|k: Seq<char>| #[trigger] final(ngram_counts).count(k) >= old(ngram_counts).count(k),
        tokens@.len() < 2 ==> *final(ngram_counts) == *old(ngram_counts),
{
    let ghost tv = token_views(tokens@);
    let ghost start = *ngram_counts;
    proof {
        assert forall|k: Seq<char>| #[trigger] start.count(k) <= usize::MAX by {
            lemma_count_cases(start.entries_view(), k);
        }
    }
    if tokens.len() < 2 || max_ngram < 2 {
        proof {
            assert forall|k: Seq<char>| #[trigger]
                ngram_counts.count(k) == sat_add(
                    start.count(k),
                    ngram_hits(tv, max_ngram as nat, k),
                ) by {
                lemma_count_cases(start.entries_view(), k);
                if max_ngram >= tv.len() {
                    lemma_hits_capped(tv, max_ngram as nat, k);
                }
            }
        }
        return ;
    }
    let top: usize = if max_ngram < tokens.len() {
        max_ngram
    } else {
        tokens.len()
    };
    proof {
        assert forall|k: Seq<char>| #[trigger]
            ngram_counts.count(k) == sat_add(start.count(k), ngram_hits(tv, 1, k)) by {
            lemma_count_cases(start.entries_view(), k);
        }
    }
    let mut w: usize = 0;
    while w < top - 1
        invariant
            tv == token_views(tokens@),
            2 <= top <= tokens@.len(),
            top <= max_ngram,
            w <= top - 1,
            ngram_counts.wf(),
            forall|k: Seq<char>| #[trigger]
                ngram_counts.count(k) == sat_add(start.count(k), ngram_hits(tv, (w + 1) as nat, k)),
        decreases top - 1 - w,
    {
        let n = w + 2;
        let m = tokens.len() - n + 1;
        let mut i: usize = 0;
        assert forall|k: Seq<char>| #[trigger]
            ngram_counts.count(k) == sat_add(
                start.count(k),
                ngram_hits(tv, (n - 1) as nat, k) + window_hits(tv, n as nat, i as nat, k),
            ) by {}
        while i < m
            invariant
                tv == token_views(tokens@),
                2 <= n <= tokens@.len(),
                m == tokens@.len() - n + 1,
                i <= m,
                ngram_counts.wf(),
                forall|k: Seq<char>| #[trigger]
                    ngram_counts.count(k) == sat_add(
                        start.count(k),
                        ngram_hits(tv, (n - 1) as nat, k) + window_hits(tv, n as nat, i as nat, k),
                    ),
            decreases m - i,
        {
            let key = join_window(tokens, i, n);
            let ghost kv = key@;
            let ghost before = *ngram_counts;
            ngram_counts.increment(key);
            proof {
                assert forall|k: Seq<char>| #[trigger]
                    ngram_counts.count(k) == sat_add(
                        start.count(k),
                        ngram_hits(tv, (n - 1) as nat, k) + window_hits(tv, n as nat, (i + 1) as nat, k),
                    ) by {
                    assert(window_hits(tv, n as nat, (i + 1) as nat, k) == window_hits(
                        tv,
                        n as nat,
                        i as nat,
                        k,
                    ) + if join_tokens(tv.subrange(i as int, i + n)) == k {
                        1nat
                    } else {
                        0nat
                    });
                    lemma_sat_step(
                        start.count(k),
                        ngram_hits(tv, (n - 1) as nat, k) + window_hits(tv, n as nat, i as nat, k),
                    );
                }
            }
            i += 1;
        }
        assert forall|k: Seq<char>| #[trigger]
            ngram_counts.count(k) == sat_add(start.count(k), ngram_hits(tv, (w + 2) as nat, k)) by {
            assert(num_windows(tv.len(), n as nat) == m);
        }
        w += 1;
    }
    proof {
        assert forall|k: Seq<char>| #[trigger]
            ngram_counts.count(k) == sat_add(start.count(k), ngram_hits(tv, max_ngram as nat, k)) by {
            if max_ngram >= tv.len() {
                lemma_hits_capped(tv, max_ngram as nat, k);
            }
        }
    }
}

/// Removes every entry whose count is exactly one, but only where the table
/// holds more than `threshold_size` keys; otherwise leaves it as it is. This
/// bounds memory at the cost of exact counts: a key removed here starts again
/// from one if it occurs later.
pub fn prune_ngrams(ngram_counts: &mut NgramCounts, threshold_size: usize)
    requires
        old(ngram_counts).wf(),
    ensures
        final(ngram_counts).wf(),
        old(ngram_counts).size() <= threshold_size ==> *final(ngram_counts) == *old(ngram_counts),
        old(ngram_counts).size() > threshold_size ==> forall|k: Seq<char>| #[trigger]
            final(ngram_counts).count(k) == if old(ngram_counts).count(k) == 1 {
                0
            } else {
                old(ngram_counts).count(k)
            },
        old(ngram_counts).size() > threshold_size ==> forall|k: Seq<char>| #[trigger]
            final(ngram_counts).count(k) != 1,
        forall|k: Seq<char>| #[trigger]
            final(ngram_counts).count(k) == old(ngram_counts).count(k) || (old(
                ngram_counts,
            ).count(k) == 1 && final(ngram_counts).count(k) == 0),
{
    if ngram_counts.entries.len() <= threshold_size {
        return ;
    }
    let ghost es = ngram_counts.entries_view();
    let mut all: Vec<(Vec<char>, usize)> = Vec::new();
    std::mem::swap(&mut ngram_counts.entries, &mut all);
    let ghost src = all@;
    let mut kept: Vec<(Vec<char>, usize)> = Vec::new();
    let ghost mut idx: Seq<int> = Seq::empty();
    for e in it: all.into_iter()
        invariant
            it.seq() == src,
            es == src.map_values(|e: (Vec<char>, usize)| (e.0@, e.1)),
            strictly_ascending(es),
            forall|p: int| 0 <= p < es.len() ==> #[trigger] es[p].1 >= 1,
            idx.len() == kept@.len(),
            forall|j: int|
                0 <= j < idx.len() ==> 0 <= #[trigger] idx[j] < it.index() && (kept@[j].0@, kept@[j].1)
                    == es[idx[j]] && kept@[j].1 > 1,
            forall|a: int, b: int| 0 <= a < b < idx.len() ==> #[trigger] idx[a] < #[trigger] idx[b],
            forall|p: int|
                0 <= p < it.index() && #[trigger] es[p].1 > 1 ==> exists|j: int|
                    0 <= j < idx.len() && idx[j] == p,
    {
        let ghost p = it.index();
        let ghost old_idx = idx;
        assert(es[p as int] == (e.0@, e.1));
        if e.1 > 1 {
            kept.push(e);
            proof {
                idx = idx.push(p as int);
                assert(idx[idx.len() - 1] == p);
            }
        }
        proof {
            assert forall|q: int| 0 <= q < p + 1 && #[trigger] es[q].1 > 1 implies exists|j: int|
                0 <= j < idx.len() && idx[j] == q by {
                if q < p {
                    let j = choose|j: int| 0 <= j < old_idx.len() && old_idx[j] == q;
                    assert(idx[j] == q);
                } else {
                    assert(idx[idx.len() - 1] == q);
                }
            }
        }
    }
    ngram_counts.entries = kept;
    proof {
        let ns = ngram_counts.entries_view();
        assert forall|j: int| 0 <= j < ns.len() implies ns[j] == es[idx[j]] by {}
        assert forall|a: int, b: int| 0 <= a < b < ns.len() implies key_lt(
            #[trigger] ns[a].0,
            #[trigger] ns[b].0,
        ) by {
            assert(idx[a] < idx[b]);
            assert(key_lt(es[idx[a]].0, es[idx[b]].0));
        }
        assert forall|j: int| 0 <= j < ns.len() implies #[trigger] ns[j].1 >= 1 by {
            assert(ns[j] == es[idx[j]]);
        }
        assert forall|k: Seq<char>| #[trigger]
            count_in(ns, k) == if count_in(es, k) == 1 {
                0
            } else {
                count_in(es, k)
            } by {
            lemma_count_cases(es, k);
            lemma_count_cases(ns, k);
            if exists|p: int| 0 <= p < es.len() && es[p].0 == k && count_in(es, k) == es[p].1 {
                let p = choose|p: int|
                    0 <= p < es.len() && es[p].0 == k && count_in(es, k) == es[p].1;
                if es[p].1 > 1 {
                    let j = choose|j: int| 0 <= j < idx.len() && idx[j] == p;
                    assert(ns[j] == es[p]);
                    lemma_count_at(ns, j);
                } else {
                    assert forall|j: int| 0 <= j < ns.len() implies ns[j].0 != k by {
                        assert(ns[j] == es[idx[j]]);
                        if idx[j] != p && ns[j].0 == k {
                            lemma_key_lt_irreflexive(k);
                            if idx[j] < p {
                                assert(key_lt(es[idx[j]].0, es[p].0));
                            } else {
                                assert(key_lt(es[p].0, es[idx[j]].0));
                            }
                        }
                    }
                    lemma_count_absent(ns, k);
                }
            } else {
                assert forall|j: int| 0 <= j < ns.len() implies ns[j].0 != k by {
                    assert(ns[j] == es[idx[j]]);
                }
                lemma_count_absent(ns, k);
            }
        }
    }
}

/// The entries whose count exceeds `min_frequency`, in ascending key order,
/// each key with the score that `score` gives its count.
pub fn filter_ngrams<F: Fn(usize) -> u64>(
    ngram_counts: &NgramCounts,
    min_frequency: usize,
    score: F,
) -> (r: Vec<(String, u64)>)
    requires
        ngram_counts.wf(),
        forall|c: usize| c > min_frequency ==> #[trigger] score.requires((c,)),
    ensures
        forall|i: int, j: int|
            0 <= i < j < r@.len() ==> key_lt(#[trigger] r@[i].0@, #[trigger] r@[j].0@),
        forall|i: int, j: int|
            0 <= i < j < r@.len() ==> bytes_lt(
                encode_utf8(#[trigger] r@[i].0@),
                encode_utf8(#[trigger] r@[j].0@),
            ),
        forall|k: Seq<char>| #[trigger]
            ngram_counts.count(k) > min_frequency ==> exists|i: int|
                0 <= i < r@.len() && r@[i].0@ == k,
        forall|i: int|
            0 <= i < r@.len() ==> ngram_counts.count(#[trigger] r@[i].0@) > min_frequency
                && score.ensures((ngram_counts.count(r@[i].0@) as usize,), r@[i].1),
{
    let ghost es = ngram_counts.entries_view();
    let mut out: Vec<(String, u64)> = Vec::new();
    let ghost mut idx: Seq<int> = Seq::empty();
    let mut i: usize = 0;
    while i < ngram_counts.entries.len()
        invariant
            es == ngram_counts.entries_view(),
            ngram_counts.wf(),
            forall|c: usize| c > min_frequency ==> #[trigger] score.requires((c,)),
            i <= es.len(),
            idx.len() == out@.len(),
            forall|j: int|
                0 <= j < idx.len() ==> 0 <= #[trigger] idx[j] < i && out@[j].0@ == es[idx[j]].0
                    && es[idx[j]].1 > min_frequency && score.ensures((es[idx[j]].1,), out@[j].1),
            forall|a: int, b: int| 0 <= a < b < idx.len() ==> #[trigger] idx[a] < #[trigger] idx[b],
            forall|p: int|
                0 <= p < i && #[trigger] es[p].1 > min_frequency ==> exists|j: int|
                    0 <= j < idx.len() && idx[j] == p,
        decreases es.len() - i,
    {
        let count = ngram_counts.entries[i].1;
        let ghost old_idx = idx;
        assert(es[i as int] == (ngram_counts.entries@[i as int].0@, count));
        if count > min_frequency {
            let v = score(count);
            let key = string_of(ngram_counts.entries[i].0.as_slice());
            out.push((key, v));
            proof {
                idx = idx.push(i as int);
                assert(idx[idx.len() - 1] == i);
            }
        }
        proof {
            assert forall|q: int| 0 <= q < i + 1 && #[trigger] es[q].1 > min_frequency implies exists|
                j: int,
            | 0 <= j < idx.len() && idx[j] == q by {
                if q < i {
                    let j = choose|j: int| 0 <= j < old_idx.len() && old_idx[j] == q;
                    assert(idx[j] == q);
                } else {
                    assert(idx[idx.len() - 1] == q);
                }
            }
        }
        i += 1;
    }
    proof {
        assert forall|j: int| 0 <= j < out@.len() implies ngram_counts.count(#[trigger] out@[j].0@)
            == es[idx[j]].1 by {
            lemma_count_at(es, idx[j]);
        }
        assert forall|a: int, b: int| 0 <= a < b < out@.len() implies key_lt(
            #[trigger] out@[a].0@,
            #[trigger] out@[b].0@,
        ) by {
            assert(idx[a] < idx[b]);
            assert(key_lt(es[idx[a]].0, es[idx[b]].0));
        }
        assert forall|a: int, b: int| 0 <= a < b < out@.len() implies bytes_lt(
            encode_utf8(#[trigger] out@[a].0@),
            encode_utf8(#[trigger] out@[b].0@),
        ) by {
            assert(key_lt(out@[a].0@, out@[b].0@));
            lemma_encoding_keeps_order(out@[a].0@, out@[b].0@);
        }
        assert forall|k: Seq<char>| #[trigger]
            ngram_counts.count(k) > min_frequency implies exists|j: int|
                0 <= j < out@.len() && out@[j].0@ == k by {
            lemma_count_cases(es, k);
            let p = choose|p: int| 0 <= p < es.len() && es[p].0 == k && count_in(es, k) == es[p].1;
            let j = choose|j: int| 0 <= j < idx.len() && idx[j] == p;
            assert(out@[j].0@ == k);
        }
    }
    out
}

} // verus!
