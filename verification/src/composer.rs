//! Sentence composition (dynamic programming) for the script translator.
//!
//! Given a run of pinyin ("zhongguo") and a pinyin dictionary, every way of
//! cutting the run into dictionary codes is a sentence; sentences are scored
//! by the sum of their words' weights and the best ones come back first.
use vstd::prelude::*;
use crate::pinyin::{PinyinDict, PinyinEntry, PinyinCandidate, normalize_spec};
use crate::text::{is_delimiter, strip_delimiters, chars_of, string_of, sub_chars, strip_delimiter_chars,
    lemma_no_delimiters, lemma_strip_identity};
use crate::algebra::strings_view;

verus! {

/// Longest (delimiter-free) input that is composed; longer input gives no
/// sentence, keeping the quadratic work bounded.
pub const MAX_COMPOSE_INPUT_LEN: usize = 64;

/// A sentence candidate: its words and its score.
#[derive(Debug, Clone, PartialEq, Eq)]
pub struct SentenceCandidate {
    pub words: Vec<String>,
    pub score: u32,
}

/// The codes of a cut, concatenated.
pub open spec fn codes_concat(es: Seq<PinyinEntry>) -> Seq<char>
    decreases es.len(),
{
    if es.len() == 0 {
        Seq::empty()
    } else {
        codes_concat(es.drop_last()) + es.last().0
    }
}

/// Sum of the weights of a cut.
pub open spec fn weight_sum(es: Seq<PinyinEntry>) -> int
    decreases es.len(),
{
    if es.len() == 0 {
        0
    } else {
        weight_sum(es.drop_last()) + es.last().2
    }
}

/// A score, saturating at `u32::MAX`.
pub open spec fn clamp_score(x: int) -> int {
    if x > u32::MAX { u32::MAX as int } else { x }
}

/// `es` cuts `x` into dictionary entries: each is an entry of `d` with a
/// non-empty code, and their codes spell `x`.
pub open spec fn is_cut(d: Seq<PinyinEntry>, x: Seq<char>, es: Seq<PinyinEntry>) -> bool {
    &&& forall|k: int| 0 <= k < es.len() ==> d.contains(#[trigger] es[k]) && es[k].0.len() > 0
    &&& codes_concat(es) == x
}

/// `c` is the sentence of some cut of `x`: its words are the cut's words and
/// its score the cut's saturated weight sum.
pub open spec fn sentence_of(d: Seq<PinyinEntry>, x: Seq<char>, c: SentenceCandidate) -> bool {
    exists|es: Seq<PinyinEntry>| #[trigger] is_cut(d, x, es)
        && strings_view(c.words@) == es.map_values(|e: PinyinEntry| e.1)
        && c.score == clamp_score(weight_sum(es))
}

/// Scores do not increase along the list.
pub open spec fn score_desc(v: Seq<SentenceCandidate>) -> bool {
    forall|a: int, b: int| 0 <= a < b < v.len() ==> (#[trigger] v[a]).score >= (#[trigger] v[b]).score
}

/// The number of sentences kept: `max_results`, or 64 when it is 0.
pub open spec fn result_limit(max_results: usize) -> int {
    if max_results == 0 { 64 } else { max_results as int }
}

/// What `compose` returns for the (delimiter-free) input `x`, as a list
/// `r`: sentences of cuts of `x`, best first, at most the limit; some
/// sentence exactly when `x` has a cut; the first scores at least as much
/// as every cut; and every cut's sentence is among them unless the list is
/// full and its last sentence scores at least as much (so the list holds
/// the best scores).
pub open spec fn composed(d: Seq<PinyinEntry>, x: Seq<char>, lim: int, r: Seq<SentenceCandidate>) -> bool {
    &&& forall|k: int| 0 <= k < r.len() ==> sentence_of(d, x, #[trigger] r[k])
    &&& score_desc(r)
    &&& r.len() <= lim
    &&& (exists|es: Seq<PinyinEntry>| #[trigger] is_cut(d, x, es)) <==> r.len() > 0
    &&& forall|es: Seq<PinyinEntry>| #[trigger] is_cut(d, x, es) ==> clamp_score(weight_sum(es)) <= r[0].score
    &&& r.len() < lim ==> forall|es: Seq<PinyinEntry>| #[trigger] is_cut(d, x, es) ==> listed_sentence(r, es)
    &&& forall|es: Seq<PinyinEntry>| #[trigger] is_cut(d, x, es) ==> covers_cut(r, lim, es)
}

/// The sentence of the cut `es` is in `v`, or `v` is full and its last
/// sentence scores at least as much.
pub open spec fn covers_cut(v: Seq<SentenceCandidate>, lim: int, es: Seq<PinyinEntry>) -> bool {
    listed_sentence(v, es) || (v.len() == lim && lim > 0 && v[lim - 1].score >= clamp_score(weight_sum(es)))
}

/// `c` is the sentence of the cut `es`.
pub open spec fn sentence_is(c: SentenceCandidate, es: Seq<PinyinEntry>) -> bool {
    strings_view(c.words@) == es.map_values(|e: PinyinEntry| e.1) && c.score == clamp_score(weight_sum(es))
}

/// The sentence of the cut `es` is in `v`.
pub open spec fn listed_sentence(v: Seq<SentenceCandidate>, es: Seq<PinyinEntry>) -> bool {
    exists|k: int| 0 <= k < v.len() && #[trigger] sentence_is(v[k], es)
}

proof fn lemma_concat_len(es: Seq<PinyinEntry>)
    requires
        forall|k: int| 0 <= k < es.len() ==> (#[trigger] es[k]).0.len() > 0,
    ensures
        codes_concat(es).len() >= es.len(),
    decreases es.len(),
{
    if es.len() > 0 {
        lemma_concat_len(es.drop_last());
    }
}

/// The last entry of a cut of a prefix of `x` covers `x[j..i]` and the rest
/// cuts `x[..j]`.
proof fn lemma_cut_split(d: Seq<PinyinEntry>, x: Seq<char>, i: int, es: Seq<PinyinEntry>)
    requires
        0 < i <= x.len(),
        is_cut(d, x.take(i), es),
    ensures
        es.len() > 0,
        0 <= i - es.last().0.len() < i,
        is_cut(d, x.take(i - es.last().0.len()), es.drop_last()),
        es.last().0 == x.subrange(i - es.last().0.len(), i),
        d.contains(es.last()),
{
    if es.len() == 0 {
        assert(codes_concat(es).len() == 0);
    }
    let e = es.last();
    let r = es.drop_last();
    assert(forall|k: int| 0 <= k < r.len() ==> r[k] == es[k]);
    assert(es[es.len() - 1] == e);
    lemma_concat_len(r);
    let j = i - e.0.len();
    assert(codes_concat(es) == codes_concat(r) + e.0);
    assert(codes_concat(r) =~= x.take(i).take(j));
    assert(x.take(i).take(j) =~= x.take(j));
    assert(e.0 =~= x.take(i).subrange(j, i));
    assert(x.take(i).subrange(j, i) =~= x.subrange(j, i));
}

/// Extending a cut of `x[..j]` by an entry for `x[j..i]` cuts `x[..i]`.
proof fn lemma_cut_extend(d: Seq<PinyinEntry>, x: Seq<char>, j: int, i: int, es: Seq<PinyinEntry>, e: PinyinEntry)
    requires
        0 <= j < i <= x.len(),
        is_cut(d, x.take(j), es),
        d.contains(e),
        e.0 == x.subrange(j, i),
    ensures
        is_cut(d, x.take(i), es.push(e)),
        weight_sum(es.push(e)) == weight_sum(es) + e.2,
{
    let t = es.push(e);
    assert(t.drop_last() == es);
    assert(forall|k: int| 0 <= k < es.len() ==> t[k] == es[k]);
    assert(x.take(j) + x.subrange(j, i) =~= x.take(i));
}

/// `insert_sorted` puts `item` after every entry that scores more.
pub open spec fn score_pos(v: Seq<SentenceCandidate>, s: u32) -> int
    decreases v.len(),
{
    if v.len() == 0 {
        0
    } else if v.last().score > s {
        v.len() as int
    } else {
        score_pos(v.drop_last(), s)
    }
}

/// Keeps `v` in descending score order with at most `limit` entries:
/// `item` goes after every entry that scores more, and the list is cut back
/// to `limit`; a full list whose entries all score more is left unchanged.
fn insert_sorted(v: &mut Vec<SentenceCandidate>, item: SentenceCandidate, limit: usize)
    requires
        limit >= 1,
        old(v)@.len() <= limit,
        score_desc(old(v)@),
    ensures
        ({
            let pos = score_pos(old(v)@, item.score);
            final(v)@ == if old(v)@.len() < limit {
                old(v)@.insert(pos, item)
            } else if pos < old(v)@.len() {
                old(v)@.insert(pos, item).take(limit as int)
            } else {
                old(v)@
            }
        }),
        final(v)@.len() <= limit,
        score_desc(final(v)@),
        final(v)@.len() > 0,
        final(v)@[0].score >= item.score,
        old(v)@.len() > 0 ==> final(v)@[0].score >= old(v)@[0].score,
        forall|k: int| 0 <= k < final(v)@.len() ==> #[trigger] final(v)@[k] == item
            || exists|t: int| 0 <= t < old(v)@.len() && final(v)@[k] == old(v)@[t],
{
    let ghost o = v@;
    let mut pos: usize = 0;
    while pos < v.len() && v[pos].score > item.score
        invariant
            v@ == o,
            score_desc(o),
            pos <= o.len(),
            forall|k: int| 0 <= k < pos ==> (#[trigger] o[k]).score > item.score,
        decreases o.len() - pos,
    {
        pos += 1;
    }
    proof {
        lemma_score_pos(o, item.score, pos as int);
    }
    if v.len() < limit {
        v.insert(pos, item);
    } else if pos < v.len() {
        v.insert(pos, item);
        v.truncate(limit);
    }
    proof {
        let f = v@;
        if f != o {
            let ins = o.insert(pos as int, item);
            assert forall|a: int, b: int| 0 <= a < b < ins.len() implies (#[trigger] ins[a]).score >= (#[trigger] ins[b]).score by {
                if a < pos && b > pos {
                    assert(ins[a] == o[a] && ins[b] == o[b - 1]);
                } else if a == pos && b > pos {
                    assert(ins[b] == o[b - 1]);
                } else if a > pos {
                    assert(ins[a] == o[a - 1] && ins[b] == o[b - 1]);
                }
            }
            assert forall|k: int| 0 <= k < f.len() implies #[trigger] f[k] == item
                || exists|t: int| 0 <= t < o.len() && f[k] == o[t] by {
                if k < pos {
                    assert(f[k] == o[k]);
                } else if k > pos {
                    assert(f[k] == o[k - 1]);
                }
            }
            if o.len() > 0 {
                if pos == 0 {
                    assert(f[0] == item);
                } else {
                    assert(f[0] == o[0]);
                }
            }
            if pos > 0 {
                assert(f[0] == o[0]);
            }
        } else {
            assert forall|k: int| 0 <= k < f.len() implies #[trigger] f[k] == item
                || exists|t: int| 0 <= t < o.len() && f[k] == o[t] by {
                assert(f[k] == o[k]);
            }
        }
    }
}

proof fn lemma_score_pos(v: Seq<SentenceCandidate>, s: u32, p: int)
    requires
        score_desc(v),
        0 <= p <= v.len(),
        forall|k: int| 0 <= k < p ==> (#[trigger] v[k]).score > s,
        p == v.len() || v[p].score <= s,
    ensures
        score_pos(v, s) == p,
    decreases v.len(),
{
    if v.len() > 0 {
        if v.last().score > s {
            if p < v.len() {
                assert(v[p].score >= v[v.len() - 1].score);
            }
        } else if p < v.len() {
            let t = v.drop_last();
            if p < t.len() {
                assert(t[p] == v[p]);
            }
            assert forall|k: int| 0 <= k < p implies (#[trigger] t[k]).score > s by {
                assert(t[k] == v[k]);
            }
            assert forall|a: int, b: int| 0 <= a < b < t.len() implies (#[trigger] t[a]).score >= (#[trigger] t[b]).score by {
                assert(t[a] == v[a] && t[b] == v[b]);
            }
            lemma_score_pos(t, s, p);
        }
    }
}

/// `v` is what `compose` gives for the prefix of length `t`.
pub open spec fn composed_at(d: Seq<PinyinEntry>, xs: Seq<char>, t: int, lim: int, v: Seq<SentenceCandidate>) -> bool {
    composed(d, xs.take(t), lim, v)
}

/// `cur` after combining the cuts of `xs[..j']` for every `j' < j` with the
/// entries for `xs[j'..i]`.
pub open spec fn partial_at(d: Seq<PinyinEntry>, xs: Seq<char>, i: int, j: int, lim: int, cur: Seq<SentenceCandidate>) -> bool {
    &&& forall|k: int| 0 <= k < cur.len() ==> sentence_of(d, xs.take(i), #[trigger] cur[k])
    &&& score_desc(cur)
    &&& cur.len() <= lim
    &&& forall|jj: int, es: Seq<PinyinEntry>, e: PinyinEntry|
            0 <= jj < j && #[trigger] is_cut(d, xs.take(jj), es) && #[trigger] d.contains(e) && e.0 == xs.subrange(jj, i)
            ==> cur.len() > 0 && clamp_score(weight_sum(es) + e.2) <= cur[0].score
    &&& cur.len() < lim ==> forall|jj: int, es: Seq<PinyinEntry>, e: PinyinEntry|
            0 <= jj < j && #[trigger] is_cut(d, xs.take(jj), es) && #[trigger] d.contains(e) && e.0 == xs.subrange(jj, i)
            ==> listed_sentence(cur, es.push(e))
    &&& forall|jj: int, es: Seq<PinyinEntry>, e: PinyinEntry|
            0 <= jj < j && #[trigger] is_cut(d, xs.take(jj), es) && #[trigger] d.contains(e) && e.0 == xs.subrange(jj, i)
            ==> covers_cut(cur, lim, es.push(e))
}

proof fn lemma_partial_done(d: Seq<PinyinEntry>, xs: Seq<char>, i: int, lim: int, cur: Seq<SentenceCandidate>)
    requires
        0 < i <= xs.len(),
        partial_at(d, xs, i, i, lim, cur),
    ensures
        composed_at(d, xs, i, lim, cur),
{
    let x = xs.take(i);
    assert forall|es: Seq<PinyinEntry>| #[trigger] is_cut(d, x, es) implies
        cur.len() > 0 && clamp_score(weight_sum(es)) <= cur[0].score by {
        lemma_cut_split(d, xs, i, es);
        let e = es.last();
        let jj = i - e.0.len();
        assert(is_cut(d, xs.take(jj), es.drop_last()));
        assert(d.contains(e));
    }
    if cur.len() > 0 {
        assert(sentence_of(d, x, cur[0]));
    }
    if cur.len() < lim {
        assert forall|es: Seq<PinyinEntry>| #[trigger] is_cut(d, x, es) implies listed_sentence(cur, es) by {
            lemma_cut_split(d, xs, i, es);
            let e = es.last();
            let jj = i - e.0.len();
            assert(is_cut(d, xs.take(jj), es.drop_last()));
            assert(d.contains(e));
            assert(es.drop_last().push(e) =~= es);
        }
    }
    assert forall|es: Seq<PinyinEntry>| #[trigger] is_cut(d, x, es) implies covers_cut(cur, lim, es) by {
        lemma_cut_split(d, xs, i, es);
        let e = es.last();
        let jj = i - e.0.len();
        assert(is_cut(d, xs.take(jj), es.drop_last()));
        assert(d.contains(e));
        assert(es.drop_last().push(e) =~= es);
    }
}

proof fn lemma_partial_step(d: Seq<PinyinEntry>, xs: Seq<char>, i: int, j: int, lim: int,
    before: Seq<SentenceCandidate>, after: Seq<SentenceCandidate>, prev: Seq<SentenceCandidate>, some: bool, w0: int)
    requires
        0 <= j < i <= xs.len(),
        partial_at(d, xs, i, j, lim, before),
        composed_at(d, xs, j, lim, prev),
        forall|e: PinyinEntry| #[trigger] d.contains(e) && e.0 == xs.subrange(j, i) ==> some && e.2 <= w0,
        forall|k: int| 0 <= k < after.len() ==> sentence_of(d, xs.take(i), #[trigger] after[k]),
        score_desc(after),
        after.len() <= lim,
        some && prev.len() > 0 ==> after.len() > 0 && after[0].score >= clamp_score(prev[0].score + w0),
        before.len() > 0 ==> after.len() > 0 && after[0].score >= before[0].score,
        after.len() < lim ==> before.len() <= after.len() && includes(after, before),
        after.len() < lim ==> forall|es: Seq<PinyinEntry>, e: PinyinEntry|
            #[trigger] is_cut(d, xs.take(j), es) && #[trigger] d.contains(e) && e.0 == xs.subrange(j, i)
            ==> listed_sentence(after, es.push(e)),
        forall|z: SentenceCandidate| covers_item(before, lim, z) ==> #[trigger] covers_item(after, lim, z),
        forall|s: int| reach(before, lim, s) ==> #[trigger] reach(after, lim, s),
        after.len() <= lim,
        forall|es: Seq<PinyinEntry>, e: PinyinEntry|
            #[trigger] is_cut(d, xs.take(j), es) && #[trigger] d.contains(e) && e.0 == xs.subrange(j, i)
            ==> covers_cut(after, lim, es.push(e)),
    ensures
        partial_at(d, xs, i, j + 1, lim, after),
{
    assert forall|jj: int, es: Seq<PinyinEntry>, e: PinyinEntry|
        0 <= jj < j + 1 && #[trigger] is_cut(d, xs.take(jj), es) && #[trigger] d.contains(e) && e.0 == xs.subrange(jj, i)
        implies covers_cut(after, lim, es.push(e)) by {
        if jj < j {
            let t = es.push(e);
            if listed_sentence(before, t) {
                let k = choose|k: int| 0 <= k < before.len() && #[trigger] sentence_is(before[k], t);
                assert(self::has(before, before[k]));
                assert(covers_item(before, lim, before[k]));
                assert(covers_item(after, lim, before[k]));
                if self::has(after, before[k]) {
                    let m = choose|m: int| 0 <= m < after.len() && #[trigger] after[m] == before[k];
                    assert(sentence_is(after[m], t));
                }
            } else {
                assert(reach(before, lim, clamp_score(weight_sum(t))));
                assert(reach(after, lim, clamp_score(weight_sum(t))));
            }
        }
    }
    if after.len() < lim {
        assert forall|jj: int, es: Seq<PinyinEntry>, e: PinyinEntry|
            0 <= jj < j + 1 && #[trigger] is_cut(d, xs.take(jj), es) && #[trigger] d.contains(e) && e.0 == xs.subrange(jj, i)
            implies listed_sentence(after, es.push(e)) by {
            if jj < j {
                assert(listed_sentence(before, es.push(e)));
                let k = choose|k: int| 0 <= k < before.len() && #[trigger] sentence_is(before[k], es.push(e));
                assert(self::has(after, before[k]));
                let m = choose|m: int| 0 <= m < after.len() && #[trigger] after[m] == before[k];
                assert(sentence_is(after[m], es.push(e)));
            }
        }
    }
    assert forall|jj: int, es: Seq<PinyinEntry>, e: PinyinEntry|
        0 <= jj < j + 1 && #[trigger] is_cut(d, xs.take(jj), es) && #[trigger] d.contains(e) && e.0 == xs.subrange(jj, i)
        implies after.len() > 0 && clamp_score(weight_sum(es) + e.2) <= after[0].score by {
        if jj < j {
        } else {
            assert(composed(d, xs.take(j), lim, prev));
            assert(prev.len() > 0 && clamp_score(weight_sum(es)) <= prev[0].score);
        }
    }
}

/// `c` is `prev` extended by the word `w` of weight `weight`.
pub open spec fn extends(c: SentenceCandidate, prev: SentenceCandidate, w: Seq<char>, weight: u32) -> bool {
    strings_view(c.words@) == strings_view(prev.words@).push(w) && c.score == clamp_score(prev.score + weight)
}

/// `x` is an entry of `v`.
pub open spec fn has(v: Seq<SentenceCandidate>, x: SentenceCandidate) -> bool {
    exists|m: int| 0 <= m < v.len() && #[trigger] v[m] == x
}

/// Some entry of `v` is `prev` extended by `w` of weight `weight`.
pub open spec fn has_ext(v: Seq<SentenceCandidate>, prev: SentenceCandidate, w: Seq<char>, weight: u32) -> bool {
    exists|m: int| 0 <= m < v.len() && #[trigger] extends(v[m], prev, w, weight)
}

/// Every entry of `small` is an entry of `big`.
pub open spec fn includes(big: Seq<SentenceCandidate>, small: Seq<SentenceCandidate>) -> bool {
    forall|k: int| 0 <= k < small.len() ==> has(big, #[trigger] small[k])
}

proof fn lemma_includes_refl(v: Seq<SentenceCandidate>)
    ensures
        includes(v, v),
{
    assert forall|k: int| 0 <= k < v.len() implies has(v, #[trigger] v[k]) by {
        assert(v[k] == v[k]);
    }
}

proof fn lemma_insert_includes(v: Seq<SentenceCandidate>, pos: int, x: SentenceCandidate)
    requires
        0 <= pos <= v.len(),
    ensures
        includes(v.insert(pos, x), v),
        v.insert(pos, x)[pos] == x,
{
    let w = v.insert(pos, x);
    assert forall|k: int| 0 <= k < v.len() implies has(w, #[trigger] v[k]) by {
        if k < pos {
            assert(w[k] == v[k]);
        } else {
            assert(w[k + 1] == v[k]);
        }
    }
}

proof fn lemma_includes_trans(a: Seq<SentenceCandidate>, b: Seq<SentenceCandidate>, c: Seq<SentenceCandidate>)
    requires
        includes(b, a),
        includes(c, b),
    ensures
        includes(c, a),
{
    assert forall|k: int| 0 <= k < a.len() implies has(c, #[trigger] a[k]) by {
        assert(has(b, a[k]));
        let m1 = choose|m: int| 0 <= m < b.len() && #[trigger] b[m] == a[k];
        assert(has(c, b[m1]));
    }
}

proof fn lemma_includes_ext(big: Seq<SentenceCandidate>, small: Seq<SentenceCandidate>, prev: SentenceCandidate, w: Seq<char>, weight: u32)
    requires
        includes(big, small),
        has_ext(small, prev, w, weight),
    ensures
        has_ext(big, prev, w, weight),
{
    let m0 = choose|m: int| 0 <= m < small.len() && #[trigger] extends(small[m], prev, w, weight);
    assert(has(big, small[m0]));
    let m1 = choose|m: int| 0 <= m < big.len() && #[trigger] big[m] == small[m0];
    assert(extends(big[m1], prev, w, weight));
}

proof fn lemma_weight_sum_nonneg(es: Seq<PinyinEntry>)
    ensures
        weight_sum(es) >= 0,
    decreases es.len(),
{
    if es.len() > 0 {
        lemma_weight_sum_nonneg(es.drop_last());
    }
}

/// After the combinations for `xs[j..i]` were added to a list that did not
/// fill up, the sentence of every cut ending with an entry for `xs[j..i]` is
/// in it.
/// An entry with the code `xs[j..i]` is one of the entries `sel` selected
/// for that code.
proof fn lemma_in_selection(d: Seq<PinyinEntry>, xs: Seq<char>, i: int, j: int, sel: Seq<PinyinEntry>, e: PinyinEntry) -> (k: int)
    requires
        0 <= j <= i <= xs.len(),
        sel == d.filter(crate::pinyin::py_code_is(xs.subrange(j, i))),
        d.contains(e),
        e.0 == xs.subrange(j, i),
    ensures
        0 <= k < sel.len(),
        sel[k] == e,
{
    let pred = crate::pinyin::py_code_is(xs.subrange(j, i));
    d.filter_lemma(pred);
    let q = choose|q: int| 0 <= q < d.len() && d[q] == e;
    assert(pred(d[q]));
    assert(sel.contains(d[q]));
    choose|k: int| 0 <= k < sel.len() && sel[k] == e
}

#[verifier::spinoff_prover]
proof fn lemma_step_listed_one(d: Seq<PinyinEntry>, xs: Seq<char>, i: int, j: int,
    after: Seq<SentenceCandidate>, prevs: Seq<SentenceCandidate>,
    cands: Seq<PinyinCandidate>, pp: int, k: int, es: Seq<PinyinEntry>, e: PinyinEntry)
    requires
        0 <= j < i <= xs.len(),
        0 <= pp < prevs.len(),
        sentence_is(prevs[pp], es),
        0 <= k < cands.len(),
        cands[k].word@ == e.1,
        cands[k].weight == e.2,
        has_ext(after, prevs[pp], cands[k].word@, cands[k].weight),
        is_cut(d, xs.take(j), es),
        d.contains(e),
        e.0 == xs.subrange(j, i),
    ensures
        listed_sentence(after, es.push(e)),
{
    let m = choose|m: int| 0 <= m < after.len() && #[trigger] extends(after[m], prevs[pp], cands[k].word@, cands[k].weight);
    lemma_cut_extend(d, xs, j, i, es, e);
    lemma_weight_sum_nonneg(es);
    assert(es.push(e).map_values(|x: PinyinEntry| x.1) =~= es.map_values(|x: PinyinEntry| x.1).push(e.1));
    assert(sentence_is(after[m], es.push(e)));
}

/// One step of the composition keeps the earlier sentences and adds the
/// sentence of every cut ending with an entry for `xs[j..i]`, while the list
/// has not filled up.
#[verifier::spinoff_prover]
#[verifier::rlimit(30)]
proof fn lemma_step(d: Seq<PinyinEntry>, xs: Seq<char>, i: int, j: int, lim: int,
    before: Seq<SentenceCandidate>, after: Seq<SentenceCandidate>, prevs: Seq<SentenceCandidate>,
    cands: Seq<PinyinCandidate>, sel: Seq<PinyinEntry>, called: bool)
    requires
        0 <= j < i <= xs.len(),
        lim >= 1,
        composed(d, xs.take(j), lim, prevs),
        sel == d.filter(crate::pinyin::py_code_is(xs.subrange(j, i))),
        cands.len() == (if lim >= sel.len() { sel.len() as int } else { lim }),
        forall|c: int| 0 <= c < cands.len() ==> (#[trigger] cands[c]).word@ == sel[c].1 && cands[c].weight == sel[c].2,
        called == (cands.len() > 0 && prevs.len() > 0),
        !called ==> after == before,
        called && after.len() < lim ==> after.len() >= before.len() + prevs.len()
            && after.len() >= before.len() + cands.len(),
        called && after.len() < lim ==> includes(after, before),
        called && after.len() < lim ==> forall|pp: int, cc: int| #![trigger prevs[pp], cands[cc]]
            0 <= pp < prevs.len() && 0 <= cc < cands.len() ==> has_ext(after, prevs[pp], cands[cc].word@, cands[cc].weight),
    ensures
        after.len() < lim ==> before.len() <= after.len() && includes(after, before),
        after.len() < lim ==> forall|es: Seq<PinyinEntry>, e: PinyinEntry|
            #[trigger] is_cut(d, xs.take(j), es) && #[trigger] d.contains(e) && e.0 == xs.subrange(j, i)
            ==> listed_sentence(after, es.push(e)),
{
    if after.len() < lim {
        if !called {
            lemma_includes_refl(after);
        }
        assert forall|es: Seq<PinyinEntry>, e: PinyinEntry|
            #[trigger] is_cut(d, xs.take(j), es) && #[trigger] d.contains(e) && e.0 == xs.subrange(j, i)
            implies listed_sentence(after, es.push(e)) by {
            let k = lemma_in_selection(d, xs, i, j, sel, e);
            assert(prevs.len() > 0);
            assert(cands.len() > 0);
            assert(called);
            assert(k < cands.len());
            assert(prevs.len() < lim);
            assert(listed_sentence(prevs, es));
            let pp = choose|pp: int| 0 <= pp < prevs.len() && #[trigger] sentence_is(prevs[pp], es);
            assert(cands[k].word@ == sel[k].1 && cands[k].weight == sel[k].2);
            assert(has_ext(after, prevs[pp], cands[k].word@, cands[k].weight));
            lemma_step_listed_one(d, xs, i, j, after, prevs, cands, pp, k, es, e);
        }
    }
}

/// The first `m` entries of `v` exist and the `m`-th scores at least `s`
/// (in a descending list: `m` entries score at least `s`).
pub open spec fn reach(v: Seq<SentenceCandidate>, m: int, s: int) -> bool {
    m <= 0 || (v.len() >= m && v[m - 1].score >= s)
}

/// `z` is in `v`, or `v` is full and its last entry scores at least as
/// much as `z`.
pub open spec fn covers_item(v: Seq<SentenceCandidate>, lim: int, z: SentenceCandidate) -> bool {
    has(v, z) || (v.len() == lim && lim > 0 && v[lim - 1].score >= z.score)
}

/// What `insert_sorted` makes of `before` with `item`.
pub open spec fn inserted(before: Seq<SentenceCandidate>, item: SentenceCandidate, lim: int) -> Seq<SentenceCandidate> {
    let pos = score_pos(before, item.score);
    if before.len() < lim {
        before.insert(pos, item)
    } else if pos < before.len() {
        before.insert(pos, item).take(lim)
    } else {
        before
    }
}

proof fn lemma_score_pos_props(v: Seq<SentenceCandidate>, s: u32)
    requires
        score_desc(v),
    ensures
        0 <= score_pos(v, s) <= v.len(),
        forall|k: int| 0 <= k < score_pos(v, s) ==> (#[trigger] v[k]).score > s,
        forall|k: int| score_pos(v, s) <= k < v.len() ==> (#[trigger] v[k]).score <= s,
    decreases v.len(),
{
    if v.len() > 0 {
        let t = v.drop_last();
        assert forall|a: int, b: int| 0 <= a < b < t.len() implies (#[trigger] t[a]).score >= (#[trigger] t[b]).score by {
            assert(t[a] == v[a] && t[b] == v[b]);
        }
        lemma_score_pos_props(t, s);
        if v.last().score > s {
            assert forall|k: int| 0 <= k < v.len() implies (#[trigger] v[k]).score > s by {
                if k < v.len() - 1 {
                    assert(v[k].score >= v[v.len() - 1].score);
                }
            }
        } else {
            assert forall|k: int| 0 <= k < score_pos(v, s) implies (#[trigger] v[k]).score > s by {
                assert(v[k] == t[k]);
            }
            assert forall|k: int| score_pos(v, s) <= k < v.len() implies (#[trigger] v[k]).score <= s by {
                if k < v.len() - 1 {
                    assert(v[k] == t[k]);
                }
            }
        }
    }
}

/// Inserting keeps `m` entries scoring at least `s`, and an item scoring at
/// least `s` adds one while the list is not full.
proof fn lemma_insert_reach(before: Seq<SentenceCandidate>, item: SentenceCandidate, lim: int, m: int, s: int)
    requires
        lim >= 1,
        before.len() <= lim,
        score_desc(before),
        0 <= m <= lim,
    ensures
        reach(before, m, s) ==> reach(inserted(before, item, lim), m, s),
        reach(before, m, s) && item.score >= s && m < lim ==> reach(inserted(before, item, lim), m + 1, s),
{
    lemma_score_pos_props(before, item.score);
    let pos = score_pos(before, item.score);
    let ins = before.insert(pos, item);
    let after = inserted(before, item, lim);
    if reach(before, m, s) && m > 0 {
        if before.len() < lim || pos < before.len() {
            assert(after.len() >= m);
            if m - 1 < pos {
                assert(after[m - 1] == before[m - 1]);
            } else if m - 1 == pos {
                assert(after[m - 1] == item);
            } else {
                assert(after[m - 1] == before[m - 2]);
                assert(before[m - 2].score >= before[m - 1].score);
            }
        }
    }
    if reach(before, m, s) && item.score >= s && m < lim {
        if before.len() < lim || pos < before.len() {
            assert(after.len() >= m + 1);
            if m < pos {
                assert(after[m] == before[m]);
            } else if m == pos {
                assert(after[m] == item);
            } else {
                assert(after[m] == before[m - 1]);
            }
        } else {
            assert(before[m].score > item.score);
        }
    }
}

/// Inserting keeps every entry or a full list scoring at least as much, and
/// covers the new item.
proof fn lemma_insert_covers(before: Seq<SentenceCandidate>, item: SentenceCandidate, lim: int, z: SentenceCandidate)
    requires
        lim >= 1,
        before.len() <= lim,
        score_desc(before),
    ensures
        covers_item(before, lim, z) ==> covers_item(inserted(before, item, lim), lim, z),
        covers_item(inserted(before, item, lim), lim, item),
{
    lemma_score_pos_props(before, item.score);
    let pos = score_pos(before, item.score);
    let ins = before.insert(pos, item);
    let after = inserted(before, item, lim);
    assert(ins[pos] == item);
    if before.len() < lim || pos < before.len() {
        assert(after[pos] == item);
        assert(has(after, item));
    } else {
        assert(before[lim - 1].score > item.score);
    }
    if has(before, z) {
        let m0 = choose|m: int| 0 <= m < before.len() && #[trigger] before[m] == z;
        if before.len() < lim {
            lemma_insert_includes(before, pos, item);
            assert(has(after, before[m0]));
        } else if pos < before.len() {
            if m0 < pos {
                assert(after[m0] == z);
            } else if m0 + 1 < lim {
                assert(after[m0 + 1] == z);
            } else {
                if lim - 1 == pos {
                    assert(after[lim - 1] == item);
                } else {
                    assert(after[lim - 1] == before[lim - 2]);
                    assert(before[lim - 2].score >= before[lim - 1].score);
                }
            }
        } else {
            assert(after[m0] == z);
        }
    } else if before.len() == lim && before[lim - 1].score >= z.score {
        lemma_insert_reach(before, item, lim, lim, z.score as int);
    }
}

/// What extending `prev` by a word of weight `w` scores.
pub open spec fn ext_score(prev: SentenceCandidate, w: u32) -> int {
    clamp_score(prev.score + w)
}

/// The first `p` sentences, each extended by weight `w`, score at least `s`.
pub open spec fn col_ge(prevs: Seq<SentenceCandidate>, w: u32, p: int, s: int) -> bool {
    forall|pp: int| 0 <= pp < p ==> ext_score(#[trigger] prevs[pp], w) >= s
}

/// `prev` extended by each of the first `c` candidates scores at least `s`.
pub open spec fn row_ge(prev: SentenceCandidate, cands: Seq<PinyinCandidate>, c: int, s: int) -> bool {
    forall|cc: int| 0 <= cc < c ==> ext_score(prev, (#[trigger] cands[cc]).weight) >= s
}

/// `prev` extended by `w` is in `v`, or `v` is full with a last entry
/// scoring at least as much.
pub open spec fn covers_ext(v: Seq<SentenceCandidate>, lim: int, prev: SentenceCandidate, w: Seq<char>, weight: u32) -> bool {
    has_ext(v, prev, w, weight) || (v.len() == lim && lim > 0 && v[lim - 1].score >= ext_score(prev, weight))
}

pub open spec fn min_int(a: int, b: int) -> int {
    if a < b { a } else { b }
}

/// The state of `add_combinations` after the combinations of the first `p`
/// sentences, and the first `c` candidates with sentence `p`, were inserted
/// into `o`, giving `cur`.
pub open spec fn combined(o: Seq<SentenceCandidate>, cur: Seq<SentenceCandidate>, prevs: Seq<SentenceCandidate>,
    cands: Seq<PinyinCandidate>, p: int, c: int, lim: int) -> bool {
    &&& cur.len() <= lim
    &&& score_desc(cur)
    &&& forall|z: SentenceCandidate| covers_item(o, lim, z) ==> #[trigger] covers_item(cur, lim, z)
    &&& forall|s: int| reach(o, lim, s) ==> #[trigger] reach(cur, lim, s)
    &&& forall|pp: int, cc: int| #![trigger prevs[pp], cands[cc]] 0 <= pp < p && 0 <= cc < cands.len() ==>
        covers_ext(cur, lim, prevs[pp], cands[cc].word@, cands[cc].weight)
    &&& forall|cc: int| #![trigger cands[cc]] 0 <= cc < c ==>
        covers_ext(cur, lim, prevs[p], cands[cc].word@, cands[cc].weight)
    &&& forall|k: int, s: int| #![trigger col_ge(prevs, cands[k].weight, p + 1, s)] 0 <= k < c
        && col_ge(prevs, cands[k].weight, p + 1, s) ==> reach(cur, min_int(lim, p + 1), s)
    &&& forall|k: int, s: int| #![trigger col_ge(prevs, cands[k].weight, p, s)] c <= k < cands.len()
        && col_ge(prevs, cands[k].weight, p, s) ==> reach(cur, min_int(lim, p), s)
    &&& forall|pp: int, s: int| #![trigger row_ge(prevs[pp], cands, cands.len() as int, s)] 0 <= pp < p
        && row_ge(prevs[pp], cands, cands.len() as int, s) ==> reach(cur, min_int(lim, cands.len() as int), s)
    &&& forall|s: int| #![trigger row_ge(prevs[p], cands, c, s)]
        row_ge(prevs[p], cands, c, s) ==> reach(cur, min_int(lim, c), s)
}

proof fn lemma_inserted_len(before: Seq<SentenceCandidate>, item: SentenceCandidate, lim: int)
    requires
        lim >= 1,
        before.len() <= lim,
        score_desc(before),
    ensures
        inserted(before, item, lim).len() <= lim,
        before.len() < lim ==> inserted(before, item, lim).len() == before.len() + 1,
{
    lemma_score_pos_props(before, item.score);
}

/// One insertion of `add_combinations` keeps its state.
#[verifier::spinoff_prover]
#[verifier::rlimit(40)]
proof fn lemma_add_step(o: Seq<SentenceCandidate>, before: Seq<SentenceCandidate>, prevs: Seq<SentenceCandidate>,
    cands: Seq<PinyinCandidate>, p: int, c: int, lim: int, item: SentenceCandidate)
    requires
        lim >= 1,
        0 <= p < prevs.len(),
        0 <= c < cands.len(),
        combined(o, before, prevs, cands, p, c, lim),
        extends(item, prevs[p], cands[c].word@, cands[c].weight),
    ensures
        combined(o, inserted(before, item, lim), prevs, cands, p, c + 1, lim),
{
    let after = inserted(before, item, lim);
    lemma_inserted_len(before, item, lim);
    lemma_insert_covers(before, item, lim, item);
    assert forall|z: SentenceCandidate| covers_item(o, lim, z) implies #[trigger] covers_item(after, lim, z) by {
        lemma_insert_covers(before, item, lim, z);
    }
    assert forall|s: int| reach(o, lim, s) implies #[trigger] reach(after, lim, s) by {
        lemma_insert_reach(before, item, lim, lim, s);
    }
    assert forall|pp: int, cc: int| #![trigger prevs[pp], cands[cc]] 0 <= pp < p && 0 <= cc < cands.len() implies
        covers_ext(after, lim, prevs[pp], cands[cc].word@, cands[cc].weight) by {
        lemma_covers_ext_keep(before, item, lim, prevs[pp], cands[cc].word@, cands[cc].weight);
    }
    assert forall|cc: int| #![trigger cands[cc]] 0 <= cc < c + 1 implies
        covers_ext(after, lim, prevs[p], cands[cc].word@, cands[cc].weight) by {
        if cc < c {
            lemma_covers_ext_keep(before, item, lim, prevs[p], cands[cc].word@, cands[cc].weight);
        } else {
            if has(after, item) {
                let m = choose|m: int| 0 <= m < after.len() && #[trigger] after[m] == item;
                assert(extends(after[m], prevs[p], cands[cc].word@, cands[cc].weight));
            }
        }
    }
    assert forall|k: int, s: int| #![trigger col_ge(prevs, cands[k].weight, p + 1, s)] 0 <= k < c + 1
        && col_ge(prevs, cands[k].weight, p + 1, s) implies reach(after, min_int(lim, p + 1), s) by {
        if k < c {
            lemma_insert_reach(before, item, lim, min_int(lim, p + 1), s);
        } else {
            assert(ext_score(prevs[p], cands[k].weight) >= s);
            assert(col_ge(prevs, cands[k].weight, p, s));
            lemma_insert_reach(before, item, lim, min_int(lim, p), s);
        }
    }
    assert forall|k: int, s: int| #![trigger col_ge(prevs, cands[k].weight, p, s)] c + 1 <= k < cands.len()
        && col_ge(prevs, cands[k].weight, p, s) implies reach(after, min_int(lim, p), s) by {
        lemma_insert_reach(before, item, lim, min_int(lim, p), s);
    }
    assert forall|pp: int, s: int| #![trigger row_ge(prevs[pp], cands, cands.len() as int, s)] 0 <= pp < p
        && row_ge(prevs[pp], cands, cands.len() as int, s) implies reach(after, min_int(lim, cands.len() as int), s) by {
        lemma_insert_reach(before, item, lim, min_int(lim, cands.len() as int), s);
    }
    assert forall|s: int| #![trigger row_ge(prevs[p], cands, c + 1, s)]
        row_ge(prevs[p], cands, c + 1, s) implies reach(after, min_int(lim, c + 1), s) by {
        assert(ext_score(prevs[p], cands[c].weight) >= s);
        assert(row_ge(prevs[p], cands, c, s));
        lemma_insert_reach(before, item, lim, min_int(lim, c), s);
    }
    lemma_insert_sorted_desc(before, item, lim);
}

proof fn lemma_covers_ext_keep(before: Seq<SentenceCandidate>, item: SentenceCandidate, lim: int,
    prev: SentenceCandidate, w: Seq<char>, weight: u32)
    requires
        lim >= 1,
        before.len() <= lim,
        score_desc(before),
        covers_ext(before, lim, prev, w, weight),
    ensures
        covers_ext(inserted(before, item, lim), lim, prev, w, weight),
{
    let after = inserted(before, item, lim);
    lemma_inserted_len(before, item, lim);
    if has_ext(before, prev, w, weight) {
        let m0 = choose|m: int| 0 <= m < before.len() && #[trigger] extends(before[m], prev, w, weight);
        assert(has(before, before[m0]));
        lemma_insert_covers(before, item, lim, before[m0]);
        if has(after, before[m0]) {
            let m1 = choose|m: int| 0 <= m < after.len() && #[trigger] after[m] == before[m0];
            assert(extends(after[m1], prev, w, weight));
        }
    } else {
        lemma_insert_reach(before, item, lim, lim, ext_score(prev, weight));
    }
}

proof fn lemma_insert_sorted_desc(before: Seq<SentenceCandidate>, item: SentenceCandidate, lim: int)
    requires
        lim >= 1,
        before.len() <= lim,
        score_desc(before),
    ensures
        score_desc(inserted(before, item, lim)),
{
    lemma_score_pos_props(before, item.score);
    let pos = score_pos(before, item.score);
    let ins = before.insert(pos, item);
    assert forall|a: int, b: int| 0 <= a < b < ins.len() implies (#[trigger] ins[a]).score >= (#[trigger] ins[b]).score by {
        if a < pos && b > pos {
            assert(ins[a] == before[a] && ins[b] == before[b - 1]);
        } else if a < pos && b == pos {
            assert(ins[a] == before[a]);
        } else if a == pos && b > pos {
            assert(ins[b] == before[b - 1]);
        } else if a > pos {
            assert(ins[a] == before[a - 1] && ins[b] == before[b - 1]);
        } else {
            assert(ins[a] == before[a] && ins[b] == before[b]);
        }
    }
    let after = inserted(before, item, lim);
    assert forall|a: int, b: int| 0 <= a < b < after.len() implies (#[trigger] after[a]).score >= (#[trigger] after[b]).score by {
        if before.len() < lim || pos < before.len() {
            assert(after[a] == ins[a] && after[b] == ins[b]);
        }
    }
}

proof fn lemma_combined_start(o: Seq<SentenceCandidate>, prevs: Seq<SentenceCandidate>, cands: Seq<PinyinCandidate>, lim: int)
    requires
        lim >= 1,
        o.len() <= lim,
        score_desc(o),
    ensures
        combined(o, o, prevs, cands, 0, 0, lim),
{
}

proof fn lemma_combined_next(o: Seq<SentenceCandidate>, cur: Seq<SentenceCandidate>, prevs: Seq<SentenceCandidate>,
    cands: Seq<PinyinCandidate>, p: int, lim: int)
    requires
        lim >= 1,
        0 <= p < prevs.len(),
        combined(o, cur, prevs, cands, p, cands.len() as int, lim),
    ensures
        combined(o, cur, prevs, cands, p + 1, 0, lim),
{
    assert forall|pp: int, cc: int| #![trigger prevs[pp], cands[cc]] 0 <= pp < p + 1 && 0 <= cc < cands.len() implies
        covers_ext(cur, lim, prevs[pp], cands[cc].word@, cands[cc].weight) by {
    }
    assert forall|pp: int, s: int| #![trigger row_ge(prevs[pp], cands, cands.len() as int, s)] 0 <= pp < p + 1
        && row_ge(prevs[pp], cands, cands.len() as int, s) implies reach(cur, min_int(lim, cands.len() as int), s) by {
    }
    assert forall|k: int, s: int| #![trigger col_ge(prevs, cands[k].weight, p + 1, s)] 0 <= k < cands.len()
        && col_ge(prevs, cands[k].weight, p + 1, s) implies reach(cur, min_int(lim, p + 1), s) by {
    }
}

proof fn lemma_clamp_ext(a: int, b: int, x: int)
    requires
        a >= 0,
        b >= 0,
        x >= clamp_score(a),
    ensures
        clamp_score(clamp_score(a) + b) == clamp_score(a + b),
        clamp_score(x + b) >= clamp_score(a + b),
{
}

/// A cut ending with an entry for `xs[j..i]` is covered once the
/// combinations for `xs[j..i]` were added to `before`, giving `after`.
#[verifier::spinoff_prover]
#[verifier::rlimit(40)]
proof fn lemma_cover_one(d: Seq<PinyinEntry>, xs: Seq<char>, i: int, j: int, lim: int,
    before: Seq<SentenceCandidate>, after: Seq<SentenceCandidate>, prevs: Seq<SentenceCandidate>,
    cands: Seq<PinyinCandidate>, sel: Seq<PinyinEntry>, es: Seq<PinyinEntry>, e: PinyinEntry)
    requires
        0 <= j < i <= xs.len(),
        lim >= 1,
        composed(d, xs.take(j), lim, prevs),
        sel == d.filter(crate::pinyin::py_code_is(xs.subrange(j, i))),
        cands.len() == (if lim >= sel.len() { sel.len() as int } else { lim }),
        forall|c: int| 0 <= c < cands.len() ==> (#[trigger] cands[c]).word@ == sel[c].1 && cands[c].weight == sel[c].2,
        forall|a: int, b: int| 0 <= a < b < sel.len() ==> (#[trigger] sel[a]).2 >= (#[trigger] sel[b]).2,
        cands.len() > 0 && prevs.len() > 0 ==> combined(before, after, prevs, cands, prevs.len() as int, 0, lim),
        after.len() <= lim,
        is_cut(d, xs.take(j), es),
        d.contains(e),
        e.0 == xs.subrange(j, i),
    ensures
        covers_cut(after, lim, es.push(e)),
{
    let k = lemma_in_selection(d, xs, i, j, sel, e);
    let t = es.push(e);
    lemma_cut_extend(d, xs, j, i, es, e);
    lemma_weight_sum_nonneg(es);
    let a = weight_sum(es);
    let sc = clamp_score(weight_sum(t));
    assert(prevs.len() > 0);
    assert(cands.len() > 0);
    assert(covers_cut(prevs, lim, es));
    let np = prevs.len() as int;
    let nc = cands.len() as int;
    if listed_sentence(prevs, es) {
        let pp = choose|pp: int| 0 <= pp < prevs.len() && #[trigger] sentence_is(prevs[pp], es);
        if k < nc {
            assert(cands[k].word@ == e.1 && cands[k].weight == e.2);
            assert(covers_ext(after, lim, prevs[pp], cands[k].word@, cands[k].weight));
            if has_ext(after, prevs[pp], cands[k].word@, cands[k].weight) {
                lemma_step_listed_one(d, xs, i, j, after, prevs, cands, pp, k, es, e);
            } else {
                lemma_clamp_ext(a, e.2 as int, prevs[pp].score as int);
            }
        } else {
            assert(nc == lim);
            assert forall|cc: int| 0 <= cc < nc implies ext_score(prevs[pp], (#[trigger] cands[cc]).weight) >= sc by {
                assert(sel[cc].2 >= sel[k].2);
                lemma_clamp_ext(a, e.2 as int, prevs[pp].score as int);
                lemma_clamp_ext(a, cands[cc].weight as int, prevs[pp].score as int);
            }
            assert(row_ge(prevs[pp], cands, nc, sc));
            assert(reach(after, min_int(lim, nc), sc));
        }
    } else {
        assert(np == lim);
        assert forall|pp: int| 0 <= pp < np implies (#[trigger] prevs[pp]).score >= prevs[lim - 1].score by {
            if pp < lim - 1 {
                assert(prevs[pp].score >= prevs[lim - 1].score);
            }
        }
        if k < nc {
            assert(cands[k].weight == e.2);
            assert forall|pp: int| 0 <= pp < np implies ext_score(#[trigger] prevs[pp], cands[k].weight) >= sc by {
                assert(prevs[pp].score >= prevs[lim - 1].score);
                lemma_clamp_ext(a, e.2 as int, prevs[pp].score as int);
            }
            assert(col_ge(prevs, cands[k].weight, np, sc));
            assert(reach(after, min_int(lim, np), sc));
        } else {
            assert(nc == lim);
            assert forall|cc: int| 0 <= cc < nc implies ext_score(prevs[0], (#[trigger] cands[cc]).weight) >= sc by {
                assert(sel[cc].2 >= sel[k].2);
                assert(prevs[0].score >= prevs[lim - 1].score);
                lemma_clamp_ext(a, e.2 as int, prevs[0].score as int);
                lemma_clamp_ext(a, cands[cc].weight as int, prevs[0].score as int);
            }
            assert(row_ge(prevs[0], cands, nc, sc));
            assert(reach(after, min_int(lim, nc), sc));
        }
    }
}

/// Copy of a list of strings.
pub fn clone_strings(v: &Vec<String>) -> (r: Vec<String>)
    ensures
        strings_view(r@) == strings_view(v@),
{
    let mut r: Vec<String> = Vec::new();
    let mut i: usize = 0;
    while i < v.len()
        invariant
            i <= v@.len(),
            r@.len() == i,
            forall|k: int| 0 <= k < i ==> (#[trigger] r@[k])@ == v@[k]@,
        decreases v@.len() - i,
    {
        r.push(v[i].clone());
        i += 1;
    }
    assert(strings_view(r@) =~= strings_view(v@));
    r
}

/// Inserts every sentence of a cut of `xs[..j]` in `prevs` extended by every
/// candidate for `xs[j..i]`, in that order.
fn add_combinations(cur: &mut Vec<SentenceCandidate>, prevs: &Vec<SentenceCandidate>, cands: &Vec<PinyinCandidate>,
    lim: usize, Ghost(d): Ghost<Seq<PinyinEntry>>, Ghost(xs): Ghost<Seq<char>>, Ghost(sel): Ghost<Seq<PinyinEntry>>,
    j: usize, i: usize)
    requires
        0 <= j < i <= xs.len(),
        lim >= 1,
        prevs@.len() > 0,
        cands@.len() > 0,
        cands@.len() <= sel.len(),
        forall|p: int| 0 <= p < prevs@.len() ==> sentence_of(d, xs.take(j as int), #[trigger] prevs@[p]),
        forall|c: int| 0 <= c < cands@.len() ==> {
            &&& (#[trigger] cands@[c]).word@ == sel[c].1
            &&& cands@[c].weight == sel[c].2
            &&& d.contains(sel[c])
            &&& sel[c].0 == xs.subrange(j as int, i as int)
        },
        forall|k: int| 0 <= k < old(cur)@.len() ==> sentence_of(d, xs.take(i as int), #[trigger] old(cur)@[k]),
        score_desc(old(cur)@),
        old(cur)@.len() <= lim,
    ensures
        forall|k: int| 0 <= k < final(cur)@.len() ==> sentence_of(d, xs.take(i as int), #[trigger] final(cur)@[k]),
        score_desc(final(cur)@),
        final(cur)@.len() <= lim,
        final(cur)@.len() > 0,
        final(cur)@[0].score >= clamp_score(prevs@[0].score + cands@[0].weight),
        old(cur)@.len() > 0 ==> final(cur)@[0].score >= old(cur)@[0].score,
        final(cur)@.len() < lim ==> final(cur)@.len() >= old(cur)@.len() + prevs@.len()
            && final(cur)@.len() >= old(cur)@.len() + cands@.len(),
        final(cur)@.len() < lim ==> includes(final(cur)@, old(cur)@),
        combined(old(cur)@, final(cur)@, prevs@, cands@, prevs@.len() as int, 0, lim as int),
        final(cur)@.len() < lim ==> forall|pp: int, cc: int| #![trigger prevs@[pp], cands@[cc]] 0 <= pp < prevs@.len() && 0 <= cc < cands@.len() ==>
            has_ext(final(cur)@, prevs@[pp], cands@[cc].word@, cands@[cc].weight),
{
    let ghost o = cur@;
    let ghost mut ins: int = 0;
    proof {
        lemma_includes_refl(o);
        lemma_combined_start(o, prevs@, cands@, lim as int);
    }
    let ghost s00 = clamp_score(prevs@[0].score + cands@[0].weight);
    let mut p: usize = 0;
    while p < prevs.len()
        invariant
            0 <= j < i <= xs.len(),
            lim >= 1,
            p <= prevs@.len(),
            cands@.len() > 0,
            cands@.len() <= sel.len(),
            s00 == clamp_score(prevs@[0].score + cands@[0].weight),
            forall|q: int| 0 <= q < prevs@.len() ==> sentence_of(d, xs.take(j as int), #[trigger] prevs@[q]),
            forall|c: int| 0 <= c < cands@.len() ==> {
                &&& (#[trigger] cands@[c]).word@ == sel[c].1
                &&& cands@[c].weight == sel[c].2
                &&& d.contains(sel[c])
                &&& sel[c].0 == xs.subrange(j as int, i as int)
            },
            forall|k: int| 0 <= k < cur@.len() ==> sentence_of(d, xs.take(i as int), #[trigger] cur@[k]),
            score_desc(cur@),
            cur@.len() <= lim,
            o.len() > 0 ==> cur@.len() > 0 && cur@[0].score >= o[0].score,
            p > 0 ==> cur@.len() > 0 && cur@[0].score >= s00,
            cur@.len() == lim || cur@.len() == o.len() + ins,
            ins >= p,
            p > 0 ==> ins >= cands@.len(),
            cur@.len() < lim ==> includes(cur@, o),
            cur@.len() < lim ==> forall|pp: int, cc: int| #![trigger prevs@[pp], cands@[cc]] 0 <= pp < p && 0 <= cc < cands@.len() ==>
                has_ext(cur@, prevs@[pp], cands@[cc].word@, cands@[cc].weight),
            combined(o, cur@, prevs@, cands@, p as int, 0, lim as int),
        decreases prevs@.len() - p,
    {
        let prev = &prevs[p];
        let ghost es_prev = choose|es: Seq<PinyinEntry>| #[trigger] is_cut(d, xs.take(j as int), es)
            && strings_view(prev.words@) == es.map_values(|e: PinyinEntry| e.1)
            && prev.score == clamp_score(weight_sum(es));
        assert(sentence_of(d, xs.take(j as int), prevs@[p as int]));
        let mut c: usize = 0;
        while c < cands.len()
            invariant
                0 <= j < i <= xs.len(),
                lim >= 1,
                p < prevs@.len(),
                c <= cands@.len(),
                cands@.len() <= sel.len(),
                *prev == prevs@[p as int],
                s00 == clamp_score(prevs@[0].score + cands@[0].weight),
                is_cut(d, xs.take(j as int), es_prev),
                strings_view(prev.words@) == es_prev.map_values(|e: PinyinEntry| e.1),
                prev.score == clamp_score(weight_sum(es_prev)),
                forall|cc: int| 0 <= cc < cands@.len() ==> {
                    &&& (#[trigger] cands@[cc]).word@ == sel[cc].1
                    &&& cands@[cc].weight == sel[cc].2
                    &&& d.contains(sel[cc])
                    &&& sel[cc].0 == xs.subrange(j as int, i as int)
                },
                forall|k: int| 0 <= k < cur@.len() ==> sentence_of(d, xs.take(i as int), #[trigger] cur@[k]),
                score_desc(cur@),
                cur@.len() <= lim,
                o.len() > 0 ==> cur@.len() > 0 && cur@[0].score >= o[0].score,
                (p > 0 || c > 0) ==> cur@.len() > 0 && cur@[0].score >= s00,
                cur@.len() == lim || cur@.len() == o.len() + ins,
                ins >= p + c,
                p > 0 ==> ins >= cands@.len(),
                ins >= c,
                cur@.len() < lim ==> includes(cur@, o),
                cur@.len() < lim ==> forall|pp: int, cc: int| #![trigger prevs@[pp], cands@[cc]] 0 <= pp < p && 0 <= cc < cands@.len() ==>
                    has_ext(cur@, prevs@[pp], cands@[cc].word@, cands@[cc].weight),
                cur@.len() < lim ==> forall|cc: int| #![trigger cands@[cc]] 0 <= cc < c ==>
                    has_ext(cur@, prevs@[p as int], cands@[cc].word@, cands@[cc].weight),
                combined(o, cur@, prevs@, cands@, p as int, c as int, lim as int),
            decreases cands@.len() - c,
        {
            let cand = &cands[c];
            let mut words = clone_strings(&prev.words);
            let ghost wv = words@;
            words.push(cand.word.clone());
            assert(strings_view(words@) =~= strings_view(wv).push(cand.word@));
            let score = prev.score.saturating_add(cand.weight);
            let item = SentenceCandidate { words, score };
            proof {
                let e = sel[c as int];
                lemma_cut_extend(d, xs, j as int, i as int, es_prev, e);
                let es_new = es_prev.push(e);
                assert(es_new.map_values(|x: PinyinEntry| x.1) =~= es_prev.map_values(|x: PinyinEntry| x.1).push(e.1));
                assert(strings_view(item.words@) =~= es_new.map_values(|x: PinyinEntry| x.1));
                assert(sentence_of(d, xs.take(i as int), item));
            }
            let ghost before = cur@;
            insert_sorted(cur, item, lim);
            proof {
                ins = ins + 1;
                lemma_score_pos_range(before, item.score);
                assert(extends(item, prevs@[p as int], cands@[c as int].word@, cands@[c as int].weight));
                lemma_add_step(o, before, prevs@, cands@, p as int, c as int, lim as int, item);
                assert(cur@ == inserted(before, item, lim as int));
                assert(extends(item, prevs@[p as int], cands@[c as int].word@, cands@[c as int].weight));
                if cur@.len() < lim {
                    lemma_combination_kept(o, before, cur@, item, prevs@, cands@, p as int, c as int, lim as int);
                }
            }
            c += 1;
        }
        proof {
            lemma_combined_next(o, cur@, prevs@, cands@, p as int, lim as int);
            if cur@.len() < lim {
                assert forall|pp: int, cc: int| #![trigger prevs@[pp], cands@[cc]] 0 <= pp < p + 1 && 0 <= cc < cands@.len() implies
                    has_ext(cur@, prevs@[pp], cands@[cc].word@, cands@[cc].weight) by {
                    if pp == p {
                        assert(0 <= cc < c);
                    }
                }
            }
        }
        p += 1;
    }
}

/// After inserting a combination into a list that is not full: the earlier
/// entries, the earlier combinations and the new one are all in it.
proof fn lemma_combination_kept(o: Seq<SentenceCandidate>, before: Seq<SentenceCandidate>, after: Seq<SentenceCandidate>,
    item: SentenceCandidate, prevs: Seq<SentenceCandidate>, cands: Seq<PinyinCandidate>, p: int, c: int, lim: int)
    requires
        0 <= p < prevs.len(),
        0 <= c < cands.len(),
        after.len() < lim,
        before.len() < lim,
        after == before.insert(score_pos(before, item.score), item),
        extends(item, prevs[p], cands[c].word@, cands[c].weight),
        includes(before, o),
        forall|pp: int, cc: int| #![trigger prevs[pp], cands[cc]] 0 <= pp < p && 0 <= cc < cands.len() ==>
            has_ext(before, prevs[pp], cands[cc].word@, cands[cc].weight),
        forall|cc: int| #![trigger cands[cc]] 0 <= cc < c ==>
            has_ext(before, prevs[p], cands[cc].word@, cands[cc].weight),
    ensures
        includes(after, o),
        forall|pp: int, cc: int| #![trigger prevs[pp], cands[cc]] 0 <= pp < p && 0 <= cc < cands.len() ==>
            has_ext(after, prevs[pp], cands[cc].word@, cands[cc].weight),
        forall|cc: int| #![trigger cands[cc]] 0 <= cc < c + 1 ==>
            has_ext(after, prevs[p], cands[cc].word@, cands[cc].weight),
{
    let pos = score_pos(before, item.score);
    lemma_score_pos_range(before, item.score);
    lemma_insert_includes(before, pos, item);
    lemma_includes_trans(o, before, after);
    assert forall|pp: int, cc: int| #![trigger prevs[pp], cands[cc]] 0 <= pp < p && 0 <= cc < cands.len() implies
        has_ext(after, prevs[pp], cands[cc].word@, cands[cc].weight) by {
        lemma_includes_ext(after, before, prevs[pp], cands[cc].word@, cands[cc].weight);
    }
    assert forall|cc: int| #![trigger cands[cc]] 0 <= cc < c + 1 implies
        has_ext(after, prevs[p], cands[cc].word@, cands[cc].weight) by {
        if cc < c {
            lemma_includes_ext(after, before, prevs[p], cands[cc].word@, cands[cc].weight);
        } else {
            assert(extends(after[pos], prevs[p], cands[cc].word@, cands[cc].weight));
        }
    }
}

proof fn lemma_score_pos_range(v: Seq<SentenceCandidate>, s: u32)
    ensures
        0 <= score_pos(v, s) <= v.len(),
    decreases v.len(),
{
    if v.len() > 0 {
        lemma_score_pos_range(v.drop_last(), s);
    }
}

/// Composes sentences for a pinyin run: every cut of the delimiter-free input
/// into dictionary codes is a sentence scored by its words' weights (the sum
/// saturates at `u32::MAX`); the best `max_results` (64 when it is 0) come
/// back, best first. Empty input, and input longer than 64 characters, give
/// no sentence.
pub fn compose(input: &str, dict: &PinyinDict, max_results: usize) -> (r: Vec<SentenceCandidate>)
    ensures
        ({
            let x = normalize_spec(input@);
            if x.len() == 0 || x.len() > MAX_COMPOSE_INPUT_LEN {
                r@.len() == 0
            } else {
                composed(dict@, x, result_limit(max_results), r@)
            }
        }),
{
    let cs = chars_of(input);
    let x = strip_delimiter_chars(&cs);
    let n = x.len();
    if n == 0 || n > MAX_COMPOSE_INPUT_LEN {
        return Vec::new();
    }
    let ghost d = dict@;
    let ghost xs = x@;
    proof {
        lemma_no_delimiters(input@);
    }
    let lim: usize = if max_results == 0 { 64 } else { max_results };
    let mut dp: Vec<Vec<SentenceCandidate>> = Vec::new();
    let start = SentenceCandidate { words: Vec::new(), score: 0 };
    proof {
        let es0 = Seq::<PinyinEntry>::empty();
        assert(xs.take(0) =~= Seq::<char>::empty());
        assert(is_cut(d, xs.take(0), es0));
        assert(strings_view(start.words@) =~= es0.map_values(|e: PinyinEntry| e.1));
        assert(sentence_of(d, xs.take(0), start));
        assert forall|es: Seq<PinyinEntry>| #[trigger] is_cut(d, xs.take(0), es) implies
            clamp_score(weight_sum(es)) <= 0 && listed_sentence(seq![start], es) by {
            lemma_concat_len(es);
            assert(es =~= es0);
            assert(seq![start][0] == start);
            assert(sentence_is(start, es));
        }
    }
    dp.push(vec![start]);
    let mut i: usize = 1;
    while i <= n
        invariant
            1 <= i <= n + 1,
            n == xs.len(),
            x@ == xs,
            xs == normalize_spec(input@),
            d == dict@,
            n <= MAX_COMPOSE_INPUT_LEN,
            lim >= 1,
            lim == result_limit(max_results),
            forall|k: int| 0 <= k < xs.len() ==> !is_delimiter(#[trigger] xs[k]),
            dp@.len() == i,
            forall|t: int| 0 <= t < i ==> #[trigger] composed_at(d, xs, t, lim as int, dp@[t]@),
        decreases n + 1 - i,
    {
        let mut cur: Vec<SentenceCandidate> = Vec::new();
        let mut j: usize = 0;
        while j < i
            invariant
                1 <= i <= n,
                j <= i,
                n == xs.len(),
                x@ == xs,
                d == dict@,
                lim >= 1,
                forall|k: int| 0 <= k < xs.len() ==> !is_delimiter(#[trigger] xs[k]),
                dp@.len() == i,
                forall|t: int| 0 <= t < i ==> #[trigger] composed_at(d, xs, t, lim as int, dp@[t]@),
                partial_at(d, xs, i as int, j as int, lim as int, cur@),
            decreases i - j,
        {
            let seg = sub_chars(x.as_slice(), j, i);
            let segs = string_of(seg.as_slice());
            proof {
                assert forall|k: int| 0 <= k < seg@.len() implies !is_delimiter(#[trigger] seg@[k]) by {
                    assert(seg@[k] == xs[j + k]);
                }
                lemma_strip_identity(seg@);
            }
            let cands = dict.exact_limited(segs.as_str(), lim);
            let ghost sel = d.filter(crate::pinyin::py_code_is(seg@));
            assert(seg@ == xs.subrange(j as int, i as int));
            let ghost w0: int = if cands@.len() > 0 { cands@[0].weight as int } else { 0 };
            proof {
                assert forall|e: PinyinEntry| #[trigger] d.contains(e) && e.0 == xs.subrange(j as int, i as int)
                    implies cands@.len() > 0 && e.2 <= w0 by {
                    let k = choose|k: int| 0 <= k < d.len() && d[k] == e;
                    assert(d[k].0 == normalize_spec(segs@));
                }
            }
            let prevs = &dp[j];
            let ghost before = cur@;
            assert(composed_at(d, xs, j as int, lim as int, dp@[j as int]@));
            if cands.len() > 0 && prevs.len() > 0 {
                add_combinations(&mut cur, prevs, &cands, lim, Ghost(d), Ghost(xs), Ghost(sel), j, i);
            }
            proof {
                assert(composed_at(d, xs, j as int, lim as int, dp@[j as int]@));
                lemma_step(d, xs, i as int, j as int, lim as int, before, cur@, dp@[j as int]@, cands@, sel,
                    cands@.len() > 0 && dp@[j as int]@.len() > 0);
                if !(cands@.len() > 0 && dp@[j as int]@.len() > 0) {
                    assert forall|z: SentenceCandidate| covers_item(before, lim as int, z)
                        implies #[trigger] covers_item(cur@, lim as int, z) by {}
                    assert forall|s: int| reach(before, lim as int, s) implies #[trigger] reach(cur@, lim as int, s) by {}
                }
                assert forall|es: Seq<PinyinEntry>, e: PinyinEntry|
                    #[trigger] is_cut(d, xs.take(j as int), es) && #[trigger] d.contains(e) && e.0 == xs.subrange(j as int, i as int)
                    implies covers_cut(cur@, lim as int, es.push(e)) by {
                    lemma_cover_one(d, xs, i as int, j as int, lim as int, before, cur@, dp@[j as int]@, cands@, sel, es, e);
                }
                lemma_partial_step(d, xs, i as int, j as int, lim as int, before, cur@, dp@[j as int]@,
                    cands@.len() > 0, w0);
            }
            j += 1;
        }
        proof {
            lemma_partial_done(d, xs, i as int, lim as int, cur@);
        }
        let ghost dp0 = dp@;
        dp.push(cur);
        proof {
            assert forall|t: int| 0 <= t < i + 1 implies #[trigger] composed_at(d, xs, t, lim as int, dp@[t]@) by {
                if t < i {
                    assert(dp@[t] == dp0[t]);
                }
            }
        }
        i += 1;
    }
    let ghost dp0 = dp@;
    let r = dp.pop().unwrap();
    proof {
        assert(composed_at(d, xs, n as int, lim as int, dp0[n as int]@));
        assert(xs.take(n as int) == xs);
    }
    r
}

} // verus!
