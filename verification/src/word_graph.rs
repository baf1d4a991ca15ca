//! The word graph (after librime's Poet::WordGraph): dictionary words, and
//! optionally learned user phrases, laid over the syllable graph.
//!
//! Ranking sentences over this graph scores with floating point and is left
//! to the application.
use vstd::prelude::*;
use crate::pinyin::{PinyinDict, PinyinEntry, py_code_is, normalize_spec};
use crate::segmentation::{SyllableGraph, EdgeView, graph_edges, edges_view, edge_view, at_most};
use crate::user_dict::{UserDict, LearnEntry, words_of_code, count_desc, word_pairs_view};
use crate::seqs::stable_sort_by;
use crate::text::{str_eq, ascii_chars};

verus! {

/// A word spanning the spelling positions `start..end`.
#[derive(Debug, Clone, PartialEq)]
pub struct WordEdge {
    pub start: usize,
    pub end: usize,
    pub word: String,
    pub weight: u32,
}

/// A word edge as seen by the contracts: (start, end, word, weight).
pub type WordView = (usize, usize, Seq<char>, u32);

pub open spec fn word_view(e: WordEdge) -> WordView {
    (e.start, e.end, e.word@, e.weight)
}

pub open spec fn words_view(v: Seq<WordEdge>) -> Seq<WordView> {
    v.map_values(|e: WordEdge| word_view(e))
}

/// All of `s`, or its first `limit` items when `0 < limit < s.len()`.
pub open spec fn limited<A>(s: Seq<A>, limit: usize) -> Seq<A> {
    if limit == 0 || limit >= s.len() { s } else { s.take(limit as int) }
}

/// The dictionary entry `e` as a word on the syllable edge `g`.
pub open spec fn on_edge(g: EdgeView) -> spec_fn(PinyinEntry) -> WordView {
    |e: PinyinEntry| (g.0, g.1, e.1, e.2)
}

/// The words on one syllable edge: the entries with its code, in
/// dictionary order, at most `limit` of them when `limit > 0`.
pub open spec fn words_on(d: Seq<PinyinEntry>, g: EdgeView, limit: usize) -> Seq<WordView> {
    limited(d.filter(py_code_is(normalize_spec(g.2))), limit).map_values(on_edge(g))
}

/// The words on each syllable edge of `gs`, edge after edge.
pub open spec fn words_over(d: Seq<PinyinEntry>, gs: Seq<EdgeView>, limit: usize) -> Seq<WordView>
    decreases gs.len(),
{
    if gs.len() == 0 {
        Seq::empty()
    } else {
        words_over(d, gs.drop_last(), limit) + words_on(d, gs.last(), limit)
    }
}

/// The word graph of `raw`.
pub open spec fn word_graph_spec(d: Seq<PinyinEntry>, raw: Seq<char>, limit: usize) -> Seq<WordView> {
    words_over(d, graph_edges(d, raw, false), limit)
}

/// Some word edge spans `s..e` with the word `w`.
pub open spec fn has_word_edge(es: Seq<WordView>, s: usize, e: usize, w: Seq<char>) -> bool {
    exists|k: int| 0 <= k < es.len() && (#[trigger] es[k]).0 == s && es[k].1 == e && es[k].2 == w
}

/// Learned words of the syllable edge `g`, in order, each added unless an
/// edge with the same span and word is already there.
pub open spec fn add_learned(cur: Seq<WordView>, g: EdgeView, ws: Seq<(Seq<char>, u32)>) -> Seq<WordView>
    decreases ws.len(),
{
    if ws.len() == 0 {
        cur
    } else {
        let prev = add_learned(cur, g, ws.drop_last());
        let w = ws.last();
        if has_word_edge(prev, g.0, g.1, w.0) { prev } else { prev.push((g.0, g.1, w.0, w.1)) }
    }
}

pub open spec fn at_least_one(limit: usize) -> int {
    if limit == 0 { 1 } else { limit as int }
}

/// Learned words over each syllable edge of `gs`: for each edge, its
/// most chosen words (at most `max(limit, 1)`).
pub open spec fn learned_over(u: Seq<LearnEntry>, cur: Seq<WordView>, gs: Seq<EdgeView>, limit: usize) -> Seq<WordView>
    decreases gs.len(),
{
    if gs.len() == 0 {
        cur
    } else {
        add_learned(learned_over(u, cur, gs.drop_last(), limit), gs.last(),
            at_most(stable_sort_by(words_of_code(u, gs.last().2), count_desc()), at_least_one(limit)))
    }
}

/// The word graph with learned phrases as extra edges.
pub open spec fn user_word_graph_spec(d: Seq<PinyinEntry>, u: Option<Seq<LearnEntry>>, raw: Seq<char>, limit: usize) -> Seq<WordView> {
    match u {
        None => word_graph_spec(d, raw, limit),
        Some(u) => learned_over(u, word_graph_spec(d, raw, limit), graph_edges(d, raw, false), limit),
    }
}

proof fn lemma_words_push(v: Seq<WordEdge>, x: WordEdge)
    ensures
        words_view(v.push(x)) == words_view(v).push(word_view(x)),
{
    assert(words_view(v.push(x)) =~= words_view(v).push(word_view(x)));
}

/// Every dictionary word of every syllable edge of the graph of `input`,
/// in edge order, at most `per_code_limit` per edge when it is not 0.
pub fn build_word_graph(input: &str, dict: &PinyinDict, per_code_limit: usize) -> (r: Vec<WordEdge>)
    requires
        input@.len() < usize::MAX,
        ascii_chars(input@),
    ensures
        words_view(r@) == word_graph_spec(dict@, input@, per_code_limit),
{
    let graph = SyllableGraph::build(input, dict);
    let ghost gs = edges_view(graph.edges@);
    let mut out: Vec<WordEdge> = Vec::new();
    let mut i: usize = 0;
    while i < graph.edges.len()
        invariant
            i <= graph.edges@.len(),
            gs == edges_view(graph.edges@),
            words_view(out@) == words_over(dict@, gs.take(i as int), per_code_limit),
        decreases graph.edges@.len() - i,
    {
        let e = &graph.edges[i];
        let ghost g = edge_view(*e);
        let ghost sel = limited(dict@.filter(py_code_is(normalize_spec(e.code@))), per_code_limit);
        let cands = dict.exact_limited(e.code.as_str(), per_code_limit);
        let ghost base = words_view(out@);
        assert(sel.map_values(on_edge(g)).take(0) =~= Seq::<WordView>::empty());
        let mut j: usize = 0;
        while j < cands.len()
            invariant
                j <= cands@.len(),
                cands@.len() == sel.len(),
                forall|k: int| 0 <= k < cands@.len() ==> (#[trigger] cands@[k]).word@ == sel[k].1 && cands@[k].weight == sel[k].2,
                g == edge_view(*e),
                words_view(out@) == base + sel.map_values(on_edge(g)).take(j as int),
            decreases cands@.len() - j,
        {
            let w = WordEdge { start: e.start, end: e.end, word: cands[j].word.clone(), weight: cands[j].weight };
            proof {
                lemma_words_push(out@, w);
                assert(sel.map_values(on_edge(g)).take(j + 1) =~= sel.map_values(on_edge(g)).take(j as int).push(word_view(w)));
            }
            out.push(w);
            j += 1;
        }
        proof {
            assert(sel.map_values(on_edge(g)).take(j as int) =~= sel.map_values(on_edge(g)));
            assert(gs.take(i + 1).drop_last() == gs.take(i as int));
            assert(gs.take(i + 1).last() == g);
        }
        i += 1;
    }
    assert(gs.take(graph.edges@.len() as int) == gs);
    out
}

/// Whether `out` already has a word edge spanning `s..e` with `word`.
fn has_word_edge_exec(out: &Vec<WordEdge>, s: usize, e: usize, word: &str) -> (b: bool)
    ensures
        b == has_word_edge(words_view(out@), s, e, word@),
{
    let ghost ov = words_view(out@);
    let mut k: usize = 0;
    while k < out.len()
        invariant
            k <= out@.len(),
            ov == words_view(out@),
            forall|j: int| 0 <= j < k ==> !((#[trigger] ov[j]).0 == s && ov[j].1 == e && ov[j].2 == word@),
        decreases out@.len() - k,
    {
        assert(ov[k as int] == word_view(out@[k as int]));
        if out[k].start == s && out[k].end == e && str_eq(out[k].word.as_str(), word) {
            return true;
        }
        k += 1;
    }
    false
}

/// The word graph, plus each learned phrase of a syllable edge's code
/// (most chosen first, at most `max(per_code_limit, 1)` per edge) as an
/// extra edge unless that span already has the word.
pub fn build_word_graph_with_user(
    input: &str,
    dict: &PinyinDict,
    user_dict: Option<&UserDict>,
    per_code_limit: usize,
) -> (r: Vec<WordEdge>)
    requires
        input@.len() < usize::MAX,
        ascii_chars(input@),
    ensures
        words_view(r@) == user_word_graph_spec(dict@, match user_dict { Some(u) => Some(u@), None => None }, input@, per_code_limit),
{
    let mut edges = build_word_graph(input, dict, per_code_limit);
    let user = match user_dict {
        Some(u) => u,
        None => return edges,
    };
    let ghost base = words_view(edges@);
    let graph = SyllableGraph::build(input, dict);
    let ghost gs = edges_view(graph.edges@);
    let take = if per_code_limit == 0 { 1 } else { per_code_limit };
    let mut i: usize = 0;
    while i < graph.edges.len()
        invariant
            i <= graph.edges@.len(),
            gs == edges_view(graph.edges@),
            take == at_least_one(per_code_limit),
            words_view(edges@) == learned_over(user@, base, gs.take(i as int), per_code_limit),
        decreases graph.edges@.len() - i,
    {
        let e = &graph.edges[i];
        let ghost g = edge_view(*e);
        let ws = user.composition_words(e.code.as_str());
        let ghost wv = word_pairs_view(ws@);
        let ghost sel = at_most(wv, take as int);
        let ghost before = words_view(edges@);
        assert(sel.take(0) =~= Seq::<(Seq<char>, u32)>::empty());
        let mut j: usize = 0;
        while j < ws.len() && j < take
            invariant
                j <= ws@.len(),
                j <= take,
                wv == word_pairs_view(ws@),
                sel == at_most(wv, take as int),
                g == edge_view(*e),
                words_view(edges@) == add_learned(before, g, sel.take(j as int)),
            decreases ws@.len() - j,
        {
            proof {
                assert(sel.take(j + 1).drop_last() == sel.take(j as int));
                assert(sel.take(j + 1).last() == wv[j as int]);
                assert(wv[j as int] == (ws@[j as int].0@, ws@[j as int].1));
            }
            if !has_word_edge_exec(&edges, e.start, e.end, ws[j].0.as_str()) {
                let w = WordEdge { start: e.start, end: e.end, word: ws[j].0.clone(), weight: ws[j].1 };
                proof { lemma_words_push(edges@, w); }
                edges.push(w);
            }
            j += 1;
        }
        proof {
            assert(sel.take(j as int) == sel);
            assert(gs.take(i + 1).drop_last() == gs.take(i as int));
            assert(gs.take(i + 1).last() == g);
        }
        i += 1;
    }
    assert(gs.take(graph.edges@.len() as int) == gs);
    edges
}

} // verus!
