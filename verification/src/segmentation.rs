//! The pinyin syllable graph (after librime's SyllableGraph).
//!
//! Vertices are positions in the delimiter-free spelling; an edge spells a
//! dictionary code between two of them. A typed delimiter stops edges from
//! crossing it, and is not part of any code. The spelling is ASCII, so a
//! position is both a byte offset and a character index.
use vstd::prelude::*;
use crate::pinyin::{PinyinDict, PinyinEntry, MatchView, char_matches_spec, matches_view, distinct_codes,
    abbreviated_by, py_code_between, prefix_upper, normalize_spec};
use crate::projection::{project_chars_spec, chars_acc, project_chars};
use crate::text::{ascii_chars, byte_len, lemma_byte_len_ascii, seq_lt, strip_delimiters, is_delimiter, chars_of, string_of, sub_chars, chars_lt, chars_eq,
    char_seqs, string_from, lemma_seq_lt_irreflexive, lemma_seq_lt_transitive, lemma_seq_lt_total, lemma_strip_identity};

verus! {

/// How an edge spells its code.
#[derive(Debug, Clone, Copy, PartialEq, Eq, PartialOrd, Ord, Structural)]
pub enum SpellingType {
    Normal,
    Abbreviation,
    Completion,
    Correction,
}

#[derive(Debug, Clone, Copy, PartialEq, Eq, Structural)]
pub struct EdgeProperties {
    pub spelling_type: SpellingType,
    pub credibility: i32,
    pub original_start: usize,
    pub original_end: usize,
}

#[derive(Debug, Clone, PartialEq, Eq)]
pub struct SyllableEdge {
    pub start: usize,
    pub end: usize,
    pub code: String,
    pub properties: EdgeProperties,
}

/// The syllable graph of an input: its spelling, its length, how far the
/// edges reach from the start, and the edges by (start, end, code).
///
/// The graph is built on ASCII input only, where lengths and positions are
/// at once byte offsets and character indices of the spelling.
#[derive(Debug, Clone, PartialEq, Eq)]
pub struct SyllableGraph {
    pub original_input: String,
    pub input: String,
    pub input_length: usize,
    pub interpreted_length: usize,
    pub edges: Vec<SyllableEdge>,
}

/// An edge as seen by the contracts: (start, end, code, properties).
pub type EdgeView = (usize, usize, Seq<char>, EdgeProperties);

pub open spec fn edge_view(e: SyllableEdge) -> EdgeView {
    (e.start, e.end, e.code@, e.properties)
}

pub open spec fn edges_view(v: Seq<SyllableEdge>) -> Seq<EdgeView> {
    v.map_values(|e: SyllableEdge| edge_view(e))
}

/// Raw start of the spelling character at `p` (0 past the end).
pub open spec fn range_start(r: Seq<(usize, usize)>, p: int) -> usize {
    if 0 <= p < r.len() { r[p].0 } else { 0 }
}

/// Raw end of the spelling character before `end` (0 when none).
pub open spec fn range_end(r: Seq<(usize, usize)>, end: int) -> usize {
    let q = if end > 0 { end - 1 } else { 0 };
    if q < r.len() { r[q].1 } else { 0 }
}

/// A delimiter lies strictly inside `s..e`.
pub open spec fn crosses(b: Seq<usize>, s: int, e: int) -> bool {
    exists|k: int| 0 <= k < b.len() && s < #[trigger] b[k] < e
}

/// Normal edges from `s` for the matches `ms` (code length, word, weight),
/// in order, dropping those that cross a delimiter.
pub open spec fn edges_of_matches(xs: Seq<char>, r: Seq<(usize, usize)>, b: Seq<usize>, s: int, ms: Seq<MatchView>) -> Seq<EdgeView>
    decreases ms.len(),
{
    if ms.len() == 0 {
        Seq::empty()
    } else {
        let prev = edges_of_matches(xs, r, b, s, ms.drop_last());
        let e = s + ms.last().0;
        if e <= xs.len() && !crosses(b, s, e) {
            prev.push((s as usize, e as usize, xs.subrange(s, e),
                EdgeProperties { spelling_type: SpellingType::Normal, credibility: 0,
                    original_start: range_start(r, s), original_end: range_end(r, e) }))
        } else {
            prev
        }
    }
}

/// Normal edges from the starts before `s`, in order.
pub open spec fn normal_upto(d: Seq<PinyinEntry>, xs: Seq<char>, r: Seq<(usize, usize)>, b: Seq<usize>, s: int) -> Seq<EdgeView>
    decreases s,
{
    if s <= 0 {
        Seq::empty()
    } else {
        normal_upto(d, xs, r, b, s - 1) + edges_of_matches(xs, r, b, s - 1, char_matches_spec(d, xs.skip(s - 1)))
    }
}

/// Codes of dictionary entries that extend `xs` (other than `xs`), in
/// order, one per entry.
pub open spec fn completion_prefix_codes(d: Seq<PinyinEntry>, xs: Seq<char>) -> Seq<Seq<char>> {
    d.filter(py_code_between(xs, prefix_upper(xs))).map_values(entry_code()).filter(other_than(xs))
}

pub open spec fn entry_code() -> spec_fn(PinyinEntry) -> Seq<char> {
    |e: PinyinEntry| e.0
}

pub open spec fn other_than(xs: Seq<char>) -> spec_fn(Seq<char>) -> bool {
    |c: Seq<char>| c != xs
}

/// At most `k` items.
pub open spec fn at_most<A>(s: Seq<A>, k: int) -> Seq<A> {
    if k < s.len() { s.take(k) } else { s }
}

/// Reachability marks after the edges leaving `s` are followed.
pub open spec fn mark_from(f: Seq<bool>, es: Seq<EdgeView>, s: int) -> Seq<bool>
    decreases es.len(),
{
    if es.len() == 0 {
        f
    } else {
        let g = mark_from(f, es.drop_last(), s);
        let e = es.last();
        if e.0 == s && e.1 < g.len() { g.update(e.1 as int, true) } else { g }
    }
}

/// Reachability marks of positions `0..=n` after the starts before `s`
/// were visited in order (position 0 is reachable).
pub open spec fn flags_upto(es: Seq<EdgeView>, n: int, s: int) -> Seq<bool>
    decreases s,
{
    if s <= 0 {
        Seq::new((n + 1) as nat, |p: int| p == 0)
    } else {
        let f = flags_upto(es, n, s - 1);
        if f[s - 1] { mark_from(f, es, s - 1) } else { f }
    }
}

/// The edges whose start is marked, in order.
pub open spec fn keep_reached(es: Seq<EdgeView>, f: Seq<bool>) -> Seq<EdgeView>
    decreases es.len(),
{
    if es.len() == 0 {
        Seq::empty()
    } else {
        let prev = keep_reached(es.drop_last(), f);
        if 0 <= es.last().0 < f.len() && f[es.last().0 as int] { prev.push(es.last()) } else { prev }
    }
}

/// The last marked position at or before `p`.
pub open spec fn last_marked(f: Seq<bool>, p: int) -> int
    decreases p,
{
    if p <= 0 {
        0
    } else if p < f.len() && f[p] {
        p
    } else {
        last_marked(f, p - 1)
    }
}

/// Edge order: by start, end, then code.
pub open spec fn edge_lt(a: EdgeView, b: EdgeView) -> bool {
    a.0 < b.0 || (a.0 == b.0 && (a.1 < b.1 || (a.1 == b.1 && seq_lt(a.2, b.2))))
}

/// Same (start, end, code).
pub open spec fn same_key(a: EdgeView, b: EdgeView) -> bool {
    a.0 == b.0 && a.1 == b.1 && a.2 == b.2
}

/// `x` is the first edge of `all` with its key.
#[verifier::opaque]
pub open spec fn first_of_key(all: Seq<EdgeView>, x: EdgeView) -> bool {
    exists|k: int| 0 <= k < all.len() && all[k] == x && forall|j: int| 0 <= j < k ==> !same_key(#[trigger] all[j], x)
}

/// `r` is `all` sorted by (start, end, code), each key once, keeping the
/// first edge of `all` with that key.
#[verifier::opaque]
pub open spec fn sorted_dedup_of(all: Seq<EdgeView>, r: Seq<EdgeView>) -> bool {
    &&& forall|i: int, j: int| 0 <= i < j < r.len() ==> edge_lt(#[trigger] r[i], #[trigger] r[j])
    &&& forall|i: int| 0 <= i < r.len() ==> first_of_key(all, #[trigger] r[i])
    &&& forall|k: int| 0 <= k < all.len() ==> covered(r, #[trigger] all[k])
}

/// Some edge of `r` has the key of `y`.
pub open spec fn covered(r: Seq<EdgeView>, y: EdgeView) -> bool {
    exists|m: int| 0 <= m < r.len() && same_key(#[trigger] r[m], y)
}

/// Edges spelling each of `cs` from `s` to `e`, with properties `p`.
pub open spec fn span_edges(cs: Seq<Seq<char>>, s: usize, e: usize, p: EdgeProperties) -> Seq<EdgeView> {
    cs.map_values(|code: Seq<char>| (s, e, code, p))
}

pub open spec fn props(t: SpellingType, c: i32, os: usize, oe: usize) -> EdgeProperties {
    EdgeProperties { spelling_type: t, credibility: c, original_start: os, original_end: oe }
}

/// The graph of `raw` before sorting, as (spelling, interpreted length,
/// edges in the order they were found).
pub open spec fn graph_spec(d: Seq<PinyinEntry>, raw: Seq<char>, abbreviate: bool) -> (Seq<char>, int, Seq<EdgeView>) {
    let (xs, r, b) = project_chars_spec(raw);
    let n = xs.len() as int;
    let (os, oe) = (range_start(r, 0), range_end(r, r.len() as int));
    let normal = normal_upto(d, xs, r, b, n);
    let extra = if abbreviate {
        span_edges(at_most(distinct_codes(d).filter(abbreviated_by(d, xs)), 64), 0, n as usize,
            props(SpellingType::Abbreviation, -230i32, os, oe))
            + span_edges(completion_prefix_codes(d, xs), 0, n as usize, props(SpellingType::Completion, -300i32, os, oe))
    } else {
        Seq::empty()
    };
    let e0 = normal + extra;
    let f = flags_upto(e0, n, n + 1);
    let kept = keep_reached(e0, f);
    let far0 = last_marked(f, n);
    let tail = if far0 < n {
        span_edges(distinct_codes(d.filter(py_code_between(xs.skip(far0), prefix_upper(xs.skip(far0))))),
            far0 as usize, n as usize,
            props(SpellingType::Completion, -300i32, range_start(r, far0), range_end(r, r.len() as int)))
    } else {
        Seq::empty()
    };
    let all = kept + tail;
    let far = if far0 < n && completes_tail(all, far0, n) { n } else { far0 };
    (xs, far, all)
}

// ── building the graph ─────────────────────────────────────────────────

/// The full-pinyin spelling holds no delimiter, is no longer than the raw
/// input, and is ASCII when the raw input is.
proof fn lemma_chars_acc(raw: Seq<char>, n: int)
    requires
        0 <= n <= raw.len(),
    ensures
        chars_acc(raw, n).0.0.len() <= n,
        forall|k: int| 0 <= k < chars_acc(raw, n).0.0.len() ==> !is_delimiter(#[trigger] chars_acc(raw, n).0.0[k]),
        ascii_chars(raw) ==> ascii_chars(chars_acc(raw, n).0.0),
    decreases n,
{
    if n > 0 {
        lemma_chars_acc(raw, n - 1);
        let p = chars_acc(raw, n - 1).0;
        if !is_delimiter(raw[n - 1]) {
            assert forall|k: int| 0 <= k < chars_acc(raw, n).0.0.len() implies !is_delimiter(#[trigger] chars_acc(raw, n).0.0[k]) by {
                if k < p.0.len() {
                    assert(chars_acc(raw, n).0.0[k] == p.0[k]);
                }
            }
            if ascii_chars(raw) {
                assert forall|k: int| 0 <= k < chars_acc(raw, n).0.0.len() implies (#[trigger] chars_acc(raw, n).0.0[k] as u32) < 0x80 by {
                    if k < p.0.len() {
                        assert(chars_acc(raw, n).0.0[k] == p.0[k]);
                    } else {
                        assert(chars_acc(raw, n).0.0[k] == raw[n - 1]);
                    }
                }
            }
        }
    }
}

fn range_start_exec(r: &Vec<(usize, usize)>, p: usize) -> (x: usize)
    ensures
        x == range_start(r@, p as int),
{
    if p < r.len() { r[p].0 } else { 0 }
}

fn range_end_exec(r: &Vec<(usize, usize)>, end: usize) -> (x: usize)
    ensures
        x == range_end(r@, end as int),
{
    let q = if end > 0 { end - 1 } else { 0 };
    if q < r.len() { r[q].1 } else { 0 }
}

fn crosses_exec(b: &Vec<usize>, s: usize, e: usize) -> (c: bool)
    ensures
        c == crosses(b@, s as int, e as int),
{
    let mut k: usize = 0;
    while k < b.len()
        invariant
            k <= b@.len(),
            forall|j: int| 0 <= j < k ==> !(s < #[trigger] b@[j] < e),
        decreases b@.len() - k,
    {
        if s < b[k] && b[k] < e {
            return true;
        }
        k += 1;
    }
    false
}

fn copy_edge(e: &SyllableEdge) -> (c: SyllableEdge)
    ensures
        edge_view(c) == edge_view(*e),
{
    SyllableEdge { start: e.start, end: e.end, code: e.code.clone(), properties: e.properties }
}

proof fn lemma_edges_push(v: Seq<SyllableEdge>, x: SyllableEdge)
    ensures
        edges_view(v.push(x)) == edges_view(v).push(edge_view(x)),
{
    assert(edges_view(v.push(x)) =~= edges_view(v).push(edge_view(x)));
}

/// Normal edges of every start, in order of start and then of match.
fn normal_edges(dict: &PinyinDict, xs: &Vec<char>, r: &Vec<(usize, usize)>, b: &Vec<usize>) -> (es: Vec<SyllableEdge>)
    requires
        forall|k: int| 0 <= k < xs@.len() ==> !is_delimiter(#[trigger] xs@[k]),
    ensures
        edges_view(es@) == normal_upto(dict@, xs@, r@, b@, xs@.len() as int),
{
    let n = xs.len();
    let mut es: Vec<SyllableEdge> = Vec::new();
    let mut s: usize = 0;
    while s < n
        invariant
            s <= n,
            n == xs@.len(),
            forall|k: int| 0 <= k < xs@.len() ==> !is_delimiter(#[trigger] xs@[k]),
            edges_view(es@) == normal_upto(dict@, xs@, r@, b@, s as int),
        decreases n - s,
    {
        let suffix_chars = sub_chars(xs.as_slice(), s, n);
        let suffix = string_of(suffix_chars.as_slice());
        proof {
            assert(xs@.subrange(s as int, n as int) =~= xs@.skip(s as int));
            assert forall|k: int| 0 <= k < xs@.skip(s as int).len() implies !is_delimiter(#[trigger] xs@.skip(s as int)[k]) by {
                assert(xs@.skip(s as int)[k] == xs@[s + k]);
            }
            lemma_strip_identity(xs@.skip(s as int));
        }
        let ms = dict.char_matches(suffix.as_str());
        let ghost msv = matches_view(ms@);
        assert(msv == char_matches_spec(dict@, xs@.skip(s as int)));
        let ghost base = edges_view(es@);
        let mut j: usize = 0;
        while j < ms.len()
            invariant
                j <= ms@.len(),
                s < n,
                n == xs@.len(),
                msv == matches_view(ms@),
                edges_view(es@) == base + edges_of_matches(xs@, r@, b@, s as int, msv.take(j as int)),
            decreases ms@.len() - j,
        {
            let len = ms[j].0;
            proof {
                assert(msv.take(j + 1).drop_last() == msv.take(j as int));
                assert(msv.take(j + 1).last() == msv[j as int]);
                assert(msv[j as int].0 == len as int);
            }
            if len <= n - s {
                let e = s + len;
                if !crosses_exec(b, s, e) {
                    let code = string_of(sub_chars(xs.as_slice(), s, e).as_slice());
                    let os = range_start_exec(r, s);
                    let oe = range_end_exec(r, e);
                    let edge = SyllableEdge { start: s, end: e, code,
                        properties: EdgeProperties { spelling_type: SpellingType::Normal, credibility: 0,
                            original_start: os, original_end: oe } };
                    proof { lemma_edges_push(es@, edge); }
                    es.push(edge);
                }
            }
            j += 1;
        }
        proof {
            assert(msv.take(msv.len() as int) == msv);
            assert(normal_upto(dict@, xs@, r@, b@, s + 1) == normal_upto(dict@, xs@, r@, b@, s as int)
                + edges_of_matches(xs@, r@, b@, s as int, char_matches_spec(dict@, xs@.skip(s as int))));
        }
        s += 1;
    }
    es
}

/// Appends an edge from `s` to `e` with properties `p` for each code.
fn push_span(codes: &Vec<Vec<char>>, s: usize, e: usize, p: EdgeProperties, es: &mut Vec<SyllableEdge>)
    ensures
        edges_view(final(es)@) == edges_view(old(es)@) + span_edges(char_seqs(codes@), s, e, p),
{
    let ghost base = edges_view(es@);
    assert(span_edges(char_seqs(codes@.take(0)), s, e, p) =~= Seq::<EdgeView>::empty());
    assert(base + Seq::<EdgeView>::empty() =~= base);
    let mut i: usize = 0;
    while i < codes.len()
        invariant
            i <= codes@.len(),
            edges_view(es@) == base + span_edges(char_seqs(codes@.take(i as int)), s, e, p),
        decreases codes@.len() - i,
    {
        let code = string_of(codes[i].as_slice());
        let edge = SyllableEdge { start: s, end: e, code, properties: p };
        proof {
            lemma_edges_push(es@, edge);
            assert(span_edges(char_seqs(codes@.take(i + 1)), s, e, p)
                =~= span_edges(char_seqs(codes@.take(i as int)), s, e, p).push(edge_view(edge)));
        }
        es.push(edge);
        i += 1;
    }
    assert(codes@.take(codes@.len() as int) == codes@);
}

/// At most the first `k` codes.
fn first_codes(codes: &Vec<Vec<char>>, k: usize) -> (r: Vec<Vec<char>>)
    ensures
        char_seqs(r@) == at_most(char_seqs(codes@), k as int),
{
    let mut r: Vec<Vec<char>> = Vec::new();
    let mut i: usize = 0;
    while i < codes.len() && i < k
        invariant
            i <= codes@.len(),
            i <= k,
            char_seqs(r@) == char_seqs(codes@).take(i as int),
        decreases codes@.len() - i,
    {
        r.push(codes[i].clone());
        assert(char_seqs(codes@).take(i + 1) =~= char_seqs(codes@).take(i as int).push(codes@[i as int]@));
        assert(char_seqs(r@) =~= char_seqs(codes@).take(i + 1));
        i += 1;
    }
    assert(char_seqs(codes@).take(codes@.len() as int) =~= char_seqs(codes@));
    r
}

/// Codes of the dictionary entries that extend `xs`, other than `xs`.
fn completion_prefix(dict: &PinyinDict, xs: &Vec<char>) -> (r: Vec<Vec<char>>)
    requires
        forall|k: int| 0 <= k < xs@.len() ==> !is_delimiter(#[trigger] xs@[k]),
    ensures
        char_seqs(r@) == completion_prefix_codes(dict@, xs@),
{
    let word = string_of(xs.as_slice());
    proof { lemma_strip_identity(xs@); }
    let found = dict.prefix_with_codes(word.as_str());
    let ghost sel = dict@.filter(py_code_between(xs@, prefix_upper(xs@)));
    let mut r: Vec<Vec<char>> = Vec::new();
    let mut i: usize = 0;
    while i < found.len()
        invariant
            i <= found@.len(),
            found@.len() == sel.len(),
            forall|k: int| 0 <= k < found@.len() ==> (#[trigger] found@[k]).0@ == sel[k].0,
            char_seqs(r@) == sel.take(i as int).map_values(entry_code()).filter(other_than(xs@)),
        decreases found@.len() - i,
    {
        let code = chars_of(found[i].0.as_str());
        let ghost before = sel.take(i as int).map_values(entry_code());
        proof {
            reveal(Seq::filter);
            assert(sel.take(i + 1).map_values(entry_code()) =~= before.push(sel[i as int].0));
            assert(before.push(sel[i as int].0).drop_last() == before);
        }
        if !chars_eq(code.as_slice(), xs.as_slice()) {
            proof { assert(char_seqs(r@.push(code)) =~= char_seqs(r@).push(code@)); }
            r.push(code);
        }
        i += 1;
    }
    assert(sel.take(sel.len() as int) == sel);
    r
}

proof fn lemma_mark_len(f: Seq<bool>, es: Seq<EdgeView>, s: int)
    ensures
        mark_from(f, es, s).len() == f.len(),
    decreases es.len(),
{
    if es.len() > 0 {
        lemma_mark_len(f, es.drop_last(), s);
    }
}

proof fn lemma_flags_len(es: Seq<EdgeView>, n: int, s: int)
    requires
        n >= 0,
    ensures
        flags_upto(es, n, s).len() == n + 1,
    decreases s,
{
    if s > 0 {
        lemma_flags_len(es, n, s - 1);
        lemma_mark_len(flags_upto(es, n, s - 1), es, s - 1);
    }
}

/// Reachability from position 0, visiting starts in order.
fn reach_flags(es: &Vec<SyllableEdge>, n: usize) -> (f: Vec<bool>)
    requires
        n < usize::MAX,
    ensures
        f@ == flags_upto(edges_view(es@), n as int, n + 1),
{
    let ghost ev = edges_view(es@);
    let mut f: Vec<bool> = Vec::new();
    let mut p: usize = 0;
    while p <= n
        invariant
            p <= n + 1,
            n < usize::MAX,
            f@ == Seq::new(p as nat, |q: int| q == 0),
        decreases n + 1 - p,
    {
        f.push(p == 0);
        assert(f@ =~= Seq::new((p + 1) as nat, |q: int| q == 0));
        p += 1;
    }
    assert(f@ == flags_upto(ev, n as int, 0));
    let mut s: usize = 0;
    while s <= n
        invariant
            s <= n + 1,
            n < usize::MAX,
            ev == edges_view(es@),
            f@ == flags_upto(ev, n as int, s as int),
        decreases n + 1 - s,
    {
        proof { lemma_flags_len(ev, n as int, s as int); }
        if f[s] {
            let ghost f0 = f@;
            let mut j: usize = 0;
            while j < es.len()
                invariant
                    j <= es@.len(),
                    ev == edges_view(es@),
                    f@ == mark_from(f0, ev.take(j as int), s as int),
                decreases es@.len() - j,
            {
                proof {
                    assert(ev.take(j + 1).drop_last() == ev.take(j as int));
                    assert(ev.take(j + 1).last() == edge_view(es@[j as int]));
                }
                if es[j].start == s && es[j].end < f.len() {
                    f.set(es[j].end, true);
                }
                j += 1;
            }
            assert(ev.take(es@.len() as int) == ev);
        }
        s += 1;
    }
    f
}

/// The edges whose start is reachable, in order.
fn keep_reachable(es: &Vec<SyllableEdge>, f: &Vec<bool>) -> (k: Vec<SyllableEdge>)
    ensures
        edges_view(k@) == keep_reached(edges_view(es@), f@),
{
    let ghost ev = edges_view(es@);
    let mut k: Vec<SyllableEdge> = Vec::new();
    let mut j: usize = 0;
    while j < es.len()
        invariant
            j <= es@.len(),
            ev == edges_view(es@),
            edges_view(k@) == keep_reached(ev.take(j as int), f@),
        decreases es@.len() - j,
    {
        proof {
            assert(ev.take(j + 1).drop_last() == ev.take(j as int));
            assert(ev.take(j + 1).last() == edge_view(es@[j as int]));
        }
        if es[j].start < f.len() && f[es[j].start] {
            let c = copy_edge(&es[j]);
            proof { lemma_edges_push(k@, c); }
            k.push(c);
        }
        j += 1;
    }
    assert(ev.take(es@.len() as int) == ev);
    k
}

/// The last reachable position at or before `n`.
fn last_reachable(f: &Vec<bool>, n: usize) -> (p: usize)
    ensures
        p == last_marked(f@, n as int),
        p <= n,
{
    let mut p = n;
    while p > 0 && !(p < f.len() && f[p])
        invariant
            p <= n,
            last_marked(f@, n as int) == last_marked(f@, p as int),
        decreases p,
    {
        p -= 1;
    }
    p
}

// ── sorting ────────────────────────────────────────────────────────────

proof fn lemma_edge_lt_irreflexive(a: EdgeView, b: EdgeView)
    ensures
        same_key(a, b) ==> !edge_lt(a, b),
{
    lemma_seq_lt_irreflexive(a.2);
}

proof fn lemma_edge_lt_transitive(a: EdgeView, b: EdgeView, c: EdgeView)
    requires
        edge_lt(a, b),
        edge_lt(b, c),
    ensures
        edge_lt(a, c),
{
    if a.0 == b.0 && b.0 == c.0 && a.1 == b.1 && b.1 == c.1 {
        lemma_seq_lt_transitive(a.2, b.2, c.2);
    }
}

proof fn lemma_edge_lt_total(a: EdgeView, b: EdgeView)
    ensures
        edge_lt(a, b) || edge_lt(b, a) || same_key(a, b),
{
    lemma_seq_lt_total(a.2, b.2);
}

proof fn lemma_first_extend(av: Seq<EdgeView>, i: int, x: EdgeView)
    requires
        0 <= i < av.len(),
        first_of_key(av.take(i), x),
    ensures
        first_of_key(av.take(i + 1), x),
{
    reveal(first_of_key);
    let k = choose|k: int| 0 <= k < av.take(i).len() && av.take(i)[k] == x
        && forall|j: int| 0 <= j < k ==> !same_key(#[trigger] av.take(i)[j], x);
    assert(av.take(i + 1)[k] == x);
    assert forall|j: int| 0 <= j < k implies !same_key(#[trigger] av.take(i + 1)[j], x) by {
        assert(av.take(i + 1)[j] == av.take(i)[j]);
    }
}

/// A key already present: nothing is added.
proof fn lemma_sorted_skip(av: Seq<EdgeView>, i: int, tv: Seq<EdgeView>, p: int)
    requires
        0 <= i < av.len(),
        sorted_dedup_of(av.take(i), tv),
        0 <= p < tv.len(),
        same_key(tv[p], av[i]),
    ensures
        sorted_dedup_of(av.take(i + 1), tv),
{
    reveal(sorted_dedup_of);
    let a1 = av.take(i + 1);
    assert forall|m: int| 0 <= m < tv.len() implies first_of_key(a1, #[trigger] tv[m]) by {
        lemma_first_extend(av, i, tv[m]);
    }
    assert forall|k: int| 0 <= k < a1.len() implies covered(tv, #[trigger] a1[k]) by {
        if k < i {
            assert(a1[k] == av.take(i)[k]);
        } else {
            assert(a1[k] == av[i]);
            assert(same_key(tv[p], a1[k]));
        }
    }
}

/// A new key goes in at its place.
proof fn lemma_sorted_insert(av: Seq<EdgeView>, i: int, tv: Seq<EdgeView>, p: int)
    requires
        0 <= i < av.len(),
        sorted_dedup_of(av.take(i), tv),
        0 <= p <= tv.len(),
        forall|j: int| 0 <= j < p ==> edge_lt(#[trigger] tv[j], av[i]),
        p < tv.len() ==> !edge_lt(tv[p], av[i]) && !same_key(tv[p], av[i]),
    ensures
        sorted_dedup_of(av.take(i + 1), tv.insert(p, av[i])),
{
    reveal(sorted_dedup_of);
    let x = av[i];
    let a0 = av.take(i);
    let a1 = av.take(i + 1);
    let t1 = tv.insert(p, x);
    if p < tv.len() {
        lemma_edge_lt_total(tv[p], x);
    }
    assert forall|j: int| p <= j < tv.len() implies edge_lt(x, #[trigger] tv[j]) by {
        if j > p {
            lemma_edge_lt_transitive(x, tv[p], tv[j]);
        }
    }
    assert forall|j: int| 0 <= j < tv.len() implies !same_key(#[trigger] tv[j], x) by {
        if j < p {
            assert(edge_lt(tv[j], x));
            lemma_edge_lt_irreflexive(tv[j], x);
        } else {
            assert(edge_lt(x, tv[j]));
            lemma_edge_lt_irreflexive(x, tv[j]);
        }
    }
    assert forall|a: int, b: int| 0 <= a < b < t1.len() implies edge_lt(#[trigger] t1[a], #[trigger] t1[b]) by {
        if b < p {
            assert(t1[a] == tv[a] && t1[b] == tv[b]);
        } else if b == p {
            assert(t1[a] == tv[a]);
        } else if a < p {
            assert(t1[a] == tv[a] && t1[b] == tv[b - 1]);
            lemma_edge_lt_transitive(tv[a], x, tv[b - 1]);
        } else if a == p {
            assert(t1[b] == tv[b - 1]);
        } else {
            assert(t1[a] == tv[a - 1] && t1[b] == tv[b - 1]);
        }
    }
    assert forall|j: int| 0 <= j < i implies !same_key(#[trigger] av[j], x) by {
        assert(a0[j] == av[j]);
        let m = choose|m: int| 0 <= m < tv.len() && same_key(#[trigger] tv[m], a0[j]);
        assert(same_key(tv[m], a0[j]));
        if same_key(av[j], x) {
            assert(same_key(tv[m], x));
        }
    }
    assert(first_of_key(a1, x)) by {
        reveal(first_of_key);
        assert(a1[i] == x);
        assert forall|j: int| 0 <= j < i implies !same_key(#[trigger] a1[j], x) by {
            assert(a1[j] == av[j]);
        }
    }
    assert forall|m: int| 0 <= m < t1.len() implies first_of_key(a1, #[trigger] t1[m]) by {
        if m < p {
            assert(t1[m] == tv[m]);
            lemma_first_extend(av, i, tv[m]);
        } else if m > p {
            assert(t1[m] == tv[m - 1]);
            lemma_first_extend(av, i, tv[m - 1]);
        } else {
            assert(t1[m] == x);
        }
    }
    assert forall|k: int| 0 <= k < a1.len() implies covered(t1, #[trigger] a1[k]) by {
        if k < i {
            assert(a1[k] == a0[k]);
            let m = choose|m: int| 0 <= m < tv.len() && same_key(#[trigger] tv[m], a0[k]);
            if m < p {
                assert(t1[m] == tv[m]);
            } else {
                assert(t1[m + 1] == tv[m]);
            }
        } else {
            assert(a1[k] == x);
            assert(t1[p] == x);
        }
    }
}
/// Two sorted edge lists with the same keys, equal wherever keys agree.
spec fn same_keyed(r1: Seq<EdgeView>, r2: Seq<EdgeView>) -> bool {
    &&& forall|i: int, j: int| 0 <= i < j < r1.len() ==> edge_lt(#[trigger] r1[i], #[trigger] r1[j])
    &&& forall|i: int, j: int| 0 <= i < j < r2.len() ==> edge_lt(#[trigger] r2[i], #[trigger] r2[j])
    &&& forall|i: int| 0 <= i < r1.len() ==> covered(r2, #[trigger] r1[i])
    &&& forall|m: int| 0 <= m < r2.len() ==> covered(r1, #[trigger] r2[m])
    &&& forall|i: int, m: int| 0 <= i < r1.len() && 0 <= m < r2.len() && same_key(#[trigger] r1[i], #[trigger] r2[m])
        ==> r1[i] == r2[m]
}

proof fn lemma_same_keyed_eq(r1: Seq<EdgeView>, r2: Seq<EdgeView>)
    requires
        same_keyed(r1, r2),
    ensures
        r1 == r2,
    decreases r1.len(),
{
    if r1.len() == 0 {
        if r2.len() > 0 {
            assert(covered(r1, r2[0]));
        }
        assert(r1 =~= r2);
    } else {
        assert(covered(r2, r1[0]));
        let m = choose|m: int| 0 <= m < r2.len() && same_key(#[trigger] r2[m], r1[0]);
        assert(covered(r1, r2[0]));
        let i = choose|i: int| 0 <= i < r1.len() && same_key(#[trigger] r1[i], r2[0]);
        if m > 0 {
            assert(edge_lt(r2[0], r2[m]));
            if i > 0 {
                assert(edge_lt(r1[0], r1[i]));
                lemma_edge_lt_transitive(r1[0], r1[i], r1[0]);
            }
            lemma_edge_lt_irreflexive(r1[0], r1[0]);
            assert(false);
        }
        assert(r1[0] == r2[0]);
        let s1 = r1.drop_first();
        let s2 = r2.drop_first();
        assert forall|a: int| 0 <= a < s1.len() implies covered(s2, #[trigger] s1[a]) by {
            assert(s1[a] == r1[a + 1]);
            assert(covered(r2, r1[a + 1]));
            let q = choose|q: int| 0 <= q < r2.len() && same_key(#[trigger] r2[q], r1[a + 1]);
            if q == 0 {
                assert(edge_lt(r1[0], r1[a + 1]));
                lemma_edge_lt_irreflexive(r1[0], r1[0]);
            }
            assert(s2[q - 1] == r2[q]);
        }
        assert forall|b: int| 0 <= b < s2.len() implies covered(s1, #[trigger] s2[b]) by {
            assert(s2[b] == r2[b + 1]);
            assert(covered(r1, r2[b + 1]));
            let q = choose|q: int| 0 <= q < r1.len() && same_key(#[trigger] r1[q], r2[b + 1]);
            if q == 0 {
                assert(edge_lt(r2[0], r2[b + 1]));
                lemma_edge_lt_irreflexive(r2[0], r2[0]);
            }
            assert(s1[q - 1] == r1[q]);
        }
        assert forall|a: int, b: int| 0 <= a < s1.len() && 0 <= b < s2.len() && same_key(#[trigger] s1[a], #[trigger] s2[b])
            implies s1[a] == s2[b] by {
            assert(s1[a] == r1[a + 1] && s2[b] == r2[b + 1]);
        }
        assert forall|a: int, b: int| 0 <= a < b < s1.len() implies edge_lt(#[trigger] s1[a], #[trigger] s1[b]) by {
            assert(s1[a] == r1[a + 1] && s1[b] == r1[b + 1]);
        }
        assert forall|a: int, b: int| 0 <= a < b < s2.len() implies edge_lt(#[trigger] s2[a], #[trigger] s2[b]) by {
            assert(s2[a] == r2[a + 1] && s2[b] == r2[b + 1]);
        }
        lemma_same_keyed_eq(s1, s2);
        assert(r1 =~= r2) by {
            assert forall|a: int| 0 <= a < r1.len() implies r1[a] == r2[a] by {
                if a > 0 {
                    assert(r1[a] == s1[a - 1] && r2[a] == s2[a - 1]);
                }
            }
        }
    }
}

proof fn lemma_first_same_key(all: Seq<EdgeView>, x: EdgeView, y: EdgeView)
    requires
        first_of_key(all, x),
        first_of_key(all, y),
        same_key(x, y),
    ensures
        x == y,
{
    reveal(first_of_key);
    let k1 = choose|k: int| 0 <= k < all.len() && all[k] == x
        && forall|j: int| 0 <= j < k ==> !same_key(#[trigger] all[j], x);
    let k2 = choose|k: int| 0 <= k < all.len() && all[k] == y
        && forall|j: int| 0 <= j < k ==> !same_key(#[trigger] all[j], y);
    if k1 < k2 {
        assert(!same_key(all[k1], y));
    } else if k2 < k1 {
        assert(!same_key(all[k2], x));
    }
}

proof fn lemma_first_covered(all: Seq<EdgeView>, r: Seq<EdgeView>, x: EdgeView)
    requires
        first_of_key(all, x),
        forall|k: int| 0 <= k < all.len() ==> covered(r, #[trigger] all[k]),
    ensures
        covered(r, x),
{
    reveal(first_of_key);
    let k = choose|k: int| 0 <= k < all.len() && all[k] == x
        && forall|j: int| 0 <= j < k ==> !same_key(#[trigger] all[j], x);
    assert(covered(r, all[k]));
}

/// A position `mark_from` marks was marked before or ends an edge leaving
/// `s`; marks are never taken back.
proof fn lemma_mark_from(f: Seq<bool>, es: Seq<EdgeView>, s: int, p: int)
    requires
        0 <= p < f.len(),
    ensures
        mark_from(f, es, s)[p] ==> f[p] || exists|k: int| 0 <= k < es.len() && es[k].0 == s && #[trigger] es[k].1 == p,
        f[p] ==> mark_from(f, es, s)[p],
    decreases es.len(),
{
    if es.len() > 0 {
        lemma_mark_from(f, es.drop_last(), s, p);
        lemma_mark_len(f, es.drop_last(), s);
        let t = es.drop_last();
        if mark_from(f, t, s)[p] && !f[p] {
            let k = choose|k: int| 0 <= k < t.len() && t[k].0 == s && #[trigger] t[k].1 == p;
            assert(es[k] == t[k]);
        }
        if es.last().1 == p {
            assert(es[es.len() - 1] == es.last());
        }
    }
}

/// Every marked position but 0 ends an edge whose start is marked.
proof fn lemma_flags_reach(es: Seq<EdgeView>, n: int, s: int, p: int)
    requires
        n >= 0,
        0 < p <= n,
        s <= n + 1,
        flags_upto(es, n, s)[p],
    ensures
        exists|k: int| 0 <= k < es.len() && #[trigger] es[k].1 == p && es[k].0 <= n && flags_upto(es, n, s)[es[k].0 as int],
    decreases s,
{
    if s > 0 {
        let f = flags_upto(es, n, s - 1);
        lemma_flags_len(es, n, s - 1);
        lemma_flags_len(es, n, s);
        if f[s - 1] {
            lemma_mark_from(f, es, s - 1, p);
            if f[p] {
                lemma_flags_reach(es, n, s - 1, p);
                let k = choose|k: int| 0 <= k < es.len() && #[trigger] es[k].1 == p && es[k].0 <= n && f[es[k].0 as int];
                lemma_mark_from(f, es, s - 1, es[k].0 as int);
                assert(flags_upto(es, n, s)[es[k].0 as int]);
                assert(0 <= k < es.len() && es[k].1 == p && es[k].0 <= n && flags_upto(es, n, s)[es[k].0 as int]);
            } else {
                let k = choose|k: int| 0 <= k < es.len() && es[k].0 == s - 1 && #[trigger] es[k].1 == p;
                lemma_mark_from(f, es, s - 1, s - 1);
                assert(flags_upto(es, n, s)[es[k].0 as int]);
                assert(0 <= k < es.len() && es[k].1 == p && es[k].0 <= n && flags_upto(es, n, s)[es[k].0 as int]);
            }
        } else {
            lemma_flags_reach(es, n, s - 1, p);
        }
    }
}

/// The kept edges are the edges whose start is marked.
proof fn lemma_keep_reached(es: Seq<EdgeView>, f: Seq<bool>, x: EdgeView)
    ensures
        keep_reached(es, f).contains(x) <==> (es.contains(x) && 0 <= x.0 < f.len() && f[x.0 as int]),
    decreases es.len(),
{
    if es.len() > 0 {
        let t = es.drop_last();
        lemma_keep_reached(t, f, x);
        let prev = keep_reached(t, f);
        if es.contains(x) && x != es.last() {
            let k = choose|k: int| 0 <= k < es.len() && es[k] == x;
            assert(t[k] == x);
        }
        if t.contains(x) {
            let k = choose|k: int| 0 <= k < t.len() && t[k] == x;
            assert(es[k] == x);
        }
        if 0 <= es.last().0 < f.len() && f[es.last().0 as int] {
            assert(prev.push(es.last())[prev.len() as int] == es.last());
            if prev.contains(x) {
                let k = choose|k: int| 0 <= k < prev.len() && prev[k] == x;
                assert(prev.push(es.last())[k] == x);
            }
            if prev.push(es.last()).contains(x) && x != es.last() {
                let k = choose|k: int| 0 <= k < prev.len() + 1 && prev.push(es.last())[k] == x;
                assert(prev[k] == x);
            }
        }
        assert(es[es.len() - 1] == es.last());
    }
}

proof fn lemma_last_marked(f: Seq<bool>, p: int)
    ensures
        last_marked(f, p) == 0 || (0 < last_marked(f, p) < f.len() && f[last_marked(f, p)]),
        last_marked(f, p) <= if p > 0 { p } else { 0 },
    decreases p,
{
    if p > 0 && !(p < f.len() && f[p]) {
        lemma_last_marked(f, p - 1);
    }
}

/// Every edge of a built graph starts at the beginning of the input or
/// where another of its edges ends.
pub proof fn law_graph_edges_connect(g: SyllableGraph, d: Seq<PinyinEntry>, raw: Seq<char>, abbreviate: bool)
    requires
        graph_of(g, d, raw, abbreviate),
    ensures
        forall|k: int| 0 <= k < g.edges@.len() && (#[trigger] g.edges@[k]).start != 0 ==>
            exists|m: int| 0 <= m < g.edges@.len() && (#[trigger] g.edges@[m]).end == g.edges@[k].start,
{
    let (xs, r, b) = project_chars_spec(raw);
    let n = xs.len() as int;
    let (os, oe) = (range_start(r, 0), range_end(r, r.len() as int));
    let normal = normal_upto(d, xs, r, b, n);
    let extra = if abbreviate {
        span_edges(at_most(distinct_codes(d).filter(abbreviated_by(d, xs)), 64), 0, n as usize,
            props(SpellingType::Abbreviation, -230i32, os, oe))
            + span_edges(completion_prefix_codes(d, xs), 0, n as usize, props(SpellingType::Completion, -300i32, os, oe))
    } else {
        Seq::empty()
    };
    let e0 = normal + extra;
    let f = flags_upto(e0, n, n + 1);
    let kept = keep_reached(e0, f);
    let far0 = last_marked(f, n);
    let all = graph_spec(d, raw, abbreviate).2;
    let ev = edges_view(g.edges@);
    lemma_flags_len(e0, n, n + 1);
    lemma_last_marked(f, n);
    reveal(sorted_dedup_of);
    assert(sorted_dedup_of(all, ev));
    assert forall|k: int| 0 <= k < g.edges@.len() && (#[trigger] g.edges@[k]).start != 0 implies
        exists|m: int| 0 <= m < g.edges@.len() && (#[trigger] g.edges@[m]).end == g.edges@[k].start by {
        let x = ev[k];
        assert(x.0 == g.edges@[k].start);
        assert(first_of_key(all, ev[k]));
        reveal(first_of_key);
        let q = choose|q: int| 0 <= q < all.len() && all[q] == x
            && forall|j: int| 0 <= j < q ==> !same_key(#[trigger] all[j], x);
        let start = x.0 as int;
        if q < kept.len() {
            assert(kept[q] == x);
            lemma_keep_reached(e0, f, x);
        } else {
            assert(start == far0);
        }
        assert(0 < start <= n && f[start]);
        lemma_flags_reach(e0, n, n + 1, start);
        let y_k = choose|yk: int| 0 <= yk < e0.len() && #[trigger] e0[yk].1 == start && e0[yk].0 <= n && f[e0[yk].0 as int];
        let y = e0[y_k];
        lemma_keep_reached(e0, f, y);
        let yq = choose|yq: int| 0 <= yq < kept.len() && kept[yq] == y;
        assert(all[yq] == y);
        assert(covered(ev, all[yq]));
        let m = choose|m: int| 0 <= m < ev.len() && same_key(#[trigger] ev[m], all[yq]);
        assert(ev[m].1 == g.edges@[m].end);
    }
}

/// Two lists that both sort and deduplicate `all` are the same list.
pub proof fn lemma_sorted_dedup_unique(all: Seq<EdgeView>, r1: Seq<EdgeView>, r2: Seq<EdgeView>)
    requires
        sorted_dedup_of(all, r1),
        sorted_dedup_of(all, r2),
    ensures
        r1 == r2,
{
    reveal(sorted_dedup_of);
    assert forall|i: int| 0 <= i < r1.len() implies covered(r2, #[trigger] r1[i]) by {
        lemma_first_covered(all, r2, r1[i]);
    }
    assert forall|m: int| 0 <= m < r2.len() implies covered(r1, #[trigger] r2[m]) by {
        lemma_first_covered(all, r1, r2[m]);
    }
    assert forall|i: int, m: int| 0 <= i < r1.len() && 0 <= m < r2.len() && same_key(#[trigger] r1[i], #[trigger] r2[m])
        implies r1[i] == r2[m] by {
        lemma_first_same_key(all, r1[i], r2[m]);
    }
    lemma_same_keyed_eq(r1, r2);
}

/// The edges of the graph of `raw`: the found edges, sorted and
/// deduplicated.
pub open spec fn graph_edges(d: Seq<PinyinEntry>, raw: Seq<char>, abbreviate: bool) -> Seq<EdgeView> {
    choose|r: Seq<EdgeView>| sorted_dedup_of(graph_spec(d, raw, abbreviate).2, r)
}

fn edge_lt_exec(a: &SyllableEdge, b: &SyllableEdge) -> (r: bool)
    ensures
        r == edge_lt(edge_view(*a), edge_view(*b)),
{
    if a.start != b.start {
        return a.start < b.start;
    }
    if a.end != b.end {
        return a.end < b.end;
    }
    let ac = chars_of(a.code.as_str());
    let bc = chars_of(b.code.as_str());
    chars_lt(ac.as_slice(), bc.as_slice())
}

fn same_key_exec(a: &SyllableEdge, b: &SyllableEdge) -> (r: bool)
    ensures
        r == same_key(edge_view(*a), edge_view(*b)),
{
    if a.start != b.start || a.end != b.end {
        return false;
    }
    let ac = chars_of(a.code.as_str());
    let bc = chars_of(b.code.as_str());
    chars_eq(ac.as_slice(), bc.as_slice())
}

/// Sorts by (start, end, code) and keeps the first edge of each key.
fn sort_dedup(all: &Vec<SyllableEdge>) -> (r: Vec<SyllableEdge>)
    ensures
        sorted_dedup_of(edges_view(all@), edges_view(r@)),
{
    let ghost av = edges_view(all@);
    let mut t: Vec<SyllableEdge> = Vec::new();
    assert(sorted_dedup_of(av.take(0), edges_view(t@))) by {
        reveal(sorted_dedup_of);
    }
    let mut i: usize = 0;
    while i < all.len()
        invariant
            i <= all@.len(),
            av == edges_view(all@),
            sorted_dedup_of(av.take(i as int), edges_view(t@)),
        decreases all@.len() - i,
    {
        let ghost tv = edges_view(t@);
        assert(av[i as int] == edge_view(all@[i as int]));
        let mut p: usize = 0;
        while p < t.len() && edge_lt_exec(&t[p], &all[i])
            invariant
                p <= t@.len(),
                i < all@.len(),
                av == edges_view(all@),
                tv == edges_view(t@),
                av[i as int] == edge_view(all@[i as int]),
                forall|j: int| 0 <= j < p ==> edge_lt(#[trigger] tv[j], av[i as int]),
            decreases t@.len() - p,
        {
            p += 1;
        }
        if p < t.len() && same_key_exec(&t[p], &all[i]) {
            proof { lemma_sorted_skip(av, i as int, tv, p as int); }
        } else {
            proof { lemma_sorted_insert(av, i as int, tv, p as int); }
            let c = copy_edge(&all[i]);
            t.insert(p, c);
            assert(edges_view(t@) =~= tv.insert(p as int, av[i as int]));
        }
        i += 1;
    }
    assert(av.take(all@.len() as int) == av);
    t
}

/// Some completion edge spans `s..n`.
pub open spec fn completes_tail(all: Seq<EdgeView>, s: int, n: int) -> bool {
    exists|k: int| 0 <= k < all.len() && (#[trigger] all[k]).0 == s && all[k].1 == n
        && all[k].3.spelling_type == SpellingType::Completion
}

/// `g` is the syllable graph of `raw` over the dictionary `d`.
pub open spec fn graph_of(g: SyllableGraph, d: Seq<PinyinEntry>, raw: Seq<char>, abbreviate: bool) -> bool {
    let (xs, far, all) = graph_spec(d, raw, abbreviate);
    &&& g.original_input@ == raw
    &&& g.input@ == xs
    &&& g.input_length == xs.len()
    &&& g.interpreted_length == far
    &&& sorted_dedup_of(all, edges_view(g.edges@))
    &&& edges_view(g.edges@) == graph_edges(d, raw, abbreviate)
}

pub open spec fn starts_at(s: usize) -> spec_fn(EdgeView) -> bool {
    |e: EdgeView| e.0 == s
}

impl SyllableGraph {
    /// The graph without abbreviation edges.
    pub fn build(input: &str, dict: &PinyinDict) -> (g: SyllableGraph)
        requires
            input@.len() < usize::MAX,
            ascii_chars(input@),
        ensures
            graph_of(g, dict@, input@, false),
            g.interpreted_length <= g.input_length,
            g.input_length == byte_len(g.input@),
    {
        Self::build_with_options(input, dict, false)
    }

    /// Builds the graph of `input`: normal edges for every dictionary code
    /// that starts at a position without crossing a delimiter; with
    /// `enable_abbreviation`, whole-input abbreviation and completion
    /// edges; only edges reachable from position 0 stay; an unfinished
    /// tail after the farthest reachable position gets completion edges;
    /// edges come sorted by (start, end, code), each once.
    ///
    /// The spelling is indexed by byte, so it must be ASCII: a position
    /// inside a multi-byte character would split it. On ASCII a position is
    /// both a byte offset and a character index.
    pub fn build_with_options(input: &str, dict: &PinyinDict, enable_abbreviation: bool) -> (g: SyllableGraph)
        requires
            input@.len() < usize::MAX,
            ascii_chars(input@),
        ensures
            graph_of(g, dict@, input@, enable_abbreviation),
            g.interpreted_length <= g.input_length,
            g.input_length == byte_len(g.input@),
    {
        let proj = project_chars(input);
        let ghost pv = project_chars_spec(input@);
        proof { lemma_chars_acc(input@, input@.len() as int); }
        let xs = chars_of(proj.input.as_str());
        let r = &proj.original_ranges;
        let b = &proj.delimiter_boundaries;
        let n = xs.len();
        assert(xs@ == pv.0 && r@ == pv.1 && b@ == pv.2);
        let mut edges = normal_edges(dict, &xs, r, b);
        let os = range_start_exec(r, 0);
        let oe = range_end_exec(r, r.len());
        let ghost normal = edges_view(edges@);
        if enable_abbreviation {
            let word = string_of(xs.as_slice());
            proof { lemma_strip_identity(xs@); }
            let ab = dict.abbreviation_codes(word.as_str());
            let ab64 = first_codes(&ab, 64);
            push_span(&ab64, 0, n, EdgeProperties { spelling_type: SpellingType::Abbreviation, credibility: -230,
                original_start: os, original_end: oe }, &mut edges);
            let cp = completion_prefix(dict, &xs);
            push_span(&cp, 0, n, EdgeProperties { spelling_type: SpellingType::Completion, credibility: -300,
                original_start: os, original_end: oe }, &mut edges);
            proof {
                let a1 = span_edges(char_seqs(ab64@), 0, n, props(SpellingType::Abbreviation, -230i32, os, oe));
                let a2 = span_edges(char_seqs(cp@), 0, n, props(SpellingType::Completion, -300i32, os, oe));
                assert(edges_view(edges@) =~= normal + (a1 + a2));
            }
        } else {
            assert(edges_view(edges@) =~= normal + Seq::<EdgeView>::empty());
        }
        let ghost e0 = edges_view(edges@);
        proof {
            let d = dict@;
            assert(normal == normal_upto(d, pv.0, pv.1, pv.2, n as int));
            assert(os == range_start(pv.1, 0) && oe == range_end(pv.1, pv.1.len() as int));
            let extra = if enable_abbreviation {
                span_edges(at_most(distinct_codes(d).filter(abbreviated_by(d, pv.0)), 64), 0, n,
                    props(SpellingType::Abbreviation, -230i32, os, oe))
                    + span_edges(completion_prefix_codes(d, pv.0), 0, n, props(SpellingType::Completion, -300i32, os, oe))
            } else {
                Seq::empty()
            };
            assert(e0 == normal + extra);
        }
        let f = reach_flags(&edges, n);
        let mut kept = keep_reachable(&edges, &f);
        let far0 = last_reachable(&f, n);
        let mut far = far0;
        let ghost kv = edges_view(kept@);
        if far0 < n {
            let tail = string_of(sub_chars(xs.as_slice(), far0, n).as_slice());
            proof {
                assert(xs@.subrange(far0 as int, n as int) =~= xs@.skip(far0 as int));
                assert forall|k: int| 0 <= k < xs@.skip(far0 as int).len() implies !is_delimiter(#[trigger] xs@.skip(far0 as int)[k]) by {
                    assert(xs@.skip(far0 as int)[k] == xs@[far0 + k]);
                }
                lemma_strip_identity(xs@.skip(far0 as int));
            }
            let codes = dict.completion_codes(tail.as_str());
            let tos = range_start_exec(r, far0);
            push_span(&codes, far0, n, EdgeProperties { spelling_type: SpellingType::Completion, credibility: -300,
                original_start: tos, original_end: oe }, &mut kept);
            let ghost av = edges_view(kept@);
            let mut found = false;
            let mut k: usize = 0;
            while k < kept.len()
                invariant
                    k <= kept@.len(),
                    av == edges_view(kept@),
                    found == completes_tail(av.take(k as int), far0 as int, n as int),
                decreases kept@.len() - k,
            {
                assert(av[k as int] == edge_view(kept@[k as int]));
                assert(av.take(k + 1)[k as int] == av[k as int]);
                assert(forall|j: int| 0 <= j < k ==> av.take(k + 1)[j] == #[trigger] av.take(k as int)[j]);
                let hit = match kept[k].properties.spelling_type {
                    SpellingType::Completion => kept[k].start == far0 && kept[k].end == n,
                    _ => false,
                };
                if hit {
                    found = true;
                }
                k += 1;
            }
            if found {
                far = n;
            }
            assert(av.take(kept@.len() as int) == av);
            assert(found == completes_tail(av, far0 as int, n as int));
        } else {
            assert(edges_view(kept@) =~= kv + Seq::<EdgeView>::empty());
        }
        let sorted = sort_dedup(&kept);
        proof {
            let all = graph_spec(dict@, input@, enable_abbreviation).2;
            let r = graph_edges(dict@, input@, enable_abbreviation);
            assert(sorted_dedup_of(all, r));
            lemma_sorted_dedup_unique(all, r, edges_view(sorted@));
        }
        proof { lemma_byte_len_ascii(xs@); }
        SyllableGraph { original_input: string_from(input), input: proj.input, input_length: n,
            interpreted_length: far, edges: sorted }
    }

    /// The edges that leave `start`, in order.
    pub fn edges_from(&self, start: usize) -> (r: Vec<SyllableEdge>)
        ensures
            edges_view(r@) == edges_view(self.edges@).filter(starts_at(start)),
    {
        let ghost ev = edges_view(self.edges@);
        let mut r: Vec<SyllableEdge> = Vec::new();
        let mut j: usize = 0;
        while j < self.edges.len()
            invariant
                j <= self.edges@.len(),
                ev == edges_view(self.edges@),
                edges_view(r@) == ev.take(j as int).filter(starts_at(start)),
            decreases self.edges@.len() - j,
        {
            proof {
                reveal(Seq::filter);
                assert(ev.take(j + 1).drop_last() == ev.take(j as int));
                assert(ev.take(j + 1).last() == edge_view(self.edges@[j as int]));
            }
            if self.edges[j].start == start {
                let c = copy_edge(&self.edges[j]);
                proof { lemma_edges_push(r@, c); }
                r.push(c);
            }
            j += 1;
        }
        assert(ev.take(self.edges@.len() as int) == ev);
        r
    }
}

} // verus!
