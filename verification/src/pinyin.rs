//! Pinyin dictionary (pinyin -> words), used by the script translator (full
//! and double pinyin).
//!
//! Unlike the shape-code table, pinyin codes are variable-length syllable
//! strings and an entry may span several syllables ("中国" -> "zhong guo").
//! Syllables are separated by spaces in Rime dictionaries; here every code
//! is stored with its delimiters removed ("zhongguo"), and queries are
//! normalized the same way.
//!
//! Entries are sorted by code, ascending, and within one code by weight,
//! descending.
use vstd::prelude::*;
use crate::seqs::{total_preorder, sorted_by, stable_sort_by, upper_pos_by, lemma_upper_pos_by,
    lemma_stable_sort_by, lemma_filter_range};
use crate::text::{byte_len, byte_len_of, chars_byte_len, lemma_byte_len_take, lemma_byte_len_strip, seq_lt, seq_le, strip_delimiters, chars_of, string_of, string_from, chars_lt, chars_eq,
    strip_delimiter_chars, seq_starts_with, chars_starts_with, lemma_seq_lt_irreflexive,
    lemma_seq_lt_transitive, lemma_seq_lt_total, lemma_seq_lt_asymmetric, lemma_seq_le_transitive};
use crate::zrm::{ZrmMap, ZrmEntry, ZRM_MAGIC, zrm_fits, zrm_bytes, parse_zrm};
use crate::codec::{le32, le16, rd32, rd16, utf8, utf8_concat, piece_ok, piece, read_piece, read_u32, read_u16,
    push_u32, push_u16, push_str_bytes, utf8_len, is_valid_utf8, lemma_utf8_concat_prefix, lemma_utf8_concat_step,
    lemma_sub_add, lemma_rd32, lemma_rd16, lemma_le_lens, lemma_concat_take, lemma_concat_valid, lemma_piece_of_concat};

verus! {

/// One dictionary entry as seen by the contracts: (code, word, weight).
pub type PinyinEntry = (Seq<char>, Seq<char>, u32);

/// Dictionary order: code ascending, then weight descending.
pub open spec fn py_le(a: PinyinEntry, b: PinyinEntry) -> bool {
    seq_lt(a.0, b.0) || (a.0 == b.0 && a.2 >= b.2)
}

pub open spec fn py_order() -> spec_fn(PinyinEntry, PinyinEntry) -> bool {
    |a: PinyinEntry, b: PinyinEntry| py_le(a, b)
}

pub proof fn lemma_py_order()
    ensures
        total_preorder(py_order()),
{
    assert forall|a: PinyinEntry, b: PinyinEntry, c: PinyinEntry|
        #[trigger] py_order()(a, b) && #[trigger] py_order()(b, c) implies py_order()(a, c) by {
        if seq_lt(a.0, b.0) && seq_lt(b.0, c.0) {
            lemma_seq_lt_transitive(a.0, b.0, c.0);
        }
    }
    assert forall|a: PinyinEntry, b: PinyinEntry| #[trigger] py_order()(a, b) || py_order()(b, a) by {
        lemma_seq_lt_total(a.0, b.0);
    }
}

/// A query spelling: delimiters removed.
pub open spec fn normalize_spec(s: Seq<char>) -> Seq<char> {
    strip_delimiters(s)
}

pub open spec fn raw_entries_view(e: Seq<(String, String, u32)>) -> Seq<PinyinEntry> {
    e.map_values(|x: (String, String, u32)| (normalize_spec(x.0@), x.1@, x.2))
}

pub open spec fn py_code_is(c: Seq<char>) -> spec_fn(PinyinEntry) -> bool {
    |e: PinyinEntry| e.0 == c
}

/// Codes `x` with `lo <= x < hi`.
pub open spec fn py_code_between(lo: Seq<char>, hi: Seq<char>) -> spec_fn(PinyinEntry) -> bool {
    |e: PinyinEntry| seq_le(lo, e.0) && seq_lt(e.0, hi)
}

/// Entries whose code is a prefix of `input`.
pub open spec fn py_code_prefix_of(input: Seq<char>) -> spec_fn(PinyinEntry) -> bool {
    |e: PinyinEntry| seq_starts_with(input, e.0)
}

/// Upper end of the prefix interval of `input`: `input` followed by `{`,
/// the character after `z`.
pub open spec fn prefix_upper(input: Seq<char>) -> Seq<char> {
    input.push('{')
}

/// A pinyin candidate: word and weight.
#[derive(Debug, Clone)]
pub struct PinyinCandidate {
    pub word: String,
    pub weight: u32,
}

/// Removes syllable delimiters (space, apostrophe) from a pinyin spelling.
pub fn normalize_pinyin(code: &str) -> (r: String)
    ensures
        r@ == normalize_spec(code@),
{
    let cs = chars_of(code);
    let n = strip_delimiter_chars(&cs);
    string_of(&n)
}

/// The pinyin dictionary.
pub struct PinyinDict {
    codes: Vec<Vec<char>>,
    words: Vec<String>,
    weights: Vec<u32>,
    zrm: Option<ZrmMap>,
}

impl View for PinyinDict {
    type V = Seq<PinyinEntry>;

    closed spec fn view(&self) -> Seq<PinyinEntry> {
        Seq::new(self.codes@.len(), |i: int| (self.codes@[i]@, self.words@[i]@, self.weights@[i]))
    }
}

impl PinyinDict {
    #[verifier::type_invariant]
    closed spec fn inv(self) -> bool {
        &&& self.codes@.len() == self.words@.len()
        &&& self.codes@.len() == self.weights@.len()
        &&& sorted_by(Seq::new(self.codes@.len(), |i: int| (self.codes@[i]@, self.words@[i]@, self.weights@[i])), py_order())
    }

    /// The double-pinyin map the dictionary carries, if any.
    pub closed spec fn zrm_view(&self) -> Option<Seq<crate::zrm::ZrmEntry>> {
        match self.zrm {
            Some(z) => Some(z@),
            None => None,
        }
    }

    /// Builds the dictionary from (pinyin, word, weight) triples: codes are
    /// normalized, then sorted by code ascending and, within a code, by
    /// weight descending; ties keep their given order.
    pub fn from_entries(entries: Vec<(String, String, u32)>) -> (d: PinyinDict)
        ensures
            d@ == stable_sort_by(raw_entries_view(entries@), py_order()),
            d.zrm_view() is None,
    {
        proof { lemma_py_order(); }
        let ghost ev = raw_entries_view(entries@);
        let mut codes: Vec<Vec<char>> = Vec::new();
        let mut words: Vec<String> = Vec::new();
        let mut weights: Vec<u32> = Vec::new();
        let mut i: usize = 0;
        while i < entries.len()
            invariant
                i <= entries@.len(),
                ev == raw_entries_view(entries@),
                total_preorder(py_order()),
                codes@.len() == words@.len(),
                codes@.len() == weights@.len(),
                Seq::new(codes@.len(), |j: int| (codes@[j]@, words@[j]@, weights@[j])) == stable_sort_by(ev.take(i as int), py_order()),
            decreases entries@.len() - i,
        {
            let ghost t = Seq::new(codes@.len(), |j: int| (codes@[j]@, words@[j]@, weights@[j]));
            proof { lemma_stable_sort_by(ev.take(i as int), py_order()); }
            let cs = chars_of(entries[i].0.as_str());
            let code = strip_delimiter_chars(&cs);
            let word = entries[i].1.clone();
            let weight = entries[i].2;
            let ghost x: PinyinEntry = (code@, word@, weight);
            assert(x == ev[i as int]);
            let p = Self::insert_pos(&codes, &weights, &code, weight, Ghost(t), Ghost(x));
            proof {
                assert(ev.take(i + 1).drop_last() == ev.take(i as int));
                assert(ev.take(i + 1).last() == x);
            }
            codes.insert(p, code);
            words.insert(p, word);
            weights.insert(p, weight);
            proof {
                let u = Seq::new(codes@.len(), |j: int| (codes@[j]@, words@[j]@, weights@[j]));
                assert(u =~= t.insert(p as int, x));
            }
            i += 1;
        }
        assert(ev.take(entries@.len() as int) == ev);
        proof { lemma_stable_sort_by(ev, py_order()); }
        PinyinDict { codes, words, weights, zrm: None }
    }

    /// Binary search for the insertion point of (code, weight): after every
    /// entry that is ordered before or equal to it.
    fn insert_pos(codes: &Vec<Vec<char>>, weights: &Vec<u32>, code: &Vec<char>, weight: u32,
        Ghost(t): Ghost<Seq<PinyinEntry>>, Ghost(x): Ghost<PinyinEntry>) -> (p: usize)
        requires
            total_preorder(py_order()),
            codes@.len() == weights@.len(),
            t.len() == codes@.len(),
            forall|j: int| #![trigger t[j]] 0 <= j < t.len() ==> t[j].0 == codes@[j]@ && t[j].2 == weights@[j],
            sorted_by(t, py_order()),
            x.0 == code@,
            x.2 == weight,
        ensures
            p <= codes@.len(),
            p == upper_pos_by(t, x, py_order()),
    {
        let mut lo: usize = 0;
        let mut hi: usize = codes.len();
        while lo < hi
            invariant
                lo <= hi <= codes@.len(),
                codes@.len() == weights@.len(),
                t.len() == codes@.len(),
                total_preorder(py_order()),
                forall|j: int| #![trigger t[j]] 0 <= j < t.len() ==> t[j].0 == codes@[j]@ && t[j].2 == weights@[j],
                sorted_by(t, py_order()),
                x.0 == code@,
                x.2 == weight,
                forall|j: int| 0 <= j < lo ==> py_order()(#[trigger] t[j], x),
                forall|j: int| hi <= j < t.len() ==> !py_order()(#[trigger] t[j], x),
            decreases hi - lo,
        {
            let mid = lo + (hi - lo) / 2;
            let ghost tm = t[mid as int];
            assert(tm.0 == codes@[mid as int]@ && tm.2 == weights@[mid as int]);
            let le = chars_lt(codes[mid].as_slice(), code.as_slice())
                || (chars_eq(codes[mid].as_slice(), code.as_slice()) && weights[mid] >= weight);
            assert(le == py_order()(tm, x));
            if le {
                proof {
                    assert forall|j: int| 0 <= j < mid + 1 implies py_order()(#[trigger] t[j], x) by {
                        if j < mid {
                            assert(py_order()(t[j], tm));
                        }
                    }
                }
                lo = mid + 1;
            } else {
                proof {
                    assert forall|j: int| mid <= j < t.len() implies !py_order()(#[trigger] t[j], x) by {
                        if j > mid && py_order()(t[j], x) {
                            assert(py_order()(tm, t[j]));
                        }
                    }
                }
                hi = mid;
            }
        }
        proof { lemma_upper_pos_by(t, x, py_order(), lo as int); }
        lo
    }

    /// Attaches a double-pinyin map.
    pub fn with_zrm(self, zrm: ZrmMap) -> (d: PinyinDict)
        ensures
            d@ == self@,
            d.zrm_view() == Some(zrm@),
    {
        proof { use_type_invariant(&self); }
        PinyinDict { codes: self.codes, words: self.words, weights: self.weights, zrm: Some(zrm) }
    }

    /// The double-pinyin map, if any.
    pub fn zrm(&self) -> (r: Option<&ZrmMap>)
        ensures
            match self.zrm_view() {
                Some(m) => r matches Some(z) && z@ == m,
                None => r is None,
            },
    {
        match &self.zrm {
            Some(z) => Some(z),
            None => None,
        }
    }

    pub fn entry_count(&self) -> (n: usize)
        ensures
            n == self@.len(),
    {
        proof { use_type_invariant(self); }
        self.codes.len()
    }

    pub fn is_empty(&self) -> (b: bool)
        ensures
            b == (self@.len() == 0),
    {
        proof { use_type_invariant(self); }
        self.codes.len() == 0
    }

    /// First index whose code is not below `c` (`strict == false`), or not
    /// at most `c` (`strict == true`).
    fn partition(&self, c: &Vec<char>, strict: bool) -> (r: usize)
        ensures
            r <= self@.len(),
            forall|i: int| 0 <= i < r ==> (if strict { seq_le(#[trigger] self@[i].0, c@) } else { seq_lt(self@[i].0, c@) }),
            forall|i: int| r <= i < self@.len() ==> !(if strict { seq_le(#[trigger] self@[i].0, c@) } else { seq_lt(self@[i].0, c@) }),
    {
        proof { use_type_invariant(self); }
        let ghost m = self@;
        let mut lo: usize = 0;
        let mut hi: usize = self.codes.len();
        while lo < hi
            invariant
                lo <= hi <= m.len(),
                m == self@,
                self.codes@.len() == self.words@.len(),
                self.codes@.len() == self.weights@.len(),
                sorted_by(m, py_order()),
                forall|i: int| 0 <= i < lo ==> (if strict { seq_le(#[trigger] m[i].0, c@) } else { seq_lt(m[i].0, c@) }),
                forall|i: int| hi <= i < m.len() ==> !(if strict { seq_le(#[trigger] m[i].0, c@) } else { seq_lt(m[i].0, c@) }),
            decreases hi - lo,
        {
            let mid = lo + (hi - lo) / 2;
            assert(m[mid as int].0 == self.codes@[mid as int]@);
            let below = if strict {
                chars_lt(self.codes[mid].as_slice(), c.as_slice()) || chars_eq(self.codes[mid].as_slice(), c.as_slice())
            } else {
                chars_lt(self.codes[mid].as_slice(), c.as_slice())
            };
            if below {
                proof {
                    assert forall|i: int| 0 <= i < mid + 1 implies (if strict { seq_le(#[trigger] m[i].0, c@) } else { seq_lt(m[i].0, c@) }) by {
                        if i < mid {
                            assert(py_order()(m[i], m[mid as int]));
                            assert(seq_le(m[i].0, m[mid as int].0));
                            if seq_lt(m[i].0, m[mid as int].0) && seq_lt(m[mid as int].0, c@) {
                                lemma_seq_lt_transitive(m[i].0, m[mid as int].0, c@);
                            }
                            if strict {
                                lemma_seq_le_transitive(m[i].0, m[mid as int].0, c@);
                            }
                        }
                    }
                }
                lo = mid + 1;
            } else {
                proof {
                    assert forall|i: int| mid <= i < m.len() implies !(if strict { seq_le(#[trigger] m[i].0, c@) } else { seq_lt(m[i].0, c@) }) by {
                        if i > mid {
                            assert(py_order()(m[mid as int], m[i]));
                            assert(seq_le(m[mid as int].0, m[i].0));
                            if strict {
                                if seq_le(m[i].0, c@) {
                                    lemma_seq_le_transitive(m[mid as int].0, m[i].0, c@);
                                }
                            } else {
                                if seq_lt(m[i].0, c@) {
                                    if seq_lt(m[mid as int].0, m[i].0) {
                                        lemma_seq_lt_transitive(m[mid as int].0, m[i].0, c@);
                                    }
                                }
                            }
                        }
                    }
                }
                hi = mid;
            }
        }
        lo
    }

    /// Candidates of the entries in `lo..hi`, at most `limit` of them when
    /// `limit > 0`.
    fn collect(&self, lo: usize, hi: usize, limit: usize) -> (res: Vec<PinyinCandidate>)
        requires
            lo <= hi <= self@.len(),
        ensures
            res@.len() == (if limit == 0 || limit >= hi - lo { hi - lo } else { limit as int }),
            forall|k: int| 0 <= k < res@.len() ==> {
                &&& (#[trigger] res@[k]).word@ == self@[lo + k].1
                &&& res@[k].weight == self@[lo + k].2
            },
    {
        proof { use_type_invariant(self); }
        let take = if limit == 0 || limit >= hi - lo { hi - lo } else { limit };
        let mut out: Vec<PinyinCandidate> = Vec::new();
        let mut i = lo;
        while i < lo + take
            invariant
                lo <= i <= lo + take,
                take <= hi - lo,
                hi <= self@.len(),
                self.codes@.len() == self.words@.len(),
                self.codes@.len() == self.weights@.len(),
                out@.len() == i - lo,
                forall|k: int| 0 <= k < out@.len() ==> {
                    &&& (#[trigger] out@[k]).word@ == self@[lo + k].1
                    &&& out@[k].weight == self@[lo + k].2
                },
            decreases lo + take - i,
        {
            out.push(PinyinCandidate { word: self.words[i].clone(), weight: self.weights[i] });
            i += 1;
        }
        out
    }

    /// Exact match: every entry whose code equals the normalized `code`, in
    /// dictionary order (weight descending).
    pub fn exact(&self, code: &str) -> (res: Vec<PinyinCandidate>)
        ensures
            res@.len() == self@.filter(py_code_is(normalize_spec(code@))).len(),
            forall|k: int| 0 <= k < res@.len() ==> {
                &&& (#[trigger] res@[k]).word@ == self@.filter(py_code_is(normalize_spec(code@)))[k].1
                &&& res@[k].weight == self@.filter(py_code_is(normalize_spec(code@)))[k].2
            },
    {
        self.exact_limited(code, 0)
    }

    /// As `exact`, keeping at most `limit` candidates when `limit > 0`.
    pub fn exact_limited(&self, code: &str, limit: usize) -> (res: Vec<PinyinCandidate>)
        ensures
            ({
                let sel = self@.filter(py_code_is(normalize_spec(code@)));
                &&& res@.len() == (if limit == 0 || limit >= sel.len() { sel.len() as int } else { limit as int })
                &&& forall|k: int| 0 <= k < res@.len() ==> {
                    &&& (#[trigger] res@[k]).word@ == sel[k].1
                    &&& res@[k].weight == sel[k].2
                }
                &&& forall|k: int| 0 <= k < sel.len() ==> self@.contains(#[trigger] sel[k])
                    && sel[k].0 == normalize_spec(code@)
                &&& forall|i: int| 0 <= i < self@.len() && (#[trigger] self@[i]).0 == normalize_spec(code@)
                    ==> sel.len() > 0 && self@[i].2 <= sel[0].2
                &&& forall|a: int, b: int| 0 <= a < b < sel.len() ==> (#[trigger] sel[a]).2 >= (#[trigger] sel[b]).2
            }),
    {
        proof { use_type_invariant(self); }
        let cs = chars_of(code);
        let c = strip_delimiter_chars(&cs);
        let lo = self.partition(&c, false);
        let hi = self.partition(&c, true);
        proof {
            if hi < lo {
                lemma_seq_lt_irreflexive(c@);
                assert(seq_le(self@[hi as int].0, c@));
            }
            assert forall|i: int| 0 <= i < self@.len() && !(lo <= i < hi) implies !py_code_is(c@)(#[trigger] self@[i]) by {
                if i < lo {
                    lemma_seq_lt_irreflexive(c@);
                }
            }
            assert forall|i: int| lo <= i < hi implies py_code_is(c@)(#[trigger] self@[i]) by {
                lemma_seq_lt_total(self@[i].0, c@);
            }
            lemma_filter_range(self@, py_code_is(c@), lo as int, hi as int);
            let sel = self@.filter(py_code_is(c@));
            assert forall|k: int| 0 <= k < sel.len() implies self@.contains(#[trigger] sel[k]) && sel[k].0 == c@ by {
                assert(sel[k] == self@[lo + k]);
            }
            assert forall|i: int| 0 <= i < self@.len() && (#[trigger] self@[i]).0 == c@ implies
                sel.len() > 0 && self@[i].2 <= sel[0].2 by {
                assert(py_code_is(c@)(self@[i]));
                assert(sel[0] == self@[lo as int]);
                if lo < i {
                    assert(py_order()(self@[lo as int], self@[i]));
                    lemma_seq_lt_irreflexive(c@);
                }
            }
            assert forall|a: int, b: int| 0 <= a < b < sel.len() implies (#[trigger] sel[a]).2 >= (#[trigger] sel[b]).2 by {
                assert(sel[a] == self@[lo + a] && sel[b] == self@[lo + b]);
                assert(py_order()(self@[lo + a], self@[lo + b]));
                lemma_seq_lt_irreflexive(c@);
            }
        }
        self.collect(lo, hi, limit)
    }

    /// Prefix match: every entry whose code lies in `[input, input + "{")`,
    /// i.e. starts with the normalized `input` (followed by nothing or by a
    /// character below `{`, which covers all lower-case pinyin), in
    /// dictionary order.
    pub fn prefix(&self, input: &str) -> (res: Vec<PinyinCandidate>)
        ensures
            ({
                let c = normalize_spec(input@);
                let sel = self@.filter(py_code_between(c, prefix_upper(c)));
                &&& res@.len() == sel.len()
                &&& forall|k: int| 0 <= k < res@.len() ==> {
                    &&& (#[trigger] res@[k]).word@ == sel[k].1
                    &&& res@[k].weight == sel[k].2
                }
            }),
    {
        let (lo, hi) = self.prefix_bounds(input);
        self.collect(lo, hi, 0)
    }

    /// Index interval of the prefix match of `input`.
    fn prefix_bounds(&self, input: &str) -> (r: (usize, usize))
        ensures
            r.0 <= r.1 <= self@.len(),
            ({
                let c = normalize_spec(input@);
                self@.filter(py_code_between(c, prefix_upper(c))) == self@.subrange(r.0 as int, r.1 as int)
            }),
    {
        let cs = chars_of(input);
        let c = strip_delimiter_chars(&cs);
        let mut upper = c.clone();
        upper.push('{');
        assert(upper@ == prefix_upper(c@));
        let lo = self.partition(&c, false);
        let hi = self.partition(&upper, false);
        proof {
            lemma_seq_lt_push(c@, '{');
            if hi < lo {
                assert(!seq_lt(self@[hi as int].0, upper@));
                assert(seq_lt(self@[hi as int].0, c@));
                lemma_seq_lt_transitive(self@[hi as int].0, c@, upper@);
            }
            let p = py_code_between(c@, upper@);
            assert forall|i: int| 0 <= i < self@.len() && !(lo <= i < hi) implies !p(#[trigger] self@[i]) by {
                if i < lo {
                    lemma_seq_lt_asymmetric(self@[i].0, c@);
                }
            }
            assert forall|i: int| lo <= i < hi implies p(#[trigger] self@[i]) by {
                lemma_seq_lt_total(self@[i].0, c@);
            }
            lemma_filter_range(self@, p, lo as int, hi as int);
        }
        (lo, hi)
    }

    /// Whether some entry has exactly the normalized `code`.
    pub fn has_code(&self, code: &str) -> (b: bool)
        ensures
            b == dict_has_code(self@, normalize_spec(code@)),
    {
        let cs = chars_of(code);
        let c = strip_delimiter_chars(&cs);
        self.contains_code(&c)
    }

    /// Whether some entry has code `c`.
    fn contains_code(&self, c: &Vec<char>) -> (b: bool)
        ensures
            b == dict_has_code(self@, c@),
    {
        let lo = self.partition(c, false);
        let hi = self.partition(c, true);
        proof {
            if lo < hi {
                lemma_seq_lt_total(self@[lo as int].0, c@);
            } else {
                assert forall|i: int| 0 <= i < self@.len() implies #[trigger] self@[i].0 != c@ by {
                    if i < lo {
                        lemma_seq_lt_irreflexive(c@);
                    } else if self@[i].0 == c@ {
                        assert(i >= hi);
                    }
                }
            }
        }
        lo < hi
    }
}

/// A composition match as seen by the contracts: (code length, word, weight).
pub type MatchView = (int, Seq<char>, u32);

/// A match with its code length in UTF-8 bytes (`bytes`) or in characters.
pub open spec fn match_view(e: PinyinEntry, bytes: bool) -> MatchView {
    (if bytes { byte_len(e.0) as int } else { e.0.len() as int }, e.1, e.2)
}

pub open spec fn weight_desc() -> spec_fn(MatchView, MatchView) -> bool {
    |a: MatchView, b: MatchView| a.2 >= b.2
}

pub open spec fn matches_view(m: Seq<(usize, PinyinCandidate)>) -> Seq<MatchView> {
    m.map_values(|x: (usize, PinyinCandidate)| (x.0 as int, x.1.word@, x.1.weight))
}

/// The entries whose code is a prefix of the normalized input, as (code
/// length, word, weight), stably sorted by weight, descending.
pub open spec fn matches_in(d: Seq<PinyinEntry>, input: Seq<char>, bytes: bool) -> Seq<MatchView> {
    stable_sort_by(d.filter(py_code_prefix_of(input)).map_values(|e: PinyinEntry| match_view(e, bytes)), weight_desc())
}

/// What `matches_prefix` returns: code lengths in UTF-8 bytes.
pub open spec fn matches_prefix_spec(d: Seq<PinyinEntry>, input: Seq<char>) -> Seq<MatchView> {
    matches_in(d, input, true)
}

/// The same matches with code lengths in characters, as the syllable graph
/// counts positions.
pub open spec fn char_matches_spec(d: Seq<PinyinEntry>, input: Seq<char>) -> Seq<MatchView> {
    matches_in(d, input, false)
}

/// Codes of a code-sorted run, each once, in order.
pub open spec fn distinct_codes(s: Seq<PinyinEntry>) -> Seq<Seq<char>>
    decreases s.len(),
{
    if s.len() == 0 {
        Seq::empty()
    } else {
        let r = distinct_codes(s.drop_last());
        if r.len() > 0 && r.last() == s.last().0 {
            r
        } else {
            r.push(s.last().0)
        }
    }
}

/// Whether some entry has code `c`.
pub open spec fn dict_has_code(d: Seq<PinyinEntry>, c: Seq<char>) -> bool {
    exists|i: int| 0 <= i < d.len() && #[trigger] d[i].0 == c
}

/// `c` splits into `a.len()` dictionary codes whose first letters spell `a`
/// (the abbreviation `a` of the spelling `c`).
pub open spec fn abbreviates(d: Seq<PinyinEntry>, c: Seq<char>, a: Seq<char>) -> bool
    decreases a.len(),
{
    if a.len() == 0 {
        c.len() == 0
    } else {
        exists|k: int| 1 <= k <= c.len() && #[trigger] dict_has_code(d, c.take(k)) && c[0] == a[0]
            && abbreviates(d, c.skip(k), a.skip(1))
    }
}

impl PinyinDict {
    /// Composition lookup: every entry whose code is a prefix of the
    /// normalized input, as (code length in UTF-8 bytes, candidate), by
    /// weight descending (ties in dictionary order).
    pub fn matches_prefix(&self, input: &str) -> (res: Vec<(usize, PinyinCandidate)>)
        ensures
            matches_view(res@) == matches_prefix_spec(self@, normalize_spec(input@)),
    {
        self.prefix_matches(input, true)
    }

    /// The matches of `matches_prefix` with code lengths in characters.
    pub(crate) fn char_matches(&self, input: &str) -> (res: Vec<(usize, PinyinCandidate)>)
        ensures
            matches_view(res@) == char_matches_spec(self@, normalize_spec(input@)),
    {
        self.prefix_matches(input, false)
    }

    fn prefix_matches(&self, input: &str, bytes: bool) -> (res: Vec<(usize, PinyinCandidate)>)
        ensures
            matches_view(res@) == matches_in(self@, normalize_spec(input@), bytes),
    {
        proof { use_type_invariant(self); }
        let cs = chars_of(input);
        let c = strip_delimiter_chars(&cs);
        let total = byte_len_of(input);
        proof { lemma_byte_len_strip(input@); }
        let ghost p = py_code_prefix_of(c@);
        let ghost f = |e: PinyinEntry| match_view(e, bytes);
        let mut out: Vec<(usize, PinyinCandidate)> = Vec::new();
        let mut i: usize = 0;
        proof {
            assert(total_preorder(weight_desc()));
        }
        while i < self.codes.len()
            invariant
                i <= self@.len(),
                self.codes@.len() == self.words@.len(),
                self.codes@.len() == self.weights@.len(),
                p == py_code_prefix_of(c@),
                f == (|e: PinyinEntry| match_view(e, bytes)),
                byte_len(c@) <= total,
                total_preorder(weight_desc()),
                matches_view(out@) == stable_sort_by(self@.take(i as int).filter(p).map_values(f), weight_desc()),
            decreases self@.len() - i,
        {
            let ghost e = self@[i as int];
            proof {
                reveal(Seq::filter);
                assert(self@.take(i + 1).drop_last() == self@.take(i as int));
                assert(self@.take(i + 1).last() == e);
                assert(e.0 == self.codes@[i as int]@);
            }
            if chars_starts_with(c.as_slice(), self.codes[i].as_slice()) {
                let w = self.weights[i];
                let ghost t = matches_view(out@);
                let ghost x = f(e);
                proof {
                    lemma_stable_sort_by(self@.take(i as int).filter(p).map_values(f), weight_desc());
                }
                let pos = Self::weight_pos(&out, w, Ghost(x));
                let len = if bytes {
                    proof {
                        assert(c@.take(e.0.len() as int) =~= e.0);
                        lemma_byte_len_take(c@, e.0.len() as int);
                    }
                    chars_byte_len(self.codes[i].as_slice())
                } else {
                    self.codes[i].len()
                };
                out.insert(pos, (len, PinyinCandidate { word: self.words[i].clone(), weight: w }));
                proof {
                    reveal(Seq::filter);
                    let fi = self@.take(i + 1).filter(p);
                    assert(p(e));
                    assert(fi == self@.take(i as int).filter(p).push(e));
                    let prev = self@.take(i as int).filter(p).map_values(f);
                    assert(fi.map_values(f) =~= prev.push(x));
                    assert(prev.push(x).drop_last() == prev);
                    assert(prev.push(x).last() == x);
                    assert(matches_view(out@) =~= t.insert(pos as int, x));
                }
            } else {
                proof {
                    reveal(Seq::filter);
                    assert(!p(e));
                    assert(self@.take(i + 1).filter(p) == self@.take(i as int).filter(p));
                }
            }
            i += 1;
        }
        assert(self@.take(self@.len() as int) == self@);
        out
    }

    /// Insertion point of weight `w`: after every match of weight `>= w`.
    fn weight_pos(out: &Vec<(usize, PinyinCandidate)>, w: u32, Ghost(x): Ghost<MatchView>) -> (pos: usize)
        requires
            x.2 == w,
            total_preorder(weight_desc()),
            sorted_by(matches_view(out@), weight_desc()),
        ensures
            pos <= out@.len(),
            pos == upper_pos_by(matches_view(out@), x, weight_desc()),
    {
        let ghost t = matches_view(out@);
        let mut lo: usize = 0;
        let mut hi: usize = out.len();
        while lo < hi
            invariant
                lo <= hi <= out@.len(),
                t == matches_view(out@),
                x.2 == w,
                total_preorder(weight_desc()),
                sorted_by(t, weight_desc()),
                forall|j: int| 0 <= j < lo ==> weight_desc()(#[trigger] t[j], x),
                forall|j: int| hi <= j < t.len() ==> !weight_desc()(#[trigger] t[j], x),
            decreases hi - lo,
        {
            let mid = lo + (hi - lo) / 2;
            assert(t[mid as int].2 == out@[mid as int].1.weight);
            if out[mid].1.weight >= w {
                proof {
                    assert forall|j: int| 0 <= j < mid + 1 implies weight_desc()(#[trigger] t[j], x) by {
                        if j < mid {
                            assert(weight_desc()(t[j], t[mid as int]));
                        }
                    }
                }
                lo = mid + 1;
            } else {
                proof {
                    assert forall|j: int| mid <= j < t.len() implies !weight_desc()(#[trigger] t[j], x) by {
                        if j > mid {
                            assert(weight_desc()(t[mid as int], t[j]));
                        }
                    }
                }
                hi = mid;
            }
        }
        proof { lemma_upper_pos_by(t, x, weight_desc(), lo as int); }
        lo
    }

    /// Prefix match with codes: (code, candidate) for every entry of the
    /// prefix interval of `input`, in dictionary order.
    pub fn prefix_with_codes(&self, input: &str) -> (res: Vec<(String, PinyinCandidate)>)
        ensures
            ({
                let c = normalize_spec(input@);
                let sel = self@.filter(py_code_between(c, prefix_upper(c)));
                &&& res@.len() == sel.len()
                &&& forall|k: int| 0 <= k < res@.len() ==> {
                    &&& (#[trigger] res@[k]).0@ == sel[k].0
                    &&& res@[k].1.word@ == sel[k].1
                    &&& res@[k].1.weight == sel[k].2
                }
            }),
    {
        proof { use_type_invariant(self); }
        let (lo, hi) = self.prefix_bounds(input);
        let mut out: Vec<(String, PinyinCandidate)> = Vec::new();
        let mut i = lo;
        while i < hi
            invariant
                lo <= i <= hi <= self@.len(),
                self.codes@.len() == self.words@.len(),
                self.codes@.len() == self.weights@.len(),
                out@.len() == i - lo,
                forall|k: int| 0 <= k < out@.len() ==> {
                    &&& (#[trigger] out@[k]).0@ == self@[lo + k].0
                    &&& out@[k].1.word@ == self@[lo + k].1
                    &&& out@[k].1.weight == self@[lo + k].2
                },
            decreases hi - i,
        {
            let code = string_of(self.codes[i].as_slice());
            out.push((code, PinyinCandidate { word: self.words[i].clone(), weight: self.weights[i] }));
            i += 1;
        }
        out
    }

    /// Codes that complete `tail`: the distinct codes of its prefix
    /// interval, in order.
    pub fn completion_codes(&self, tail: &str) -> (res: Vec<Vec<char>>)
        ensures
            ({
                let c = normalize_spec(tail@);
                res@.map_values(|v: Vec<char>| v@) == distinct_codes(self@.filter(py_code_between(c, prefix_upper(c))))
            }),
    {
        proof { use_type_invariant(self); }
        let (lo, hi) = self.prefix_bounds(tail);
        let ghost sel = self@.subrange(lo as int, hi as int);
        let mut out: Vec<Vec<char>> = Vec::new();
        let mut i = lo;
        while i < hi
            invariant
                lo <= i <= hi <= self@.len(),
                self.codes@.len() == self.words@.len(),
                self.codes@.len() == self.weights@.len(),
                sel == self@.subrange(lo as int, hi as int),
                out@.map_values(|v: Vec<char>| v@) == distinct_codes(sel.take(i - lo)),
            decreases hi - i,
        {
            proof {
                assert(sel.take(i - lo + 1).drop_last() == sel.take(i - lo));
                assert(sel.take(i - lo + 1).last() == self@[i as int]);
                assert(self@[i as int].0 == self.codes@[i as int]@);
            }
            let ghost before = out@.map_values(|v: Vec<char>| v@);
            let dup = out.len() > 0 && chars_eq(out[out.len() - 1].as_slice(), self.codes[i].as_slice());
            if !dup {
                out.push(self.codes[i].clone());
                assert(out@.map_values(|v: Vec<char>| v@) =~= before.push(self@[i as int].0));
            }
            i += 1;
        }
        assert(sel.take(hi - lo) == sel);
        out
    }

    /// Whether `c` splits into `a.len()` dictionary codes whose first
    /// letters spell `a`.
    fn abbreviates_exec(&self, c: &[char], a: &[char]) -> (b: bool)
        ensures
            b == abbreviates(self@, c@, a@),
        decreases a@.len(),
    {
        if a.len() == 0 {
            return c.len() == 0;
        }
        if c.len() == 0 || c[0] != a[0] {
            proof {
                assert forall|k: int| 1 <= k <= c@.len() implies !(#[trigger] dict_has_code(self@, c@.take(k)) && c@[0] == a@[0]
                    && abbreviates(self@, c@.skip(k), a@.skip(1))) by {}
            }
            return false;
        }
        let rest_a = crate::text::sub_chars(a, 1, a.len());
        assert(rest_a@ == a@.skip(1));
        let mut j: usize = 0;
        while j < c.len()
            invariant
                0 <= j <= c@.len(),
                c@.len() > 0,
                a@.len() > 0,
                c@[0] == a@[0],
                rest_a@ == a@.skip(1),
                forall|q: int| 1 <= q < j + 1 ==> !(#[trigger] dict_has_code(self@, c@.take(q))
                    && abbreviates(self@, c@.skip(q), a@.skip(1))),
            decreases c@.len() - j,
        {
            let k = j + 1;
            let head = crate::text::sub_chars(c, 0, k);
            assert(head@ == c@.take(k as int));
            if self.contains_code(&head) {
                let tail = crate::text::sub_chars(c, k, c.len());
                assert(tail@ == c@.skip(k as int));
                if self.abbreviates_exec(tail.as_slice(), rest_a.as_slice()) {
                    return true;
                }
            }
            j += 1;
        }
        false
    }
}

pub open spec fn abbreviated_by(d: Seq<PinyinEntry>, a: Seq<char>) -> spec_fn(Seq<char>) -> bool {
    |c: Seq<char>| abbreviates(d, c, a)
}

impl PinyinDict {
    /// Abbreviation lookup: the distinct dictionary codes, in order, that
    /// split into dictionary codes whose first letters spell the normalized
    /// `input` ("zg" -> "zhongguo").
    pub fn abbreviation_codes(&self, input: &str) -> (res: Vec<Vec<char>>)
        ensures
            res@.map_values(|v: Vec<char>| v@) == distinct_codes(self@).filter(abbreviated_by(self@, normalize_spec(input@))),
    {
        proof { use_type_invariant(self); }
        let cs = chars_of(input);
        let a = strip_delimiter_chars(&cs);
        let ghost q = abbreviated_by(self@, a@);
        let mut out: Vec<Vec<char>> = Vec::new();
        let mut last: Option<Vec<char>> = None;
        let mut i: usize = 0;
        while i < self.codes.len()
            invariant
                i <= self@.len(),
                self.codes@.len() == self.words@.len(),
                self.codes@.len() == self.weights@.len(),
                q == abbreviated_by(self@, a@),
                out@.map_values(|v: Vec<char>| v@) == distinct_codes(self@.take(i as int)).filter(q),
                match last {
                    Some(l) => distinct_codes(self@.take(i as int)).len() > 0 && l@ == distinct_codes(self@.take(i as int)).last(),
                    None => distinct_codes(self@.take(i as int)).len() == 0,
                },
            decreases self@.len() - i,
        {
            let ghost d0 = distinct_codes(self@.take(i as int));
            proof {
                assert(self@.take(i + 1).drop_last() == self@.take(i as int));
                assert(self@.take(i + 1).last() == self@[i as int]);
                assert(self@[i as int].0 == self.codes@[i as int]@);
            }
            let dup = match &last {
                Some(l) => chars_eq(l.as_slice(), self.codes[i].as_slice()),
                None => false,
            };
            if !dup {
                let code = self.codes[i].clone();
                let ghost before = out@.map_values(|v: Vec<char>| v@);
                proof {
                    reveal(Seq::filter);
                    assert(distinct_codes(self@.take(i + 1)) == d0.push(code@));
                    assert(d0.push(code@).drop_last() == d0);
                }
                if self.abbreviates_exec(code.as_slice(), a.as_slice()) {
                    out.push(code.clone());
                    assert(out@.map_values(|v: Vec<char>| v@) =~= before.push(code@));
                }
                last = Some(code);
            }
            i += 1;
        }
        assert(self@.take(self@.len() as int) == self@);
        out
    }
}

// ── the ZPY1 format ────────────────────────────────────────────────────

pub const PY_MAGIC: u32 = 0x3159505A;
pub const PY_VERSION: u32 = 1;

pub open spec fn py_codes(e: Seq<PinyinEntry>) -> Seq<Seq<char>> {
    e.map_values(|x: PinyinEntry| x.0)
}

pub open spec fn py_words(e: Seq<PinyinEntry>) -> Seq<Seq<char>> {
    e.map_values(|x: PinyinEntry| x.1)
}

/// The blob: UTF-8 of every code, then of every word.
pub open spec fn py_blob(e: Seq<PinyinEntry>) -> Seq<u8> {
    utf8_concat(py_codes(e)) + utf8_concat(py_words(e))
}

/// One 16-byte record per entry: offset and length of its code, of its
/// word (counted from `base`, the end of the codes), and its weight.
pub open spec fn py_records(e: Seq<PinyinEntry>, base: int) -> Seq<u8>
    decreases e.len(),
{
    if e.len() == 0 {
        Seq::empty()
    } else {
        let prev = e.drop_last();
        py_records(prev, base) + le32(utf8_concat(py_codes(prev)).len() as u32) + le16(utf8(e.last().0).len() as u16)
            + le32((base + utf8_concat(py_words(prev)).len()) as u32) + le16(utf8(e.last().1).len() as u16)
            + le32(e.last().2)
    }
}

/// The entries fit the format's field widths.
pub open spec fn py_fits(e: Seq<PinyinEntry>) -> bool {
    &&& e.len() <= u32::MAX
    &&& py_blob(e).len() <= u32::MAX
    &&& forall|i: int| 0 <= i < e.len() ==> utf8((#[trigger] e[i]).0).len() <= u16::MAX && utf8(e[i].1).len() <= u16::MAX
}

/// The "ZPY1" serialization of the entries.
pub open spec fn py_bytes(e: Seq<PinyinEntry>) -> Seq<u8> {
    le32(PY_MAGIC) + le32(PY_VERSION) + le32(e.len() as u32) + le32(py_blob(e).len() as u32)
        + py_records(e, utf8_concat(py_codes(e)).len() as int) + py_blob(e)
}

/// Header of a "ZPY1" file: magic, version, and a length that holds every
/// record and the whole blob.
pub open spec fn py_header_ok(d: Seq<u8>) -> bool {
    &&& d.len() >= 16
    &&& rd32(d, 0) == PY_MAGIC
    &&& rd32(d, 4) == PY_VERSION
    &&& d.len() >= py_blob_end(d)
}

pub open spec fn py_blob_end(d: Seq<u8>) -> int {
    16 + 16 * (rd32(d, 8) as int) + (rd32(d, 12) as int)
}

pub open spec fn py_blob_of(d: Seq<u8>) -> Seq<u8> {
    d.subrange(16 + 16 * (rd32(d, 8) as int), py_blob_end(d))
}

pub open spec fn py_entry_at(d: Seq<u8>, i: int) -> PinyinEntry {
    (piece(py_blob_of(d), rd32(d, 16 + 16 * i) as int, rd16(d, 20 + 16 * i) as int),
     piece(py_blob_of(d), rd32(d, 22 + 16 * i) as int, rd16(d, 26 + 16 * i) as int),
     rd32(d, 28 + 16 * i))
}

/// Record `i` is usable: both strings lie inside the blob and are
/// well-formed.
pub open spec fn py_record_ok(d: Seq<u8>, i: int) -> bool {
    &&& piece_ok(py_blob_of(d), rd32(d, 16 + 16 * i) as int, rd16(d, 20 + 16 * i) as int)
    &&& piece_ok(py_blob_of(d), rd32(d, 22 + 16 * i) as int, rd16(d, 26 + 16 * i) as int)
}

/// The entries a "ZPY1" file holds, when its main part is well formed.
pub open spec fn parse_pinyin(d: Seq<u8>) -> Option<Seq<PinyinEntry>> {
    if py_header_ok(d) && vstd::utf8::valid_utf8(py_blob_of(d))
        && forall|i: int| 0 <= i < rd32(d, 8) ==> #[trigger] py_record_ok(d, i) {
        Some(Seq::new(rd32(d, 8) as nat, |i: int| py_entry_at(d, i)))
    } else {
        None
    }
}

/// A double-pinyin segment follows the main part: more than four bytes
/// remain and they start with the "ZRM1" magic.
pub open spec fn has_zrm_segment(d: Seq<u8>) -> bool {
    d.len() > py_blob_end(d) + 4 && rd32(d, py_blob_end(d)) == ZRM_MAGIC
}

/// The record `py_records` writes for entry `i`.
pub open spec fn py_rec(e: Seq<PinyinEntry>, base: int, i: int) -> Seq<u8> {
    le32(utf8_concat(py_codes(e.take(i))).len() as u32) + le16(utf8(e[i].0).len() as u16)
        + le32((base + utf8_concat(py_words(e.take(i))).len()) as u32) + le16(utf8(e[i].1).len() as u16)
        + le32(e[i].2)
}

proof fn lemma_py_records(e: Seq<PinyinEntry>, base: int)
    ensures
        py_records(e, base).len() == 16 * e.len(),
        forall|i: int| 0 <= i < e.len() ==> py_records(e, base).subrange(16 * i, 16 * i + 16) == #[trigger] py_rec(e, base, i),
    decreases e.len(),
{
    if e.len() > 0 {
        let t = e.drop_last();
        lemma_py_records(t, base);
        let n = e.len() - 1;
        lemma_le_lens(utf8_concat(py_codes(t)).len() as u32, utf8(e[n].0).len() as u16);
        lemma_le_lens((base + utf8_concat(py_words(t)).len()) as u32, utf8(e[n].1).len() as u16);
        lemma_le_lens(e[n].2, 0);
        assert(e.take(n) == t);
        assert forall|i: int| 0 <= i < e.len() implies py_records(e, base).subrange(16 * i, 16 * i + 16) == #[trigger] py_rec(e, base, i) by {
            if i < n {
                assert(t.take(i) == e.take(i));
                assert(t[i] == e[i]);
                assert(py_rec(t, base, i) == py_rec(e, base, i));
                lemma_sub_add(py_records(t, base), py_rec(e, base, n), 16 * i, 16 * i + 16);
            } else {
                lemma_sub_add(py_records(t, base), py_rec(e, base, n), 16 * i, 16 * i + 16);
                assert(py_rec(e, base, n).subrange(0, 16) =~= py_rec(e, base, n));
            }
        }
        assert(py_records(e, base) =~= py_records(t, base) + py_rec(e, base, n));
    }
}

proof fn lemma_py_header(e: Seq<PinyinEntry>)
    requires
        py_fits(e),
    ensures
        ({
            let d = py_bytes(e);
            let blob = py_blob(e);
            &&& d == le32(PY_MAGIC) + le32(PY_VERSION) + le32(e.len() as u32) + le32(blob.len() as u32)
                + py_records(e, utf8_concat(py_codes(e)).len() as int) + blob
            &&& rd32(d, 0) == PY_MAGIC
            &&& rd32(d, 4) == PY_VERSION
            &&& rd32(d, 8) == e.len()
            &&& rd32(d, 12) == blob.len()
            &&& py_header_ok(d)
            &&& py_blob_end(d) == d.len()
            &&& py_blob_of(d) == blob
        }),
{
    let n = e.len() as int;
    let base = utf8_concat(py_codes(e)).len() as int;
    let blob = py_blob(e);
    let recs = py_records(e, base);
    lemma_py_records(e, base);
    let h0 = le32(PY_MAGIC);
    let h1 = le32(PY_VERSION);
    let h2 = le32(n as u32);
    let h3 = le32(blob.len() as u32);
    lemma_le_lens(PY_MAGIC, 0);
    lemma_le_lens(PY_VERSION, 0);
    lemma_le_lens(n as u32, 0);
    lemma_le_lens(blob.len() as u32, 0);
    let d = py_bytes(e);
    let head = h0 + h1 + h2 + h3;
    assert(d =~= head + recs + blob);
    assert(head.len() == 16);
    lemma_sub_add(head + recs, blob, 0, 4);
    lemma_sub_add(head, recs, 0, 4);
    assert(head.subrange(0, 4) =~= h0);
    lemma_rd32(d, 0, PY_MAGIC);
    lemma_sub_add(head + recs, blob, 4, 8);
    lemma_sub_add(head, recs, 4, 8);
    assert(head.subrange(4, 8) =~= h1);
    lemma_rd32(d, 4, PY_VERSION);
    lemma_sub_add(head + recs, blob, 8, 12);
    lemma_sub_add(head, recs, 8, 12);
    assert(head.subrange(8, 12) =~= h2);
    lemma_rd32(d, 8, n as u32);
    lemma_sub_add(head + recs, blob, 12, 16);
    lemma_sub_add(head, recs, 12, 16);
    assert(head.subrange(12, 16) =~= h3);
    lemma_rd32(d, 12, blob.len() as u32);
    lemma_sub_add(head + recs, blob, 16 + 16 * n, 16 + 16 * n + blob.len());
    assert(blob.subrange(0, blob.len() as int) =~= blob);
}

proof fn lemma_py_fields(e: Seq<PinyinEntry>, i: int)
    requires
        py_fits(e),
        0 <= i < e.len(),
    ensures
        ({
            let d = py_bytes(e);
            let base = utf8_concat(py_codes(e)).len() as int;
            &&& rd32(d, 16 + 16 * i) == utf8_concat(py_codes(e.take(i))).len()
            &&& rd16(d, 20 + 16 * i) == utf8(e[i].0).len()
            &&& rd32(d, 22 + 16 * i) == base + utf8_concat(py_words(e.take(i))).len()
            &&& rd16(d, 26 + 16 * i) == utf8(e[i].1).len()
            &&& rd32(d, 28 + 16 * i) == e[i].2
        }),
{
    lemma_py_header(e);
    let n = e.len() as int;
    let base = utf8_concat(py_codes(e)).len() as int;
    let blob = py_blob(e);
    let recs = py_records(e, base);
    lemma_py_records(e, base);
    let d = py_bytes(e);
    let head = le32(PY_MAGIC) + le32(PY_VERSION) + le32(n as u32) + le32(blob.len() as u32);
    lemma_le_lens(PY_MAGIC, 0);
    lemma_le_lens(PY_VERSION, 0);
    lemma_le_lens(n as u32, 0);
    lemma_le_lens(blob.len() as u32, 0);
    assert(d == head + recs + blob);
    let r = py_rec(e, base, i);
    let co = utf8_concat(py_codes(e.take(i))).len() as int;
    let wo = utf8_concat(py_words(e.take(i))).len() as int;
    let cl = utf8(e[i].0).len() as int;
    let wl = utf8(e[i].1).len() as int;
    assert(py_codes(e.take(i)) =~= py_codes(e).take(i));
    assert(py_words(e.take(i)) =~= py_words(e).take(i));
    lemma_concat_take(py_codes(e), i);
    lemma_concat_take(py_words(e), i);
    assert(blob.len() <= u32::MAX);
    assert(co <= base);
    assert(base + wo <= blob.len());
    assert(cl <= u16::MAX && wl <= u16::MAX);
    lemma_le_lens(co as u32, cl as u16);
    lemma_le_lens((base + wo) as u32, wl as u16);
    lemma_le_lens(e[i].2, 0);
    lemma_sub_add(head + recs, blob, 16 + 16 * i, 16 + 16 * i + 16);
    lemma_sub_add(head, recs, 16 + 16 * i, 16 + 16 * i + 16);
    let rr = d.subrange(16 + 16 * i, 16 + 16 * i + 16);
    assert(rr == r);
    assert(d.subrange(16 + 16 * i, 20 + 16 * i) =~= rr.subrange(0, 4));
    assert(r.subrange(0, 4) =~= le32(co as u32));
    lemma_rd32(d, 16 + 16 * i, co as u32);
    assert(d.subrange(20 + 16 * i, 22 + 16 * i) =~= rr.subrange(4, 6));
    assert(r.subrange(4, 6) =~= le16(cl as u16));
    lemma_rd16(d, 20 + 16 * i, cl as u16);
    assert(d.subrange(22 + 16 * i, 26 + 16 * i) =~= rr.subrange(6, 10));
    assert(r.subrange(6, 10) =~= le32((base + wo) as u32));
    lemma_rd32(d, 22 + 16 * i, (base + wo) as u32);
    assert(d.subrange(26 + 16 * i, 28 + 16 * i) =~= rr.subrange(10, 12));
    assert(r.subrange(10, 12) =~= le16(wl as u16));
    lemma_rd16(d, 26 + 16 * i, wl as u16);
    assert(d.subrange(28 + 16 * i, 32 + 16 * i) =~= rr.subrange(12, 16));
    assert(r.subrange(12, 16) =~= le32(e[i].2));
    lemma_rd32(d, 28 + 16 * i, e[i].2);
}

proof fn lemma_py_entry(e: Seq<PinyinEntry>, i: int)
    requires
        py_fits(e),
        0 <= i < e.len(),
    ensures
        ({
            let d = py_bytes(e);
            &&& py_entry_at(d, i) == e[i]
            &&& piece_ok(py_blob_of(d), rd32(d, 16 + 16 * i) as int, rd16(d, 20 + 16 * i) as int)
            &&& piece_ok(py_blob_of(d), rd32(d, 22 + 16 * i) as int, rd16(d, 26 + 16 * i) as int)
        }),
{
    lemma_py_header(e);
    lemma_py_fields(e, i);
    let cs = py_codes(e);
    let ws = py_words(e);
    let cb = utf8_concat(cs);
    let wb = utf8_concat(ws);
    let base = cb.len() as int;
    let blob = py_blob(e);
    assert(py_codes(e.take(i)) =~= cs.take(i));
    assert(py_words(e.take(i)) =~= ws.take(i));
    let co = utf8_concat(cs.take(i)).len() as int;
    let wo = utf8_concat(ws.take(i)).len() as int;
    assert(cs[i] == e[i].0 && ws[i] == e[i].1);
    lemma_piece_of_concat(cb, cs, i);
    lemma_piece_of_concat(wb, ws, i);
    let cl = utf8(e[i].0).len() as int;
    let wl = utf8(e[i].1).len() as int;
    lemma_sub_add(cb, wb, co, co + cl);
    lemma_sub_add(cb, wb, base + wo, base + wo + wl);
    assert(blob.subrange(co, co + cl) == utf8(e[i].0));
    assert(blob.subrange(base + wo, base + wo + wl) == utf8(e[i].1));
}

/// Bytes after the main part change nothing of what it holds.
proof fn lemma_py_extend(p: Seq<u8>, rest: Seq<u8>)
    requires
        py_header_ok(p),
        py_blob_end(p) == p.len(),
    ensures
        parse_pinyin(p + rest) == parse_pinyin(p),
        py_blob_end(p + rest) == p.len(),
{
    let d = p + rest;
    let n = rd32(p, 8) as int;
    assert forall|off: int| 0 <= off && off + 4 <= p.len() implies rd32(d, off) == rd32(p, off) by {
        lemma_sub_add(p, rest, off, off + 4);
    }
    assert forall|off: int| 0 <= off && off + 2 <= p.len() implies rd16(d, off) == rd16(p, off) by {
        lemma_sub_add(p, rest, off, off + 2);
    }
    assert(rd32(d, 8) == rd32(p, 8));
    assert(rd32(d, 12) == rd32(p, 12));
    lemma_sub_add(p, rest, 16 + 16 * n, py_blob_end(p));
    assert(py_blob_of(d) == py_blob_of(p));
    assert forall|i: int| 0 <= i < n implies py_entry_at(d, i) == py_entry_at(p, i)
        && py_record_ok(d, i) == py_record_ok(p, i) by {
        assert(rd32(d, 16 + 16 * i) == rd32(p, 16 + 16 * i));
        assert(rd16(d, 20 + 16 * i) == rd16(p, 20 + 16 * i));
        assert(rd32(d, 22 + 16 * i) == rd32(p, 22 + 16 * i));
        assert(rd16(d, 26 + 16 * i) == rd16(p, 26 + 16 * i));
        assert(rd32(d, 28 + 16 * i) == rd32(p, 28 + 16 * i));
        if i > 0 {
            assert(rd32(d, 16 + 16 * (i - 1)) == rd32(p, 16 + 16 * (i - 1)));
            assert(rd16(d, 20 + 16 * (i - 1)) == rd16(p, 20 + 16 * (i - 1)));
            assert(rd32(d, 22 + 16 * (i - 1)) == rd32(p, 22 + 16 * (i - 1)));
            assert(rd16(d, 26 + 16 * (i - 1)) == rd16(p, 26 + 16 * (i - 1)));
            assert(rd32(d, 28 + 16 * (i - 1)) == rd32(p, 28 + 16 * (i - 1)));
        }
    }
    if parse_pinyin(p) is Some {
        assert(Seq::new(rd32(d, 8) as nat, |i: int| py_entry_at(d, i)) =~= Seq::new(rd32(p, 8) as nat, |i: int| py_entry_at(p, i)));
    } else {
        if parse_pinyin(d) is Some {
            assert forall|i: int| 0 <= i < rd32(p, 8) implies #[trigger] py_record_ok(p, i) by {
                assert(py_record_ok(d, i));
            }
        }
    }
}

/// Loading what `save` writes gives the dictionary back: the "ZPY1" bytes
/// of entries in dictionary order that fit the format parse to those very
/// entries, which the loader's sort leaves in place, and a double-pinyin
/// segment after them, when written, is found again and parses to its map.
pub proof fn lemma_pinyin_roundtrip(e: Seq<PinyinEntry>, z: Option<Seq<ZrmEntry>>)
    requires
        sorted_by(e, py_order()),
        py_fits(e),
        z matches Some(m) ==> parse_zrm(zrm_bytes(m)) == Some(m),
    ensures
        ({
            let d = py_bytes(e) + match z { Some(m) => zrm_bytes(m), None => Seq::<u8>::empty() };
            &&& parse_pinyin(d) == Some(e)
            &&& stable_sort_by(e, py_order()) == e
            &&& has_zrm_segment(d) == (z is Some)
            &&& z matches Some(m) ==> parse_zrm(d.subrange(py_blob_end(d), d.len() as int)) == Some(m)
        }),
{
    crate::seqs::lemma_stable_sort_sorted(e, py_order());
    let p = py_bytes(e);
    lemma_py_header(e);
    lemma_concat_valid(py_codes(e));
    lemma_concat_valid(py_words(e));
    vstd::utf8::valid_utf8_concat(utf8_concat(py_codes(e)), utf8_concat(py_words(e)));
    assert forall|i: int| 0 <= i < rd32(p, 8) implies #[trigger] py_record_ok(p, i) by {
        lemma_py_entry(e, i);
        if i > 0 {
            lemma_py_entry(e, i - 1);
            assert(py_order()(e[i - 1], e[i]));
        }
    }
    assert forall|i: int| 0 <= i < e.len() implies Seq::new(rd32(p, 8) as nat, |i: int| py_entry_at(p, i))[i] == e[i] by {
        lemma_py_entry(e, i);
    }
    assert(Seq::new(rd32(p, 8) as nat, |i: int| py_entry_at(p, i)) =~= e);
    let rest = match z { Some(m) => zrm_bytes(m), None => Seq::<u8>::empty() };
    let d = p + rest;
    lemma_py_extend(p, rest);
    match z {
        Some(m) => {
            assert(d.subrange(py_blob_end(d), d.len() as int) =~= rest);
            lemma_sub_add(p, rest, p.len() as int, p.len() as int + 4);
            assert(rest.subrange(0, 4) =~= rest.subrange(0, 4));
            assert(rd32(d, py_blob_end(d)) == rd32(rest, 0));
        },
        None => {
            assert(d =~= p);
        },
    }
}

impl PinyinDict {
    /// Appends the "ZPY1" serialization to `w`, followed by the double-pinyin
    /// map's "ZRM1" segment when there is one; fails, writing nothing, when
    /// either does not fit its format's field widths.
    pub fn save(&self, w: &mut Vec<u8>) -> (r: Result<(), String>)
        ensures
            r is Ok <==> py_fits(self@) && (self.zrm_view() matches Some(z) ==> zrm_fits(z)),
            r is Ok ==> final(w)@ == old(w)@ + py_bytes(self@) + match self.zrm_view() {
                Some(z) => zrm_bytes(z),
                None => Seq::<u8>::empty(),
            },
            r is Ok ==> ({
                let d = py_bytes(self@) + match self.zrm_view() { Some(z) => zrm_bytes(z), None => Seq::<u8>::empty() };
                &&& parse_pinyin(d) == Some(self@)
                &&& has_zrm_segment(d) == (self.zrm_view() is Some)
                &&& self.zrm_view() matches Some(m) ==> parse_zrm(d.subrange(py_blob_end(d), d.len() as int)) == Some(m)
            }),
            r is Err ==> final(w)@ == old(w)@,
    {
        proof { use_type_invariant(self); }
        let ghost e = self@;
        let ghost cs = py_codes(e);
        let ghost ws = py_words(e);
        let n = self.codes.len();
        let mut code_strs: Vec<String> = Vec::new();
        let mut i: usize = 0;
        while i < n
            invariant
                e == self@,
                n == self.codes@.len() == self.words@.len() == self.weights@.len(),
                i <= n,
                code_strs@.len() == i,
                forall|j: int| 0 <= j < i ==> (#[trigger] code_strs@[j])@ == e[j].0,
            decreases n - i,
        {
            code_strs.push(string_of(self.codes[i].as_slice()));
            i += 1;
        }
        // Pass 1: lengths and field widths.
        let mut clen: u64 = 0;
        let mut wlen: u64 = 0;
        let mut i: usize = 0;
        while i < n
            invariant
                e == self@,
                cs == py_codes(e),
                ws == py_words(e),
                n == self.codes@.len() == self.words@.len() == self.weights@.len() == code_strs@.len(),
                forall|j: int| 0 <= j < n ==> (#[trigger] code_strs@[j])@ == e[j].0,
                i <= n,
                clen == utf8_concat(cs.take(i as int)).len(),
                wlen == utf8_concat(ws.take(i as int)).len(),
                clen + wlen <= u32::MAX,
                forall|j: int| 0 <= j < i ==> utf8((#[trigger] e[j]).0).len() <= u16::MAX && utf8(e[j].1).len() <= u16::MAX,
            decreases n - i,
        {
            let a = utf8_len(code_strs[i].as_str());
            let b = utf8_len(self.words[i].as_str());
            proof {
                assert(cs[i as int] == e[i as int].0 && ws[i as int] == e[i as int].1);
                assert(e[i as int].1 == self.words@[i as int]@);
                lemma_utf8_concat_step(cs, i as int);
                lemma_utf8_concat_step(ws, i as int);
            }
            if a > 65535 || b > 65535 {
                return Err(string_from("字词或拼音过长，超出码表格式"));
            }
            if clen + wlen + a as u64 + b as u64 > 0xFFFF_FFFF {
                proof {
                    lemma_utf8_concat_prefix(cs, i + 1);
                    lemma_utf8_concat_prefix(ws, i + 1);
                }
                return Err(string_from("字词区超出码表格式"));
            }
            clen = clen + a as u64;
            wlen = wlen + b as u64;
            i += 1;
        }
        proof {
            assert(cs.take(n as int) == cs);
            assert(ws.take(n as int) == ws);
        }
        if n > 0xFFFF_FFFF {
            return Err(string_from("条目过多，超出码表格式"));
        }
        let mut ext: Vec<u8> = Vec::new();
        match &self.zrm {
            Some(z) => {
                match z.save(&mut ext) {
                    Ok(()) => {},
                    Err(msg) => return Err(msg),
                }
            },
            None => {},
        }
        assert(ext@ == match self.zrm_view() { Some(z) => zrm_bytes(z), None => Seq::<u8>::empty() });
        assert(self.zrm_view() matches Some(m) ==> parse_zrm(zrm_bytes(m)) == Some(m));
        let ghost w0 = w@;
        push_u32(w, PY_MAGIC);
        push_u32(w, PY_VERSION);
        push_u32(w, n as u32);
        push_u32(w, (clen + wlen) as u32);
        let ghost head = le32(PY_MAGIC) + le32(PY_VERSION) + le32(n as u32) + le32((clen + wlen) as u32);
        assert(w@ =~= w0 + head);
        // Pass 2: the records.
        let mut co: u64 = 0;
        let mut wo: u64 = 0;
        let mut i: usize = 0;
        while i < n
            invariant
                e == self@,
                cs == py_codes(e),
                ws == py_words(e),
                n == self.codes@.len() == self.words@.len() == self.weights@.len() == code_strs@.len(),
                forall|j: int| 0 <= j < n ==> (#[trigger] code_strs@[j])@ == e[j].0,
                i <= n,
                py_fits(e),
                clen == utf8_concat(cs).len(),
                co == utf8_concat(cs.take(i as int)).len(),
                wo == utf8_concat(ws.take(i as int)).len(),
                w@ == w0 + head + py_records(e.take(i as int), clen as int),
            decreases n - i,
        {
            let a = utf8_len(code_strs[i].as_str());
            let b = utf8_len(self.words[i].as_str());
            proof {
                assert(cs[i as int] == e[i as int].0 && ws[i as int] == e[i as int].1);
                assert(e[i as int].1 == self.words@[i as int]@);
                assert(e[i as int].2 == self.weights@[i as int]);
                lemma_utf8_concat_step(cs, i as int);
                lemma_utf8_concat_step(ws, i as int);
                lemma_utf8_concat_prefix(cs, i + 1);
                lemma_utf8_concat_prefix(ws, i + 1);
                assert(e.take(i + 1).drop_last() == e.take(i as int));
                assert(e.take(i + 1).last() == e[i as int]);
                assert(py_codes(e.take(i as int)) == cs.take(i as int));
                assert(py_words(e.take(i as int)) == ws.take(i as int));
            }
            push_u32(w, co as u32);
            push_u16(w, a as u16);
            push_u32(w, (clen + wo) as u32);
            push_u16(w, b as u16);
            push_u32(w, self.weights[i]);
            co = co + a as u64;
            wo = wo + b as u64;
            i += 1;
        }
        proof {
            assert(e.take(n as int) == e);
        }
        // Pass 3: the blob, codes first.
        let ghost w1 = w@;
        let mut i: usize = 0;
        while i < n
            invariant
                e == self@,
                cs == py_codes(e),
                n == self.codes@.len() == code_strs@.len(),
                forall|j: int| 0 <= j < n ==> (#[trigger] code_strs@[j])@ == e[j].0,
                i <= n,
                w@ == w1 + utf8_concat(cs.take(i as int)),
            decreases n - i,
        {
            push_str_bytes(w, code_strs[i].as_str());
            proof {
                assert(cs[i as int] == e[i as int].0);
                lemma_utf8_concat_step(cs, i as int);
            }
            i += 1;
        }
        let ghost w2 = w@;
        let mut i: usize = 0;
        while i < n
            invariant
                e == self@,
                ws == py_words(e),
                n == self.words@.len() == self.codes@.len(),
                i <= n,
                w@ == w2 + utf8_concat(ws.take(i as int)),
            decreases n - i,
        {
            push_str_bytes(w, self.words[i].as_str());
            proof {
                assert(ws[i as int] == e[i as int].1);
                assert(e[i as int].1 == self.words@[i as int]@);
                lemma_utf8_concat_step(ws, i as int);
            }
            i += 1;
        }
        proof {
            assert(cs.take(n as int) == cs);
            assert(ws.take(n as int) == ws);
            assert(w@ =~= w0 + py_bytes(e));
            lemma_pinyin_roundtrip(e, self.zrm_view());
        }
        crate::codec::append_bytes(w, ext.as_slice());
        Ok(())
    }

    /// Reads a "ZPY1" file, and the "ZRM1" segment after it when there is
    /// one, sorting the entries into dictionary order (a file written by
    /// `save` is in that order already); fails on malformed or truncated
    /// data in either.
    pub fn load(data: &[u8]) -> (r: Result<PinyinDict, String>)
        ensures
            match parse_pinyin(data@) {
                Some(e) => if has_zrm_segment(data@) {
                    match parse_zrm(data@.subrange(py_blob_end(data@), data@.len() as int)) {
                        Some(z) => r matches Ok(d) && d@ == stable_sort_by(e, py_order())
                            && d.zrm_view() == Some(stable_sort_by(z, crate::zrm::key_order())),
                        None => r is Err,
                    }
                } else {
                    r matches Ok(d) && d@ == stable_sort_by(e, py_order()) && d.zrm_view() is None
                },
                None => r is Err,
            },
    {
        proof { lemma_py_order(); }
        let magic = match read_u32(data, 0) {
            Some(x) => x,
            None => return Err(string_from("文件截断")),
        };
        if magic != PY_MAGIC {
            return Err(string_from("魔数不对（不是 ZPY1 码表）"));
        }
        let version = match read_u32(data, 4) {
            Some(x) => x,
            None => return Err(string_from("文件截断")),
        };
        if version != PY_VERSION {
            return Err(string_from("版本不支持"));
        }
        let n = match read_u32(data, 8) {
            Some(x) => x,
            None => return Err(string_from("文件截断")),
        };
        let blob_len = match read_u32(data, 12) {
            Some(x) => x,
            None => return Err(string_from("文件截断")),
        };
        let ent_end: u64 = 16 + 16 * (n as u64);
        if (data.len() as u64) < ent_end + blob_len as u64 {
            return Err(string_from("文件截断"));
        }
        let ent_end = ent_end as usize;
        let blob_end = ent_end + blob_len as usize;
        let blob = vstd::slice::slice_subrange(data, ent_end, blob_end);
        assert(blob@ == py_blob_of(data@));
        if !is_valid_utf8(blob) {
            return Err(string_from("blob 不是合法 UTF-8"));
        }
        let ghost fe = Seq::new(n as nat, |j: int| py_entry_at(data@, j));
        let mut codes: Vec<Vec<char>> = Vec::new();
        let mut words: Vec<String> = Vec::new();
        let mut weights: Vec<u32> = Vec::new();
        let mut i: usize = 0;
        while i < n as usize
            invariant
                total_preorder(py_order()),
                py_header_ok(data@),
                n == rd32(data@, 8),
                blob_len == rd32(data@, 12),
                blob@ == py_blob_of(data@),
                i <= n,
                data@.len() >= 16 + 16 * (n as int) + blob_len,
                codes@.len() == i,
                words@.len() == i,
                weights@.len() == i,
                forall|j: int| 0 <= j < i ==> #[trigger] py_record_ok(data@, j),
                fe == Seq::new(n as nat, |j: int| py_entry_at(data@, j)),
                Seq::new(codes@.len(), |j: int| (codes@[j]@, words@[j]@, weights@[j])) == stable_sort_by(fe.take(i as int), py_order()),
            decreases n - i,
        {
            proof {
                assert(16 + (i as int) * 16 + 16 <= 16 + 16 * (n as int)) by (nonlinear_arith)
                    requires i < n;
                assert(data@.len() == data.len());
            }
            let o = 16 + i * 16;
            let co = read_u32(data, o).unwrap();
            let cl = read_u16(data, o + 4).unwrap();
            let wo = read_u32(data, o + 6).unwrap();
            let wl = read_u16(data, o + 10).unwrap();
            let weight = read_u32(data, o + 12).unwrap();
            let code = match read_piece(blob, co, cl) {
                Some(s) => s,
                None => {
                    proof { assert(!py_record_ok(data@, i as int)); }
                    return Err(string_from("编码偏移越界"));
                },
            };
            let word = match read_piece(blob, wo, wl) {
                Some(s) => s,
                None => {
                    proof { assert(!py_record_ok(data@, i as int)); }
                    return Err(string_from("字词偏移越界"));
                },
            };
            let cc = chars_of(code.as_str());
            let ghost ent = (cc@, word@, weight);
            assert(ent == py_entry_at(data@, i as int));
            let ghost t = Seq::new(codes@.len(), |j: int| (codes@[j]@, words@[j]@, weights@[j]));
            proof {
                lemma_stable_sort_by(fe.take(i as int), py_order());
                assert(fe.take(i + 1).drop_last() =~= fe.take(i as int));
                assert(fe.take(i + 1).last() == ent);
                assert(py_record_ok(data@, i as int));
            }
            let p = Self::insert_pos(&codes, &weights, &cc, weight, Ghost(t), Ghost(ent));
            codes.insert(p, cc);
            words.insert(p, word);
            weights.insert(p, weight);
            proof {
                let u = Seq::new(codes@.len(), |j: int| (codes@[j]@, words@[j]@, weights@[j]));
                assert(u =~= t.insert(p as int, ent));
            }
            i += 1;
        }
        let mut zrm: Option<ZrmMap> = None;
        if data.len() - blob_end > 4 {
            let ext = vstd::slice::slice_subrange(data, blob_end, data.len());
            if read_u32(ext, 0).unwrap() == ZRM_MAGIC {
                proof {
                    assert(ext@.subrange(0, 4) =~= data@.subrange(blob_end as int, blob_end + 4));
                }
                match ZrmMap::load(ext) {
                    Ok(z) => { zrm = Some(z); },
                    Err(msg) => return Err(msg),
                }
            } else {
                proof {
                    assert(ext@.subrange(0, 4) =~= data@.subrange(blob_end as int, blob_end + 4));
                }
            }
        }
        proof {
            assert(fe.take(n as int) =~= fe);
            assert(fe =~= parse_pinyin(data@)->0);
            lemma_stable_sort_by(fe, py_order());
        }
        let d = PinyinDict { codes, words, weights, zrm };
        Ok(d)
    }
}

/// `s` is below `s` followed by any character.


pub proof fn lemma_seq_lt_push(s: Seq<char>, c: char)
    ensures
        seq_lt(s, s.push(c)),
    decreases s.len(),
{
    if s.len() > 0 {
        assert(s.push(c).drop_first() == s.drop_first().push(c));
        lemma_seq_lt_push(s.drop_first(), c);
    }
}

} // verus!
