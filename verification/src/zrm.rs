//! Double-pinyin reverse map (two keystrokes -> full-pinyin syllable), used
//! by the script translator in double-pinyin mode.
//!
//! Natural Code double pinyin spells every syllable with exactly two keys
//! ("vs" -> "zhong", "go" -> "guo"). At build time the algebra turns every
//! syllable of the dictionary into its two keys; at run time the typed keys
//! are mapped back to full pinyin before composition.
//!
//! Binary format "ZRM1" (little endian), an extension segment after ZPY1:
//! ```text
//! u32 magic       = 0x31524D5A ("ZRM1")
//! u32 version     = 1
//! u32 entry_count
//! u32 blob_len
//! entry_count x { u32 key_off, u16 key_len, u32 py_off, u16 py_len }
//! blob_len x u8   // UTF-8 of all keys, then of all syllables
//! ```
//! Keys are sorted ascending for binary search.
use vstd::prelude::*;
use crate::text::{seq_lt, seq_le, chars_of, chars_lt, chars_eq, string_from, string_of, push_char,
    is_delimiter, char_seqs, strictly_sorted, search_sorted,
    lemma_seq_lt_irreflexive, lemma_seq_lt_transitive, lemma_seq_lt_total, lemma_seq_lt_asymmetric,
    lemma_seq_le_transitive};
use crate::seqs::{total_preorder, sorted_by, stable_sort_by, upper_pos_by, lemma_stable_sort_by, lemma_upper_pos_by,
    lemma_stable_sort_sorted};
use crate::algebra::{Algebra, RuleSpec, transform_spec, strings_view};
use crate::codec::{le32, le16, rd32, rd16, utf8, utf8_concat, piece_ok, piece, read_piece, read_u32, read_u16,
    push_u32, push_u16, push_str_bytes, utf8_len, is_valid_utf8, lemma_utf8_concat_prefix, lemma_utf8_concat_step,
    lemma_sub_add, lemma_rd32, lemma_rd16, lemma_le_lens, lemma_concat_take, lemma_concat_valid, lemma_piece_of_concat};

verus! {

/// One mapping as seen by the contracts: (keys, syllable).
pub type ZrmEntry = (Seq<char>, Seq<char>);

/// Keys strictly increase, so every key occurs once.
pub open spec fn keys_strictly_sorted(m: Seq<ZrmEntry>) -> bool {
    forall|i: int, j: int| 0 <= i < j < m.len() ==> seq_lt(#[trigger] m[i].0, #[trigger] m[j].0)
}

/// The syllable mapped from `k`, if any.
pub open spec fn zrm_lookup(m: Seq<ZrmEntry>, k: Seq<char>) -> Option<Seq<char>>
    decreases m.len(),
{
    if m.len() == 0 {
        None
    } else if m.last().0 == k {
        Some(m.last().1)
    } else {
        zrm_lookup(m.drop_last(), k)
    }
}

/// Spelling of the key pair at pair index `j`: its syllable, or the two keys
/// themselves when they map to nothing.
pub open spec fn pair_spelling(m: Seq<ZrmEntry>, ks: Seq<char>, j: int) -> Seq<char> {
    let k = ks.subrange(2 * j, 2 * j + 2);
    match zrm_lookup(m, k) {
        Some(p) => p,
        None => k,
    }
}

/// Spellings of the first `n` key pairs, concatenated.
pub open spec fn spell_pairs(m: Seq<ZrmEntry>, ks: Seq<char>, n: int) -> Seq<char>
    decreases n,
{
    if n <= 0 {
        Seq::empty()
    } else {
        spell_pairs(m, ks, n - 1) + pair_spelling(m, ks, n - 1)
    }
}

/// What `to_pinyin` computes: every complete key pair spelled out; an odd
/// trailing key is dropped.
pub open spec fn zrm_to_pinyin(m: Seq<ZrmEntry>, ks: Seq<char>) -> Seq<char> {
    spell_pairs(m, ks, (ks.len() / 2) as int)
}

/// What `to_pinyin_display` computes: as `zrm_to_pinyin`, keeping an odd
/// trailing key.
pub open spec fn zrm_to_display(m: Seq<ZrmEntry>, ks: Seq<char>) -> Seq<char> {
    if ks.len() % 2 == 1 {
        zrm_to_pinyin(m, ks).push(ks.last())
    } else {
        zrm_to_pinyin(m, ks)
    }
}

proof fn lemma_spell_pairs_prefix(m: Seq<ZrmEntry>, ks: Seq<char>, ext: Seq<char>, n: int)
    requires
        0 <= n,
        2 * n <= ks.len(),
    ensures
        spell_pairs(m, ks + ext, n) == spell_pairs(m, ks, n),
    decreases n,
{
    if n > 0 {
        lemma_spell_pairs_prefix(m, ks, ext, n - 1);
        assert((ks + ext).subrange(2 * (n - 1), 2 * (n - 1) + 2) =~= ks.subrange(2 * (n - 1), 2 * (n - 1) + 2));
    }
}

/// Key strokes to pinyin, one pair at a time: no keys give nothing, an odd
/// trailing key adds nothing, and a complete pair `a b` after an even
/// number of keys adds the syllable the map holds for it or, when the map
/// holds none, the two keys exactly as typed.
pub proof fn law_to_pinyin_spells_each_pair(m: Seq<ZrmEntry>, ks: Seq<char>, a: char, b: char)
    requires
        ks.len() % 2 == 0,
    ensures
        zrm_to_pinyin(m, Seq::empty()) == Seq::<char>::empty(),
        zrm_to_pinyin(m, ks.push(a)) == zrm_to_pinyin(m, ks),
        zrm_to_pinyin(m, ks + seq![a, b]) == zrm_to_pinyin(m, ks) + match zrm_lookup(m, seq![a, b]) {
            Some(p) => p,
            None => seq![a, b],
        },
{
    let n: int = (ks.len() / 2) as int;
    assert(ks.push(a).len() / 2 == n);
    assert(ks.push(a) =~= ks + seq![a]);
    lemma_spell_pairs_prefix(m, ks, seq![a], n);
    let k2 = ks + seq![a, b];
    assert(k2.len() / 2 == n + 1);
    lemma_spell_pairs_prefix(m, ks, seq![a, b], n);
    assert(k2.subrange(2 * n, 2 * n + 2) =~= seq![a, b]);
}

proof fn lemma_lookup_found(m: Seq<ZrmEntry>, i: int)
    requires
        keys_strictly_sorted(m),
        0 <= i < m.len(),
    ensures
        zrm_lookup(m, m[i].0) == Some(m[i].1),
    decreases m.len(),
{
    if i < m.len() - 1 {
        let t = m.drop_last();
        assert(seq_lt(m[i].0, m[m.len() - 1].0));
        lemma_seq_lt_asymmetric(m[i].0, m[m.len() - 1].0);
        assert(keys_strictly_sorted(t)) by {
            assert forall|a: int, b: int| 0 <= a < b < t.len() implies seq_lt(#[trigger] t[a].0, #[trigger] t[b].0) by {
                assert(t[a] == m[a] && t[b] == m[b]);
            }
        }
        lemma_lookup_found(t, i);
        assert(t[i] == m[i]);
    }
}

proof fn lemma_lookup_missing(m: Seq<ZrmEntry>, k: Seq<char>)
    requires
        forall|i: int| 0 <= i < m.len() ==> #[trigger] m[i].0 != k,
    ensures
        zrm_lookup(m, k) is None,
    decreases m.len(),
{
    if m.len() > 0 {
        let t = m.drop_last();
        assert forall|i: int| 0 <= i < t.len() implies #[trigger] t[i].0 != k by {
            assert(t[i] == m[i]);
        }
        lemma_lookup_missing(t, k);
    }
}

/// Some key of the map holds `ch`.
pub open spec fn has_key_char(m: Seq<ZrmEntry>, ch: char) -> bool {
    exists|i: int, k: int| 0 <= i < m.len() && 0 <= k < m[i].0.len() && #[trigger] m[i].0[k] == ch
}

/// Double-pinyin reverse map, keys ascending.
pub struct ZrmMap {
    keys: Vec<Vec<char>>,
    pinyins: Vec<String>,
}

impl View for ZrmMap {
    type V = Seq<ZrmEntry>;

    closed spec fn view(&self) -> Seq<ZrmEntry> {
        Seq::new(self.keys@.len(), |i: int| (self.keys@[i]@, self.pinyins@[i]@))
    }
}

impl ZrmMap {
    #[verifier::type_invariant]
    closed spec fn inv(self) -> bool {
        &&& self.keys@.len() == self.pinyins@.len()
        &&& keys_strictly_sorted(Seq::new(self.keys@.len(), |i: int| (self.keys@[i]@, self.pinyins@[i]@)))
    }

    pub fn len(&self) -> (n: usize)
        ensures
            n == self@.len(),
    {
        proof { use_type_invariant(self); }
        self.keys.len()
    }

    pub fn is_empty(&self) -> (b: bool)
        ensures
            b == (self@.len() == 0),
    {
        proof { use_type_invariant(self); }
        self.keys.len() == 0
    }

    /// One key pair -> its full-pinyin syllable.
    pub fn lookup(&self, key: &str) -> (r: Option<&str>)
        ensures
            match zrm_lookup(self@, key@) {
                Some(p) => r matches Some(s) && s@ == p,
                None => r is None,
            },
    {
        let k = chars_of(key);
        match self.find(&k) {
            Some(i) => Some(self.pinyins[i].as_str()),
            None => None,
        }
    }

    /// Index of the key equal to `k`.
    fn find(&self, k: &Vec<char>) -> (r: Option<usize>)
        ensures
            keys_strictly_sorted(self@),
            self.keys@.len() == self.pinyins@.len(),
            match r {
                Some(i) => i < self@.len() && self@[i as int].0 == k@ && zrm_lookup(self@, k@) == Some(self@[i as int].1)
                    && self@[i as int].1 == self.pinyins@[i as int]@,
                None => zrm_lookup(self@, k@) is None,
            },
    {
        proof { use_type_invariant(self); }
        let ghost m = self@;
        let mut lo: usize = 0;
        let mut hi: usize = self.keys.len();
        while lo < hi
            invariant
                lo <= hi <= self.keys@.len(),
                m == self@,
                self.keys@.len() == self.pinyins@.len(),
                keys_strictly_sorted(m),
                forall|i: int| 0 <= i < lo ==> seq_lt(#[trigger] m[i].0, k@),
                forall|i: int| hi <= i < m.len() ==> !seq_lt(#[trigger] m[i].0, k@),
            decreases hi - lo,
        {
            let mid = lo + (hi - lo) / 2;
            assert(m[mid as int].0 == self.keys@[mid as int]@);
            if chars_lt(self.keys[mid].as_slice(), k.as_slice()) {
                proof {
                    assert forall|i: int| 0 <= i < mid + 1 implies seq_lt(#[trigger] m[i].0, k@) by {
                        if i < mid {
                            lemma_seq_lt_transitive(m[i].0, m[mid as int].0, k@);
                        }
                    }
                }
                lo = mid + 1;
            } else {
                proof {
                    assert forall|i: int| mid <= i < m.len() implies !seq_lt(#[trigger] m[i].0, k@) by {
                        if i > mid && seq_lt(m[i].0, k@) {
                            lemma_seq_lt_total(m[mid as int].0, k@);
                            if m[mid as int].0 == k@ {
                                lemma_seq_lt_asymmetric(m[mid as int].0, m[i].0);
                            } else {
                                lemma_seq_lt_transitive(k@, m[mid as int].0, m[i].0);
                                lemma_seq_lt_irreflexive(k@);
                                lemma_seq_lt_transitive(k@, m[i].0, k@);
                            }
                        }
                    }
                }
                hi = mid;
            }
        }
        if lo < self.keys.len() && chars_eq(self.keys[lo].as_slice(), k.as_slice()) {
            proof {
                assert(m[lo as int].0 == self.keys@[lo as int]@);
                lemma_lookup_found(m, lo as int);
            }
            Some(lo)
        } else {
            proof {
                assert forall|i: int| 0 <= i < m.len() implies #[trigger] m[i].0 != k@ by {
                    if i < lo {
                        lemma_seq_lt_irreflexive(k@);
                    } else if i > lo {
                        assert(seq_lt(m[lo as int].0, m[i].0));
                        lemma_seq_lt_total(m[lo as int].0, k@);
                        if seq_lt(k@, m[lo as int].0) {
                            lemma_seq_lt_transitive(k@, m[lo as int].0, m[i].0);
                            lemma_seq_lt_irreflexive(k@);
                        }
                    } else {
                        assert(m[lo as int].0 == self.keys@[lo as int]@);
                    }
                }
                lemma_lookup_missing(m, k@);
            }
            None
        }
    }

    /// Key sequence -> full pinyin: every two keys map to one syllable
    /// (an unmapped pair is kept as typed); an odd trailing key is dropped,
    /// being the start of the next syllable.
    pub fn to_pinyin(&self, keystrokes: &str) -> (r: String)
        ensures
            r@ == zrm_to_pinyin(self@, keystrokes@),
    {
        let ks = chars_of(keystrokes);
        let mut out = String::new();
        let mut i: usize = 0;
        let ghost mut j: int = 0;
        while i + 1 < ks.len()
            invariant
                ks@ == keystrokes@,
                i == 2 * j,
                0 <= j,
                i <= ks@.len(),
                out@ == spell_pairs(self@, ks@, j),
            decreases ks@.len() - i,
        {
            let key: Vec<char> = vec![ks[i], ks[i + 1]];
            assert(key@ =~= ks@.subrange(2 * j, 2 * j + 2));
            match self.find(&key) {
                Some(p) => {
                    append_str(&mut out, self.pinyins[p].as_str());
                },
                None => {
                    push_char(&mut out, ks[i]);
                    push_char(&mut out, ks[i + 1]);
                    assert(out@ =~= spell_pairs(self@, ks@, j) + key@);
                },
            }
            i += 2;
            proof { j = j + 1; }
        }
        assert(j == ks@.len() / 2);
        out
    }

    /// Display form of a key sequence: as `to_pinyin`, but an odd trailing
    /// key is kept.
    pub fn to_pinyin_display(&self, keystrokes: &str) -> (r: String)
        ensures
            r@ == zrm_to_display(self@, keystrokes@),
    {
        let mut out = self.to_pinyin(keystrokes);
        let ks = chars_of(keystrokes);
        if ks.len() % 2 == 1 {
            push_char(&mut out, ks[ks.len() - 1]);
        }
        out
    }

    /// Whether `ch` occurs in some key of the map.
    pub fn accepts_key_char(&self, ch: char) -> (b: bool)
        ensures
            b == has_key_char(self@, ch),
    {
        proof { use_type_invariant(self); }
        let mut i: usize = 0;
        while i < self.keys.len()
            invariant
                i <= self.keys@.len(),
                self.keys@.len() == self.pinyins@.len(),
                forall|a: int, k: int| 0 <= a < i && 0 <= k < self@[a].0.len() ==> #[trigger] self@[a].0[k] != ch,
            decreases self.keys@.len() - i,
        {
            let key = &self.keys[i];
            let mut k: usize = 0;
            while k < key.len()
                invariant
                    k <= key@.len(),
                    i < self.keys@.len(),
                    self.keys@.len() == self.pinyins@.len(),
                    key@ == self@[i as int].0,
                    forall|b: int| 0 <= b < k ==> key@[b] != ch,
                decreases key@.len() - k,
            {
                if key[k] == ch {
                    assert(self@[i as int].0[k as int] == ch);
                    return true;
                }
                k += 1;
            }
            i += 1;
        }
        false
    }
}

// ── building the map ───────────────────────────────────────────────────

/// Splitting the first `n` characters of `s` at delimiters: the finished
/// non-empty parts, and the part still open.
pub open spec fn split_acc(s: Seq<char>, n: int) -> (Seq<Seq<char>>, Seq<char>)
    decreases n,
{
    if n <= 0 {
        (Seq::empty(), Seq::empty())
    } else {
        let prev = split_acc(s, n - 1);
        if is_delimiter(s[n - 1]) {
            (if prev.1.len() > 0 { prev.0.push(prev.1) } else { prev.0 }, Seq::empty())
        } else {
            (prev.0, prev.1.push(s[n - 1]))
        }
    }
}

/// The non-empty pieces of `s` between delimiters (space, apostrophe), in
/// order: the single syllables of a dictionary spelling.
pub open spec fn syllable_parts(s: Seq<char>) -> Seq<Seq<char>> {
    let r = split_acc(s, s.len() as int);
    if r.1.len() > 0 { r.0.push(r.1) } else { r.0 }
}

/// The single syllables of all given spellings, in order (with repeats).
pub open spec fn all_parts(sylls: Seq<Seq<char>>) -> Seq<Seq<char>>
    decreases sylls.len(),
{
    if sylls.len() == 0 {
        Seq::empty()
    } else {
        all_parts(sylls.drop_last()) + syllable_parts(sylls.last())
    }
}

/// `m` is the map built from the syllables `u` under `rules`: keys ascend;
/// every entry maps the two keys that the rules make of one of the
/// syllables back to it; of several syllables with the same keys the least
/// one is kept; and every syllable the rules turn into exactly two keys has
/// an entry for those keys.
pub open spec fn built_from(m: Seq<ZrmEntry>, u: Seq<Seq<char>>, rules: Seq<RuleSpec>) -> bool {
    exists|src: Seq<int>, dst: Seq<int>| built_by(m, u, speller(rules), src, dst)
}

/// The spelling function of a rule set.
pub open spec fn speller(rules: Seq<RuleSpec>) -> spec_fn(Seq<char>) -> Seq<char> {
    |s: Seq<char>| transform_spec(rules, s)
}

/// `built_from` for any spelling function `f`, with its witnesses: entry `i`
/// holds syllable `src[i]` of `u`, and syllable `j` of `u`, when it makes
/// two keys, has them in entry `dst[j]`.
pub open spec fn built_by(m: Seq<ZrmEntry>, u: Seq<Seq<char>>, f: spec_fn(Seq<char>) -> Seq<char>,
    src: Seq<int>, dst: Seq<int>) -> bool {
    &&& keys_strictly_sorted(m)
    &&& src.len() == m.len()
    &&& dst.len() == u.len()
    &&& forall|i: int| 0 <= i < m.len() ==> f((#[trigger] m[i]).1) == m[i].0 && m[i].0.len() == 2
    &&& forall|i: int| 0 <= i < m.len() ==> 0 <= #[trigger] src[i] < u.len() && u[src[i]] == m[i].1
    &&& forall|i: int, j: int| #![trigger m[i], u[j]] 0 <= i < m.len() && 0 <= j < u.len()
            && f(u[j]) == m[i].0 ==> seq_le(m[i].1, u[j])
    &&& forall|j: int| 0 <= j < u.len() && f(u[j]).len() == 2
            ==> 0 <= #[trigger] dst[j] < m.len() && m[dst[j]].0 == f(u[j])
}

pub open spec fn zrm_pairs(keys: Seq<Vec<char>>, pins: Seq<String>) -> Seq<ZrmEntry> {
    Seq::new(keys.len(), |i: int| (keys[i]@, pins[i]@))
}

proof fn lemma_built_skip(m: Seq<ZrmEntry>, u: Seq<Seq<char>>, f: spec_fn(Seq<char>) -> Seq<char>,
    src: Seq<int>, dst: Seq<int>, p: Seq<char>)
    requires
        built_by(m, u, f, src, dst),
        f(p).len() != 2,
    ensures
        built_by(m, u.push(p), f, src, dst.push(0)),
{
    let v = u.push(p);
    let d2 = dst.push(0);
    assert forall|i: int| 0 <= i < m.len() implies 0 <= #[trigger] src[i] < v.len() && v[src[i]] == m[i].1 by {
        assert(v[src[i]] == u[src[i]]);
    }
    assert forall|i: int, j: int| #![trigger m[i], v[j]] 0 <= i < m.len() && 0 <= j < v.len()
        && f(v[j]) == m[i].0 implies seq_le(m[i].1, v[j]) by {
        if j < u.len() {
            assert(v[j] == u[j]);
        }
    }
    assert forall|j: int| 0 <= j < v.len() && f(v[j]).len() == 2
        implies 0 <= #[trigger] d2[j] < m.len() && m[d2[j]].0 == f(v[j]) by {
        assert(v[j] == u[j]);
        assert(d2[j] == dst[j]);
    }
}

proof fn lemma_built_keep(m: Seq<ZrmEntry>, u: Seq<Seq<char>>, f: spec_fn(Seq<char>) -> Seq<char>,
    src: Seq<int>, dst: Seq<int>, p: Seq<char>, k: int)
    requires
        built_by(m, u, f, src, dst),
        0 <= k < m.len(),
        m[k].0 == f(p),
        seq_le(m[k].1, p),
    ensures
        built_by(m, u.push(p), f, src, dst.push(k)),
{
    let v = u.push(p);
    let d2 = dst.push(k);
    assert forall|i: int| 0 <= i < m.len() implies 0 <= #[trigger] src[i] < v.len() && v[src[i]] == m[i].1 by {
        assert(v[src[i]] == u[src[i]]);
    }
    assert forall|i: int, j: int| #![trigger m[i], v[j]] 0 <= i < m.len() && 0 <= j < v.len()
        && f(v[j]) == m[i].0 implies seq_le(m[i].1, v[j]) by {
        if j < u.len() {
            assert(v[j] == u[j]);
        } else {
            assert(v[j] == p);
            if i != k {
                assert(seq_lt(m[i].0, m[k].0) || seq_lt(m[k].0, m[i].0));
                lemma_seq_lt_irreflexive(m[i].0);
            }
        }
    }
    assert forall|j: int| 0 <= j < v.len() && f(v[j]).len() == 2
        implies 0 <= #[trigger] d2[j] < m.len() && m[d2[j]].0 == f(v[j]) by {
        if j < u.len() {
            assert(v[j] == u[j]);
            assert(d2[j] == dst[j]);
        } else {
            assert(v[j] == p);
        }
    }
}

proof fn lemma_built_replace(m: Seq<ZrmEntry>, u: Seq<Seq<char>>, f: spec_fn(Seq<char>) -> Seq<char>,
    src: Seq<int>, dst: Seq<int>, p: Seq<char>, k: int)
    requires
        built_by(m, u, f, src, dst),
        0 <= k < m.len(),
        m[k].0 == f(p),
        seq_lt(p, m[k].1),
    ensures
        built_by(m.update(k, (m[k].0, p)), u.push(p), f, src.update(k, u.len() as int), dst.push(k)),
{
    let v = u.push(p);
    let n = m.update(k, (m[k].0, p));
    let s2 = src.update(k, u.len() as int);
    let d2 = dst.push(k);
    assert(keys_strictly_sorted(n)) by {
        assert forall|a: int, b: int| 0 <= a < b < n.len() implies seq_lt(#[trigger] n[a].0, #[trigger] n[b].0) by {
            assert(n[a].0 == m[a].0 && n[b].0 == m[b].0);
        }
    }
    assert forall|i: int| 0 <= i < n.len() implies f((#[trigger] n[i]).1) == n[i].0 && n[i].0.len() == 2 by {
        assert(m[i].0.len() == 2);
    }
    assert forall|i: int| 0 <= i < n.len() implies 0 <= #[trigger] s2[i] < v.len() && v[s2[i]] == n[i].1 by {
        if i != k {
            assert(s2[i] == src[i]);
            assert(v[src[i]] == u[src[i]]);
        }
    }
    assert forall|i: int, j: int| #![trigger n[i], v[j]] 0 <= i < n.len() && 0 <= j < v.len()
        && f(v[j]) == n[i].0 implies seq_le(n[i].1, v[j]) by {
        if j < u.len() {
            assert(v[j] == u[j]);
            assert(seq_le(m[i].1, u[j]));
            if i == k {
                if seq_lt(m[k].1, u[j]) {
                    lemma_seq_lt_transitive(p, m[k].1, u[j]);
                }
            }
        } else {
            assert(v[j] == p);
            if i != k {
                assert(seq_lt(m[i].0, m[k].0) || seq_lt(m[k].0, m[i].0));
                lemma_seq_lt_irreflexive(m[i].0);
            }
        }
    }
    assert forall|j: int| 0 <= j < v.len() && f(v[j]).len() == 2
        implies 0 <= #[trigger] d2[j] < n.len() && n[d2[j]].0 == f(v[j]) by {
        if j < u.len() {
            assert(v[j] == u[j]);
            assert(d2[j] == dst[j]);
        } else {
            assert(v[j] == p);
        }
    }
}

proof fn lemma_built_insert(m: Seq<ZrmEntry>, u: Seq<Seq<char>>, f: spec_fn(Seq<char>) -> Seq<char>,
    src: Seq<int>, dst: Seq<int>, p: Seq<char>, k: int)
    requires
        built_by(m, u, f, src, dst),
        0 <= k <= m.len(),
        f(p).len() == 2,
        forall|i: int| 0 <= i < k ==> seq_lt(#[trigger] m[i].0, f(p)),
        forall|i: int| k <= i < m.len() ==> seq_lt(f(p), #[trigger] m[i].0),
    ensures
        built_by(m.insert(k, (f(p), p)), u.push(p), f, src.insert(k, u.len() as int),
            Seq::new(u.len() + 1, |j: int| if j == u.len() { k } else if dst[j] < k { dst[j] } else { dst[j] + 1 })),
{
    let key = f(p);
    let v = u.push(p);
    let n = m.insert(k, (key, p));
    let s2 = src.insert(k, u.len() as int);
    let d2 = Seq::new(u.len() + 1, |j: int| if j == u.len() { k } else if dst[j] < k { dst[j] } else { dst[j] + 1 });
    assert forall|i: int| 0 <= i < m.len() implies #[trigger] m[i].0 != key by {
        if i < k {
            lemma_seq_lt_asymmetric(m[i].0, key);
        } else {
            lemma_seq_lt_asymmetric(key, m[i].0);
        }
    }
    assert(keys_strictly_sorted(n)) by {
        assert forall|a: int, b: int| 0 <= a < b < n.len() implies seq_lt(#[trigger] n[a].0, #[trigger] n[b].0) by {
            if a < k && b > k {
                assert(n[b] == m[b - 1]);
                lemma_seq_lt_transitive(m[a].0, key, m[b - 1].0);
            } else if a < k && b == k {
            } else if a < k {
                assert(n[a] == m[a] && n[b] == m[b]);
            } else if a == k {
                assert(n[b] == m[b - 1]);
            } else {
                assert(n[a] == m[a - 1] && n[b] == m[b - 1]);
            }
        }
    }
    assert forall|i: int| 0 <= i < n.len() implies f((#[trigger] n[i]).1) == n[i].0 && n[i].0.len() == 2 by {
        if i < k {
            assert(n[i] == m[i]);
        } else if i > k {
            assert(n[i] == m[i - 1]);
        }
    }
    assert forall|i: int| 0 <= i < n.len() implies 0 <= #[trigger] s2[i] < v.len() && v[s2[i]] == n[i].1 by {
        if i < k {
            assert(n[i] == m[i] && s2[i] == src[i]);
            assert(v[src[i]] == u[src[i]]);
        } else if i > k {
            assert(n[i] == m[i - 1] && s2[i] == src[i - 1]);
            assert(v[src[i - 1]] == u[src[i - 1]]);
        }
    }
    assert forall|i: int, j: int| #![trigger n[i], v[j]] 0 <= i < n.len() && 0 <= j < v.len()
        && f(v[j]) == n[i].0 implies seq_le(n[i].1, v[j]) by {
        if i == k {
            if j < u.len() {
                assert(v[j] == u[j]);
                assert(m[dst[j]].0 == f(u[j]));
            } else {
                assert(v[j] == p);
            }
        } else {
            let mi = if i < k { i } else { i - 1 };
            assert(n[i] == m[mi]);
            if j < u.len() {
                assert(v[j] == u[j]);
                assert(seq_le(m[mi].1, u[j]));
            } else {
                assert(v[j] == p);
                assert(m[mi].0 != key);
            }
        }
    }
    assert forall|j: int| 0 <= j < v.len() && f(v[j]).len() == 2
        implies 0 <= #[trigger] d2[j] < n.len() && n[d2[j]].0 == f(v[j]) by {
        if j < u.len() {
            assert(v[j] == u[j]);
            let t = dst[j];
            assert(m[t].0 == f(u[j]));
            if t < k {
                assert(n[t] == m[t]);
            } else {
                assert(n[t + 1] == m[t]);
            }
        } else {
            assert(v[j] == p);
        }
    }
}

/// Adds one syllable: its two keys map to it unless a lesser syllable
/// already holds them.
fn add_syllable(keys: &mut Vec<Vec<char>>, pins: &mut Vec<String>, p: Vec<char>, algebra: &Algebra,
    Ghost(u): Ghost<Seq<Seq<char>>>)
    requires
        old(keys)@.len() == old(pins)@.len(),
        strictly_sorted(char_seqs(old(keys)@)),
        built_from(zrm_pairs(old(keys)@, old(pins)@), u, algebra@),
    ensures
        final(keys)@.len() == final(pins)@.len(),
        strictly_sorted(char_seqs(final(keys)@)),
        built_from(zrm_pairs(final(keys)@, final(pins)@), u.push(p@), algebra@),
{
    let ghost m = zrm_pairs(keys@, pins@);
    let ghost f = speller(algebra@);
    let ghost (src, dst) = choose|src: Seq<int>, dst: Seq<int>| built_by(m, u, f, src, dst);
    let ps = string_of(p.as_slice());
    let key_s = algebra.transform(ps.as_str());
    let key = chars_of(key_s.as_str());
    let ghost kv = transform_spec(algebra@, p@);
    assert(key@ == kv);
    assert(f(p@) == kv);
    if key.len() != 2 {
        proof {
            lemma_built_skip(m, u, f, src, dst, p@);
        }
        return;
    }
    assert forall|i: int| 0 <= i < keys@.len() implies #[trigger] char_seqs(keys@)[i] == m[i].0 by {}
    match search_sorted(keys, key.as_slice()) {
        Ok(i) => {
            assert(m[i as int].0 == kv);
            let cur = chars_of(pins[i].as_str());
            assert(cur@ == m[i as int].1);
            if chars_lt(p.as_slice(), cur.as_slice()) {
                proof {
                    lemma_built_replace(m, u, f, src, dst, p@, i as int);
                }
                pins.set(i, ps);
                assert(zrm_pairs(keys@, pins@) =~= m.update(i as int, (m[i as int].0, p@)));
            } else {
                proof {
                    lemma_seq_lt_total(p@, cur@);
                    lemma_built_keep(m, u, f, src, dst, p@, i as int);
                }
            }
        },
        Err(i) => {
            proof {
                assert forall|t: int| 0 <= t < i implies seq_lt(#[trigger] m[t].0, f(p@)) by {
                    assert(char_seqs(keys@)[t] == m[t].0);
                }
                assert forall|t: int| i <= t < m.len() implies seq_lt(f(p@), #[trigger] m[t].0) by {
                    assert(char_seqs(keys@)[t] == m[t].0);
                }
                lemma_built_insert(m, u, f, src, dst, p@, i as int);
                crate::text::lemma_insert_sorted(char_seqs(keys@), i as int, key@);
            }
            keys.insert(i, key);
            pins.insert(i, ps);
            assert(zrm_pairs(keys@, pins@) =~= m.insert(i as int, (kv, p@)));
            assert(char_seqs(keys@) =~= char_seqs(old(keys)@).insert(i as int, kv));
        },
    }
}

/// Adds every syllable of one dictionary spelling.
fn add_spelling(keys: &mut Vec<Vec<char>>, pins: &mut Vec<String>, s: &[char], algebra: &Algebra,
    Ghost(u): Ghost<Seq<Seq<char>>>)
    requires
        old(keys)@.len() == old(pins)@.len(),
        strictly_sorted(char_seqs(old(keys)@)),
        built_from(zrm_pairs(old(keys)@, old(pins)@), u, algebra@),
    ensures
        final(keys)@.len() == final(pins)@.len(),
        strictly_sorted(char_seqs(final(keys)@)),
        built_from(zrm_pairs(final(keys)@, final(pins)@), u + syllable_parts(s@), algebra@),
{
    let mut cur: Vec<char> = Vec::new();
    let mut i: usize = 0;
    assert(u + split_acc(s@, 0).0 =~= u);
    while i < s.len()
        invariant
            i <= s@.len(),
            keys@.len() == pins@.len(),
            strictly_sorted(char_seqs(keys@)),
            built_from(zrm_pairs(keys@, pins@), u + split_acc(s@, i as int).0, algebra@),
            cur@ == split_acc(s@, i as int).1,
        decreases s@.len() - i,
    {
        let c = s[i];
        let ghost prev = split_acc(s@, i as int);
        if c == ' ' || c == '\'' {
            if cur.len() > 0 {
                let part = cur;
                cur = Vec::new();
                add_syllable(keys, pins, part, algebra, Ghost(u + prev.0));
                assert((u + prev.0).push(part@) =~= u + prev.0.push(part@));
            } else {
                cur = Vec::new();
            }
        } else {
            cur.push(c);
        }
        i += 1;
    }
    let ghost fin = split_acc(s@, s@.len() as int);
    if cur.len() > 0 {
        let part = cur;
        add_syllable(keys, pins, part, algebra, Ghost(u + fin.0));
        assert((u + fin.0).push(part@) =~= u + fin.0.push(part@));
    }
}

proof fn lemma_all_parts_step(sv: Seq<Seq<char>>, k: int)
    requires
        0 <= k < sv.len(),
    ensures
        all_parts(sv.take(k + 1)) == all_parts(sv.take(k)) + syllable_parts(sv[k]),
{
    assert(sv.take(k + 1).drop_last() == sv.take(k));
    assert(sv.take(k + 1).last() == sv[k]);
}

impl ZrmMap {
    /// Builds the map from full-pinyin spellings: each spelling is split into
    /// single syllables at spaces and apostrophes, the algebra turns each
    /// syllable into its keys, and syllables that come out as exactly two
    /// keys are mapped from them (the least syllable wins a shared pair).
    pub fn build(syllables: &[String], algebra: &Algebra) -> (map: ZrmMap)
        ensures
            built_from(map@, all_parts(strings_view(syllables@)), algebra@),
    {
        let ghost sv = strings_view(syllables@);
        let mut keys: Vec<Vec<char>> = Vec::new();
        let mut pins: Vec<String> = Vec::new();
        let mut k: usize = 0;
        proof {
            assert(sv.take(0) =~= Seq::<Seq<char>>::empty());
            assert(zrm_pairs(keys@, pins@) =~= Seq::<ZrmEntry>::empty());
            assert(all_parts(sv.take(0)) =~= Seq::<Seq<char>>::empty());
            assert(built_by(zrm_pairs(keys@, pins@), all_parts(sv.take(0)), speller(algebra@),
                Seq::<int>::empty(), Seq::<int>::empty()));
        }
        while k < syllables.len()
            invariant
                k <= syllables@.len(),
                sv == strings_view(syllables@),
                keys@.len() == pins@.len(),
                strictly_sorted(char_seqs(keys@)),
                built_from(zrm_pairs(keys@, pins@), all_parts(sv.take(k as int)), algebra@),
            decreases syllables@.len() - k,
        {
            let cs = chars_of(syllables[k].as_str());
            proof {
                lemma_all_parts_step(sv, k as int);
                assert(sv[k as int] == syllables@[k as int]@);
            }
            add_spelling(&mut keys, &mut pins, cs.as_slice(), algebra, Ghost(all_parts(sv.take(k as int))));
            k += 1;
        }
        proof {
            assert(sv.take(syllables@.len() as int) == sv);
        }
        let map = ZrmMap { keys, pinyins: pins };
        assert(map@ =~= zrm_pairs(map.keys@, map.pinyins@));
        map
    }
}

// ── the ZRM1 format ────────────────────────────────────────────────────

pub const ZRM_MAGIC: u32 = 0x31524D5A;
pub const ZRM_VERSION: u32 = 1;

pub open spec fn zrm_keys(m: Seq<ZrmEntry>) -> Seq<Seq<char>> {
    m.map_values(|e: ZrmEntry| e.0)
}

pub open spec fn zrm_sylls(m: Seq<ZrmEntry>) -> Seq<Seq<char>> {
    m.map_values(|e: ZrmEntry| e.1)
}

/// The blob: UTF-8 of every key, then of every syllable.
pub open spec fn zrm_blob(m: Seq<ZrmEntry>) -> Seq<u8> {
    utf8_concat(zrm_keys(m)) + utf8_concat(zrm_sylls(m))
}

/// One 12-byte record per entry: offset and length of its keys, then of
/// its syllable; syllable offsets count from `base`, the end of the keys.
pub open spec fn zrm_records(m: Seq<ZrmEntry>, base: int) -> Seq<u8>
    decreases m.len(),
{
    if m.len() == 0 {
        Seq::empty()
    } else {
        let prev = m.drop_last();
        zrm_records(prev, base) + le32(utf8_concat(zrm_keys(prev)).len() as u32) + le16(utf8(m.last().0).len() as u16)
            + le32((base + utf8_concat(zrm_sylls(prev)).len()) as u32) + le16(utf8(m.last().1).len() as u16)
    }
}

/// The map fits the format's field widths.
pub open spec fn zrm_fits(m: Seq<ZrmEntry>) -> bool {
    &&& m.len() <= u32::MAX
    &&& zrm_blob(m).len() <= u32::MAX
    &&& forall|i: int| 0 <= i < m.len() ==> utf8((#[trigger] m[i]).0).len() <= u16::MAX && utf8(m[i].1).len() <= u16::MAX
}

/// The "ZRM1" serialization of a map.
pub open spec fn zrm_bytes(m: Seq<ZrmEntry>) -> Seq<u8> {
    le32(ZRM_MAGIC) + le32(ZRM_VERSION) + le32(m.len() as u32) + le32(zrm_blob(m).len() as u32)
        + zrm_records(m, utf8_concat(zrm_keys(m)).len() as int) + zrm_blob(m)
}

/// Header of a "ZRM1" segment: magic, version, and a length that holds
/// every record and the whole blob.
pub open spec fn zrm_header_ok(d: Seq<u8>) -> bool {
    &&& d.len() >= 16
    &&& rd32(d, 0) == ZRM_MAGIC
    &&& rd32(d, 4) == ZRM_VERSION
    &&& d.len() >= 16 + 12 * (rd32(d, 8) as int) + (rd32(d, 12) as int)
}

pub open spec fn zrm_blob_of(d: Seq<u8>) -> Seq<u8> {
    d.subrange(16 + 12 * (rd32(d, 8) as int), 16 + 12 * (rd32(d, 8) as int) + rd32(d, 12) as int)
}

pub open spec fn zrm_key_at(d: Seq<u8>, i: int) -> Seq<char> {
    piece(zrm_blob_of(d), rd32(d, 16 + 12 * i) as int, rd16(d, 20 + 12 * i) as int)
}

pub open spec fn zrm_syll_at(d: Seq<u8>, i: int) -> Seq<char> {
    piece(zrm_blob_of(d), rd32(d, 22 + 12 * i) as int, rd16(d, 26 + 12 * i) as int)
}

/// Record `i` is usable: both strings lie inside the blob and are
/// well-formed, and no earlier record has the same keys.
pub open spec fn zrm_record_ok(d: Seq<u8>, i: int) -> bool {
    &&& piece_ok(zrm_blob_of(d), rd32(d, 16 + 12 * i) as int, rd16(d, 20 + 12 * i) as int)
    &&& piece_ok(zrm_blob_of(d), rd32(d, 22 + 12 * i) as int, rd16(d, 26 + 12 * i) as int)
    &&& forall|j: int| 0 <= j < i ==> #[trigger] zrm_key_at(d, j) != zrm_key_at(d, i)
}

/// Order of mappings by their keys.
pub open spec fn key_order() -> spec_fn(ZrmEntry, ZrmEntry) -> bool {
    |a: ZrmEntry, b: ZrmEntry| seq_le(a.0, b.0)
}

pub proof fn lemma_key_order()
    ensures
        total_preorder(key_order()),
{
    assert forall|a: ZrmEntry, b: ZrmEntry, c: ZrmEntry|
        #[trigger] key_order()(a, b) && #[trigger] key_order()(b, c) implies key_order()(a, c) by {
        lemma_seq_le_transitive(a.0, b.0, c.0);
    }
    assert forall|a: ZrmEntry, b: ZrmEntry| #[trigger] key_order()(a, b) || key_order()(b, a) by {
        lemma_seq_lt_total(a.0, b.0);
    }
}

/// Keys that strictly increase are in key order.
proof fn lemma_strict_key_order(m: Seq<ZrmEntry>)
    requires
        keys_strictly_sorted(m),
    ensures
        sorted_by(m, key_order()),
{
    assert forall|i: int, j: int| 0 <= i < j < m.len() implies key_order()(#[trigger] m[i], #[trigger] m[j]) by {}
}

/// The map a "ZRM1" segment holds, when it is well formed.
pub open spec fn parse_zrm(d: Seq<u8>) -> Option<Seq<ZrmEntry>> {
    if zrm_header_ok(d) && vstd::utf8::valid_utf8(zrm_blob_of(d))
        && forall|i: int| 0 <= i < rd32(d, 8) ==> #[trigger] zrm_record_ok(d, i) {
        Some(Seq::new(rd32(d, 8) as nat, |i: int| (zrm_key_at(d, i), zrm_syll_at(d, i))))
    } else {
        None
    }
}

/// The record `zrm_records` writes for entry `i`.
pub open spec fn zrm_rec(m: Seq<ZrmEntry>, base: int, i: int) -> Seq<u8> {
    le32(utf8_concat(zrm_keys(m.take(i))).len() as u32) + le16(utf8(m[i].0).len() as u16)
        + le32((base + utf8_concat(zrm_sylls(m.take(i))).len()) as u32) + le16(utf8(m[i].1).len() as u16)
}

proof fn lemma_zrm_records(m: Seq<ZrmEntry>, base: int)
    ensures
        zrm_records(m, base).len() == 12 * m.len(),
        forall|i: int| 0 <= i < m.len() ==> zrm_records(m, base).subrange(12 * i, 12 * i + 12) == #[trigger] zrm_rec(m, base, i),
    decreases m.len(),
{
    if m.len() > 0 {
        let t = m.drop_last();
        lemma_zrm_records(t, base);
        let n = m.len() - 1;
        lemma_le_lens(utf8_concat(zrm_keys(t)).len() as u32, utf8(m[n].0).len() as u16);
        lemma_le_lens((base + utf8_concat(zrm_sylls(t)).len()) as u32, utf8(m[n].1).len() as u16);
        assert(m.take(n) == t);
        assert forall|i: int| 0 <= i < m.len() implies zrm_records(m, base).subrange(12 * i, 12 * i + 12) == #[trigger] zrm_rec(m, base, i) by {
            if i < n {
                assert(t.take(i) == m.take(i));
                assert(t[i] == m[i]);
                assert(zrm_rec(t, base, i) == zrm_rec(m, base, i));
                lemma_sub_add(zrm_records(t, base), zrm_rec(m, base, n), 12 * i, 12 * i + 12);
            } else {
                lemma_sub_add(zrm_records(t, base), zrm_rec(m, base, n), 12 * i, 12 * i + 12);
                assert(zrm_rec(m, base, n).subrange(0, 12) =~= zrm_rec(m, base, n));
            }
        }
        assert(zrm_records(m, base) =~= zrm_records(t, base) + zrm_rec(m, base, n));
    }
}

proof fn lemma_zrm_header(m: Seq<ZrmEntry>)
    requires
        zrm_fits(m),
    ensures
        ({
            let d = zrm_bytes(m);
            let blob = zrm_blob(m);
            &&& d == le32(ZRM_MAGIC) + le32(ZRM_VERSION) + le32(m.len() as u32) + le32(blob.len() as u32)
                + zrm_records(m, utf8_concat(zrm_keys(m)).len() as int) + blob
            &&& zrm_records(m, utf8_concat(zrm_keys(m)).len() as int).len() == 12 * m.len()
            &&& rd32(d, 0) == ZRM_MAGIC
            &&& rd32(d, 4) == ZRM_VERSION
            &&& rd32(d, 8) == m.len()
            &&& rd32(d, 12) == blob.len()
            &&& zrm_header_ok(d)
            &&& zrm_blob_of(d) == blob
        }),
{
    let n = m.len() as int;
    let base = utf8_concat(zrm_keys(m)).len() as int;
    let blob = zrm_blob(m);
    let recs = zrm_records(m, base);
    lemma_zrm_records(m, base);
    let h0 = le32(ZRM_MAGIC);
    let h1 = le32(ZRM_VERSION);
    let h2 = le32(n as u32);
    let h3 = le32(blob.len() as u32);
    lemma_le_lens(ZRM_MAGIC, 0);
    lemma_le_lens(ZRM_VERSION, 0);
    lemma_le_lens(n as u32, 0);
    lemma_le_lens(blob.len() as u32, 0);
    let d = zrm_bytes(m);
    let head = h0 + h1 + h2 + h3;
    assert(d =~= head + recs + blob);
    assert(head.len() == 16);
    lemma_sub_add(head + recs, blob, 0, 4);
    lemma_sub_add(head, recs, 0, 4);
    assert(head.subrange(0, 4) =~= h0);
    lemma_rd32(d, 0, ZRM_MAGIC);
    lemma_sub_add(head + recs, blob, 4, 8);
    lemma_sub_add(head, recs, 4, 8);
    assert(head.subrange(4, 8) =~= h1);
    lemma_rd32(d, 4, ZRM_VERSION);
    lemma_sub_add(head + recs, blob, 8, 12);
    lemma_sub_add(head, recs, 8, 12);
    assert(head.subrange(8, 12) =~= h2);
    lemma_rd32(d, 8, n as u32);
    lemma_sub_add(head + recs, blob, 12, 16);
    lemma_sub_add(head, recs, 12, 16);
    assert(head.subrange(12, 16) =~= h3);
    lemma_rd32(d, 12, blob.len() as u32);
    lemma_sub_add(head + recs, blob, 16 + 12 * n, 16 + 12 * n + blob.len());
    assert(blob.subrange(0, blob.len() as int) =~= blob);
}

proof fn lemma_zrm_fields(m: Seq<ZrmEntry>, i: int)
    requires
        zrm_fits(m),
        0 <= i < m.len(),
    ensures
        ({
            let d = zrm_bytes(m);
            let base = utf8_concat(zrm_keys(m)).len() as int;
            &&& rd32(d, 16 + 12 * i) == utf8_concat(zrm_keys(m.take(i))).len()
            &&& rd16(d, 20 + 12 * i) == utf8(m[i].0).len()
            &&& rd32(d, 22 + 12 * i) == base + utf8_concat(zrm_sylls(m.take(i))).len()
            &&& rd16(d, 26 + 12 * i) == utf8(m[i].1).len()
        }),
{
    lemma_zrm_header(m);
    let n = m.len() as int;
    let base = utf8_concat(zrm_keys(m)).len() as int;
    let blob = zrm_blob(m);
    let recs = zrm_records(m, base);
    lemma_zrm_records(m, base);
    let d = zrm_bytes(m);
    let head = le32(ZRM_MAGIC) + le32(ZRM_VERSION) + le32(n as u32) + le32(blob.len() as u32);
    lemma_le_lens(ZRM_MAGIC, 0);
    lemma_le_lens(ZRM_VERSION, 0);
    lemma_le_lens(n as u32, 0);
    lemma_le_lens(blob.len() as u32, 0);
    assert(d == head + recs + blob);
    let r = zrm_rec(m, base, i);
    let ko = utf8_concat(zrm_keys(m.take(i))).len() as int;
    let yo = utf8_concat(zrm_sylls(m.take(i))).len() as int;
    let kl = utf8(m[i].0).len() as int;
    let yl = utf8(m[i].1).len() as int;
    assert(zrm_keys(m.take(i)) =~= zrm_keys(m).take(i));
    assert(zrm_sylls(m.take(i)) =~= zrm_sylls(m).take(i));
    lemma_concat_take(zrm_keys(m), i);
    lemma_concat_take(zrm_sylls(m), i);
    lemma_concat_valid(zrm_keys(m));
    assert(blob.len() <= u32::MAX);
    assert(ko <= base);
    assert(base + yo <= blob.len());
    assert(kl <= u16::MAX && yl <= u16::MAX);
    lemma_le_lens(ko as u32, kl as u16);
    lemma_le_lens((base + yo) as u32, yl as u16);
    lemma_sub_add(head + recs, blob, 16 + 12 * i, 16 + 12 * i + 12);
    lemma_sub_add(head, recs, 16 + 12 * i, 16 + 12 * i + 12);
    let rr = d.subrange(16 + 12 * i, 16 + 12 * i + 12);
    assert(rr == r);
    assert(d.subrange(16 + 12 * i, 20 + 12 * i) =~= rr.subrange(0, 4));
    assert(r.subrange(0, 4) =~= le32(ko as u32));
    lemma_rd32(d, 16 + 12 * i, ko as u32);
    assert(d.subrange(20 + 12 * i, 22 + 12 * i) =~= rr.subrange(4, 6));
    assert(r.subrange(4, 6) =~= le16(kl as u16));
    lemma_rd16(d, 20 + 12 * i, kl as u16);
    assert(d.subrange(22 + 12 * i, 26 + 12 * i) =~= rr.subrange(6, 10));
    assert(r.subrange(6, 10) =~= le32((base + yo) as u32));
    lemma_rd32(d, 22 + 12 * i, (base + yo) as u32);
    assert(d.subrange(26 + 12 * i, 28 + 12 * i) =~= rr.subrange(10, 12));
    assert(r.subrange(10, 12) =~= le16(yl as u16));
    lemma_rd16(d, 26 + 12 * i, yl as u16);
}

proof fn lemma_zrm_record_at(m: Seq<ZrmEntry>, i: int)
    requires
        zrm_fits(m),
        0 <= i < m.len(),
    ensures
        ({
            let d = zrm_bytes(m);
            &&& zrm_key_at(d, i) == m[i].0
            &&& zrm_syll_at(d, i) == m[i].1
            &&& piece_ok(zrm_blob_of(d), rd32(d, 16 + 12 * i) as int, rd16(d, 20 + 12 * i) as int)
            &&& piece_ok(zrm_blob_of(d), rd32(d, 22 + 12 * i) as int, rd16(d, 26 + 12 * i) as int)
        }),
{
    lemma_zrm_header(m);
    lemma_zrm_fields(m, i);
    let ks = zrm_keys(m);
    let ys = zrm_sylls(m);
    let kb = utf8_concat(ks);
    let yb = utf8_concat(ys);
    let base = kb.len() as int;
    let blob = zrm_blob(m);
    assert(zrm_keys(m.take(i)) =~= ks.take(i));
    assert(zrm_sylls(m.take(i)) =~= ys.take(i));
    let ko = utf8_concat(ks.take(i)).len() as int;
    let yo = utf8_concat(ys.take(i)).len() as int;
    assert(ks[i] == m[i].0 && ys[i] == m[i].1);
    lemma_piece_of_concat(kb, ks, i);
    lemma_piece_of_concat(yb, ys, i);
    let kl = utf8(m[i].0).len() as int;
    let yl = utf8(m[i].1).len() as int;
    lemma_sub_add(kb, yb, ko, ko + kl);
    lemma_sub_add(kb, yb, base + yo, base + yo + yl);
    assert(blob.subrange(ko, ko + kl) == utf8(m[i].0));
    assert(blob.subrange(base + yo, base + yo + yl) == utf8(m[i].1));
}

/// Loading what `save` writes gives the map back: the "ZRM1" bytes of a
/// map with strictly increasing keys that fits the format parse to that
/// very map, which the loader's sort leaves in place.
pub proof fn lemma_zrm_roundtrip(m: Seq<ZrmEntry>)
    requires
        keys_strictly_sorted(m),
        zrm_fits(m),
    ensures
        parse_zrm(zrm_bytes(m)) == Some(m),
        stable_sort_by(m, key_order()) == m,
{
    lemma_strict_key_order(m);
    lemma_stable_sort_sorted(m, key_order());
    let d = zrm_bytes(m);
    lemma_zrm_header(m);
    lemma_concat_valid(zrm_keys(m));
    lemma_concat_valid(zrm_sylls(m));
    vstd::utf8::valid_utf8_concat(utf8_concat(zrm_keys(m)), utf8_concat(zrm_sylls(m)));
    assert forall|i: int| 0 <= i < rd32(d, 8) implies #[trigger] zrm_record_ok(d, i) by {
        lemma_zrm_record_at(m, i);
        assert forall|j: int| 0 <= j < i implies #[trigger] zrm_key_at(d, j) != zrm_key_at(d, i) by {
            lemma_zrm_record_at(m, j);
            lemma_seq_lt_irreflexive(m[i].0);
        }
    }
    let parsed = Seq::new(rd32(d, 8) as nat, |i: int| (zrm_key_at(d, i), zrm_syll_at(d, i)));
    assert forall|i: int| 0 <= i < m.len() implies parsed[i] == m[i] by {
        lemma_zrm_record_at(m, i);
    }
    assert(parsed =~= m);
}

impl ZrmMap {
    /// Appends the "ZRM1" serialization to `w`; fails, writing nothing, when
    /// the map does not fit the format's field widths.
    pub fn save(&self, w: &mut Vec<u8>) -> (r: Result<(), String>)
        ensures
            r is Ok <==> zrm_fits(self@),
            r is Ok ==> final(w)@ == old(w)@ + zrm_bytes(self@),
            r is Ok ==> parse_zrm(zrm_bytes(self@)) == Some(self@),
            r is Err ==> final(w)@ == old(w)@,
    {
        proof {
            use_type_invariant(self);
            if zrm_fits(self@) {
                lemma_zrm_roundtrip(self@);
            }
        }
        let ghost m = self@;
        let ghost ks = zrm_keys(m);
        let ghost ys = zrm_sylls(m);
        let n = self.keys.len();
        let mut key_strs: Vec<String> = Vec::new();
        let mut i: usize = 0;
        while i < n
            invariant
                m == self@,
                n == self.keys@.len() == self.pinyins@.len(),
                i <= n,
                key_strs@.len() == i,
                forall|j: int| 0 <= j < i ==> (#[trigger] key_strs@[j])@ == m[j].0,
            decreases n - i,
        {
            key_strs.push(string_of(self.keys[i].as_slice()));
            i += 1;
        }
        // Pass 1: lengths and field widths.
        let mut klen: u64 = 0;
        let mut ylen: u64 = 0;
        let mut i: usize = 0;
        while i < n
            invariant
                m == self@,
                ks == zrm_keys(m),
                ys == zrm_sylls(m),
                n == self.keys@.len() == self.pinyins@.len() == key_strs@.len(),
                forall|j: int| 0 <= j < n ==> (#[trigger] key_strs@[j])@ == m[j].0,
                i <= n,
                klen == utf8_concat(ks.take(i as int)).len(),
                ylen == utf8_concat(ys.take(i as int)).len(),
                klen + ylen <= u32::MAX,
                forall|j: int| 0 <= j < i ==> utf8((#[trigger] m[j]).0).len() <= u16::MAX && utf8(m[j].1).len() <= u16::MAX,
            decreases n - i,
        {
            let a = utf8_len(key_strs[i].as_str());
            let b = utf8_len(self.pinyins[i].as_str());
            proof {
                assert(ks[i as int] == m[i as int].0 && ys[i as int] == m[i as int].1);
                assert(m[i as int].1 == self.pinyins@[i as int]@);
                lemma_utf8_concat_step(ks, i as int);
                lemma_utf8_concat_step(ys, i as int);
            }
            if a > 65535 || b > 65535 {
                return Err(string_from("双拼映射条目过长，超出格式"));
            }
            if klen + ylen + a as u64 + b as u64 > 0xFFFF_FFFF {
                proof {
                    lemma_utf8_concat_prefix(ks, i + 1);
                    lemma_utf8_concat_prefix(ys, i + 1);
                    assert(ks.len() == m.len() && ys.len() == m.len());
                }
                return Err(string_from("双拼映射超出格式"));
            }
            klen = klen + a as u64;
            ylen = ylen + b as u64;
            i += 1;
        }
        proof {
            assert(ks.take(n as int) == ks);
            assert(ys.take(n as int) == ys);
        }
        if n > 0xFFFF_FFFF {
            return Err(string_from("双拼映射条目过多，超出格式"));
        }
        let ghost w0 = w@;
        push_u32(w, ZRM_MAGIC);
        push_u32(w, ZRM_VERSION);
        push_u32(w, n as u32);
        push_u32(w, (klen + ylen) as u32);
        let ghost head = le32(ZRM_MAGIC) + le32(ZRM_VERSION) + le32(n as u32) + le32((klen + ylen) as u32);
        assert(w@ =~= w0 + head);
        // Pass 2: the records.
        let mut ko: u64 = 0;
        let mut yo: u64 = 0;
        let mut i: usize = 0;
        while i < n
            invariant
                m == self@,
                ks == zrm_keys(m),
                ys == zrm_sylls(m),
                n == self.keys@.len() == self.pinyins@.len() == key_strs@.len(),
                forall|j: int| 0 <= j < n ==> (#[trigger] key_strs@[j])@ == m[j].0,
                i <= n,
                zrm_fits(m),
                klen == utf8_concat(ks).len(),
                ko == utf8_concat(ks.take(i as int)).len(),
                yo == utf8_concat(ys.take(i as int)).len(),
                w@ == w0 + head + zrm_records(m.take(i as int), klen as int),
            decreases n - i,
        {
            let a = utf8_len(key_strs[i].as_str());
            let b = utf8_len(self.pinyins[i].as_str());
            proof {
                assert(ks[i as int] == m[i as int].0 && ys[i as int] == m[i as int].1);
                assert(m[i as int].1 == self.pinyins@[i as int]@);
                lemma_utf8_concat_step(ks, i as int);
                lemma_utf8_concat_step(ys, i as int);
                lemma_utf8_concat_prefix(ks, i + 1);
                lemma_utf8_concat_prefix(ys, i + 1);
                assert(m.take(i + 1).drop_last() == m.take(i as int));
                assert(m.take(i + 1).last() == m[i as int]);
                assert(zrm_keys(m.take(i as int)) == ks.take(i as int));
                assert(zrm_sylls(m.take(i as int)) == ys.take(i as int));
            }
            push_u32(w, ko as u32);
            push_u16(w, a as u16);
            push_u32(w, (klen + yo) as u32);
            push_u16(w, b as u16);
            ko = ko + a as u64;
            yo = yo + b as u64;
            i += 1;
        }
        proof {
            assert(m.take(n as int) == m);
        }
        // Pass 3: the blob, keys first.
        let ghost w1 = w@;
        let mut i: usize = 0;
        while i < n
            invariant
                m == self@,
                ks == zrm_keys(m),
                n == self.keys@.len() == key_strs@.len(),
                forall|j: int| 0 <= j < n ==> (#[trigger] key_strs@[j])@ == m[j].0,
                i <= n,
                w@ == w1 + utf8_concat(ks.take(i as int)),
            decreases n - i,
        {
            push_str_bytes(w, key_strs[i].as_str());
            proof {
                assert(ks[i as int] == m[i as int].0);
                lemma_utf8_concat_step(ks, i as int);
            }
            i += 1;
        }
        let ghost w2 = w@;
        let mut i: usize = 0;
        while i < n
            invariant
                m == self@,
                ys == zrm_sylls(m),
                n == self.pinyins@.len() == self.keys@.len(),
                i <= n,
                w@ == w2 + utf8_concat(ys.take(i as int)),
            decreases n - i,
        {
            push_str_bytes(w, self.pinyins[i].as_str());
            proof {
                assert(ys[i as int] == m[i as int].1);
                assert(m[i as int].1 == self.pinyins@[i as int]@);
                lemma_utf8_concat_step(ys, i as int);
            }
            i += 1;
        }
        proof {
            assert(ks.take(n as int) == ks);
            assert(ys.take(n as int) == ys);
            assert(w@ =~= w0 + zrm_bytes(m));
        }
        Ok(())
    }

    /// Reads a "ZRM1" segment (from its magic on), sorting its mappings by keys (a segment
    /// written by `save` is sorted already); fails on malformed or truncated
    /// data and on keys that occur twice.
    pub fn load(data: &[u8]) -> (r: Result<ZrmMap, String>)
        ensures
            match parse_zrm(data@) {
                Some(m) => r matches Ok(z) && z@ == stable_sort_by(m, key_order()),
                None => r is Err,
            },
    {
        proof { lemma_key_order(); }
        let magic = match read_u32(data, 0) {
            Some(x) => x,
            None => return Err(string_from("ZRM1 文件截断")),
        };
        if magic != ZRM_MAGIC {
            return Err(string_from("魔数不对（不是 ZRM1 映射表）"));
        }
        let version = match read_u32(data, 4) {
            Some(x) => x,
            None => return Err(string_from("ZRM1 文件截断")),
        };
        if version != ZRM_VERSION {
            return Err(string_from("版本不支持"));
        }
        let n = match read_u32(data, 8) {
            Some(x) => x,
            None => return Err(string_from("ZRM1 文件截断")),
        };
        let blob_len = match read_u32(data, 12) {
            Some(x) => x,
            None => return Err(string_from("ZRM1 文件截断")),
        };
        let ent_end: u64 = 16 + 12 * (n as u64);
        if (data.len() as u64) < ent_end + blob_len as u64 {
            return Err(string_from("ZRM1 文件截断"));
        }
        let ent_end = ent_end as usize;
        let blob = vstd::slice::slice_subrange(data, ent_end, ent_end + blob_len as usize);
        assert(blob@ == zrm_blob_of(data@));
        if !is_valid_utf8(blob) {
            return Err(string_from("blob 不是合法 UTF-8"));
        }
        let ghost fm = Seq::new(n as nat, |j: int| (zrm_key_at(data@, j), zrm_syll_at(data@, j)));
        let mut keys: Vec<Vec<char>> = Vec::new();
        let mut pins: Vec<String> = Vec::new();
        let mut i: usize = 0;
        while i < n as usize
            invariant
                zrm_header_ok(data@),
                n == rd32(data@, 8),
                blob_len == rd32(data@, 12),
                blob@ == zrm_blob_of(data@),
                i <= n,
                data@.len() >= 16 + 12 * (n as int) + blob_len,
                total_preorder(key_order()),
                keys@.len() == i,
                pins@.len() == i,
                forall|j: int| 0 <= j < i ==> #[trigger] zrm_record_ok(data@, j),
                fm == Seq::new(n as nat, |j: int| (zrm_key_at(data@, j), zrm_syll_at(data@, j))),
                Seq::new(keys@.len(), |j: int| (keys@[j]@, pins@[j]@)) == stable_sort_by(fm.take(i as int), key_order()),
                strictly_sorted(char_seqs(keys@)),
            decreases n - i,
        {
            proof {
                assert(16 + (i as int) * 12 + 12 <= 16 + 12 * (n as int)) by (nonlinear_arith)
                    requires i < n;
                assert(data@.len() == data.len());
            }
            let o = 16 + i * 12;
            let ko = read_u32(data, o).unwrap();
            let kl = read_u16(data, o + 4).unwrap();
            let yo = read_u32(data, o + 6).unwrap();
            let yl = read_u16(data, o + 10).unwrap();
            let key = match read_piece(blob, ko, kl) {
                Some(s) => s,
                None => {
                    proof { assert(!zrm_record_ok(data@, i as int)); }
                    return Err(string_from("ZRM1 条目越界"));
                },
            };
            let syll = match read_piece(blob, yo, yl) {
                Some(s) => s,
                None => {
                    proof { assert(!zrm_record_ok(data@, i as int)); }
                    return Err(string_from("ZRM1 条目越界"));
                },
            };
            let kc = chars_of(key.as_str());
            let ghost x = (kc@, syll@);
            let ghost t = Seq::new(keys@.len(), |j: int| (keys@[j]@, pins@[j]@));
            proof {
                assert(x == fm[i as int]);
                lemma_stable_sort_by(fm.take(i as int), key_order());
                assert forall|k: int| 0 <= k < keys@.len() implies #[trigger] char_seqs(keys@)[k] == t[k].0 by {}
            }
            match search_sorted(&keys, kc.as_slice()) {
                Ok(p) => {
                    proof {
                        broadcast use vstd::seq_lib::group_to_multiset_ensures;
                        let fi = fm.take(i as int);
                        assert(t.contains(t[p as int]));
                        assert(t.to_multiset().count(t[p as int]) > 0);
                        assert(fi.contains(t[p as int]));
                        let j = choose|j: int| 0 <= j < fi.len() && fi[j] == t[p as int];
                        assert(zrm_key_at(data@, j) == zrm_key_at(data@, i as int));
                        assert(!zrm_record_ok(data@, i as int));
                    }
                    return Err(string_from("ZRM1 键重复"));
                },
                Err(p) => {
                    proof {
                        assert forall|j: int| 0 <= j < i implies #[trigger] zrm_key_at(data@, j) != zrm_key_at(data@, i as int) by {
                            broadcast use vstd::seq_lib::group_to_multiset_ensures;
                            let fi = fm.take(i as int);
                            if zrm_key_at(data@, j) == zrm_key_at(data@, i as int) {
                                assert(fi[j] == fm[j]);
                                assert(fi.contains(fm[j]));
                                assert(fi.to_multiset().count(fm[j]) > 0);
                                assert(t.contains(fm[j]));
                                let q = choose|q: int| 0 <= q < t.len() && t[q] == fm[j];
                                if q < p {
                                    assert(seq_lt(char_seqs(keys@)[q], kc@));
                                    lemma_seq_lt_irreflexive(kc@);
                                } else {
                                    assert(seq_lt(kc@, char_seqs(keys@)[q]));
                                    lemma_seq_lt_irreflexive(kc@);
                                }
                            }
                        }
                        assert(zrm_record_ok(data@, i as int));
                        assert forall|k: int| 0 <= k < p implies key_order()(#[trigger] t[k], x) by {
                            assert(char_seqs(keys@)[k] == t[k].0);
                        }
                        assert forall|k: int| p <= k < t.len() implies !key_order()(#[trigger] t[k], x) by {
                            assert(char_seqs(keys@)[k] == t[k].0);
                            lemma_seq_lt_asymmetric(kc@, t[k].0);
                            lemma_seq_lt_irreflexive(kc@);
                        }
                        lemma_upper_pos_by(t, x, key_order(), p as int);
                        assert(fm.take(i + 1).drop_last() =~= fm.take(i as int));
                        assert(fm.take(i + 1).last() == x);
                        crate::text::lemma_insert_sorted(char_seqs(keys@), p as int, kc@);
                    }
                    let ghost kb = char_seqs(keys@);
                    keys.insert(p, kc);
                    pins.insert(p, syll);
                    proof {
                        assert(char_seqs(keys@) =~= kb.insert(p as int, x.0));
                        let u = Seq::new(keys@.len(), |j: int| (keys@[j]@, pins@[j]@));
                        assert(u =~= t.insert(p as int, x));
                    }
                },
            }
            i += 1;
        }
        proof {
            let mv = Seq::new(keys@.len(), |j: int| (keys@[j]@, pins@[j]@));
            assert forall|a: int, b: int| 0 <= a < b < mv.len() implies
                seq_lt(#[trigger] mv[a].0, #[trigger] mv[b].0) by {
                assert(char_seqs(keys@)[a] == mv[a].0 && char_seqs(keys@)[b] == mv[b].0);
            }
        }
        proof {
            assert(fm.take(n as int) =~= fm);
            assert(fm =~= parse_zrm(data@)->0);
        }
        let z = ZrmMap { keys, pinyins: pins };
        Ok(z)
    }
}

/// Appends a string slice.
pub fn append_str(s: &mut String, t: &str)
    ensures
        final(s)@ == old(s)@ + t@,
{
    let cs = chars_of(t);
    let ghost s0 = s@;
    let mut i: usize = 0;
    while i < cs.len()
        invariant
            i <= cs@.len(),
            cs@ == t@,
            s@ == s0 + t@.take(i as int),
        decreases cs@.len() - i,
    {
        push_char(s, cs[i]);
        i += 1;
        assert(t@.take(i as int) == t@.take(i - 1).push(t@[i - 1]));
    }
    assert(t@.take(t@.len() as int) == t@);
}

} // verus!
