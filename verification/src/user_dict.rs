//! The user dictionary: how often the user chose each word for each code,
//! used to promote often-chosen candidates.
//!
//! Selections are counted per (code, word); a transaction can take back the
//! learning of a commit that did not go through.
use vstd::prelude::*;
use crate::engine::Candidate;
use crate::seqs::{total_preorder, sorted_by, stable_sort_by, upper_pos_by, lemma_upper_pos_by, lemma_stable_sort_by};
use crate::text::{str_eq, string_from};

verus! {

/// One learned selection count: (code, word, count).
pub type LearnEntry = (Seq<char>, Seq<char>, u32);

/// A learned (code, word) pair.
#[derive(Debug)]
pub struct UserEntry {
    pub code: String,
    pub word: String,
    pub count: u32,
}

pub open spec fn entry_view(e: UserEntry) -> LearnEntry {
    (e.code@, e.word@, e.count)
}

pub open spec fn entries_view(v: Seq<UserEntry>) -> Seq<LearnEntry> {
    v.map_values(|e: UserEntry| entry_view(e))
}

/// Every (code, word) pair occurs once, with a positive count.
pub open spec fn learn_wf(v: Seq<LearnEntry>) -> bool {
    &&& forall|i: int, j: int| 0 <= i < j < v.len() ==> !((#[trigger] v[i]).0 == (#[trigger] v[j]).0 && v[i].1 == v[j].1)
    &&& forall|i: int| 0 <= i < v.len() ==> (#[trigger] v[i]).2 > 0
}

/// How often `word` was chosen for `code` (0 when never).
pub open spec fn count_of(v: Seq<LearnEntry>, code: Seq<char>, word: Seq<char>) -> u32
    decreases v.len(),
{
    if v.len() == 0 {
        0
    } else if v.last().0 == code && v.last().1 == word {
        v.last().2
    } else {
        count_of(v.drop_last(), code, word)
    }
}

/// Some word was learned for `code`.
pub open spec fn has_code_spec(v: Seq<LearnEntry>, code: Seq<char>) -> bool {
    exists|i: int| 0 <= i < v.len() && (#[trigger] v[i]).0 == code
}

pub struct UserDict {
    entries: Vec<UserEntry>,
    saved: Option<Vec<UserEntry>>,
    fail_next_commit: bool,
}

impl View for UserDict {
    type V = Seq<LearnEntry>;

    closed spec fn view(&self) -> Seq<LearnEntry> {
        entries_view(self.entries@)
    }
}

proof fn lemma_count_found(v: Seq<LearnEntry>, i: int)
    requires
        learn_wf(v),
        0 <= i < v.len(),
    ensures
        count_of(v, v[i].0, v[i].1) == v[i].2,
    decreases v.len(),
{
    if i < v.len() - 1 {
        let t = v.drop_last();
        assert(learn_wf(t)) by {
            assert forall|a: int, b: int| 0 <= a < b < t.len() implies !((#[trigger] t[a]).0 == (#[trigger] t[b]).0 && t[a].1 == t[b].1) by {
                assert(t[a] == v[a] && t[b] == v[b]);
            }
            assert forall|a: int| 0 <= a < t.len() implies (#[trigger] t[a]).2 > 0 by {
                assert(t[a] == v[a]);
            }
        }
        assert(t[i] == v[i]);
        lemma_count_found(t, i);
    }
}

proof fn lemma_count_missing(v: Seq<LearnEntry>, code: Seq<char>, word: Seq<char>)
    requires
        forall|i: int| 0 <= i < v.len() ==> !((#[trigger] v[i]).0 == code && v[i].1 == word),
    ensures
        count_of(v, code, word) == 0,
    decreases v.len(),
{
    if v.len() > 0 {
        let t = v.drop_last();
        assert forall|i: int| 0 <= i < t.len() implies !((#[trigger] t[i]).0 == code && t[i].1 == word) by {
            assert(t[i] == v[i]);
        }
        lemma_count_missing(t, code, word);
    }
}

proof fn lemma_count_other(v: Seq<LearnEntry>, k: int, e: LearnEntry, code: Seq<char>, word: Seq<char>)
    requires
        0 <= k < v.len(),
        !(v[k].0 == code && v[k].1 == word),
        !(e.0 == code && e.1 == word),
    ensures
        count_of(v.update(k, e), code, word) == count_of(v, code, word),
        count_of(v.remove(k), code, word) == count_of(v, code, word),
    decreases v.len(),
{
    let u = v.update(k, e);
    let r = v.remove(k);
    if k == v.len() - 1 {
        assert(u.drop_last() =~= v.drop_last());
        assert(r =~= v.drop_last());
    } else {
        assert(u.drop_last() =~= v.drop_last().update(k, e));
        assert(r.drop_last() =~= v.drop_last().remove(k));
        lemma_count_other(v.drop_last(), k, e, code, word);
    }
}

proof fn lemma_count_push(v: Seq<LearnEntry>, e: LearnEntry, code: Seq<char>, word: Seq<char>)
    ensures
        count_of(v.push(e), code, word) == if e.0 == code && e.1 == word { e.2 } else { count_of(v, code, word) },
{
    assert(v.push(e).drop_last() =~= v);
}

fn clone_entries(v: &Vec<UserEntry>) -> (r: Vec<UserEntry>)
    ensures
        entries_view(r@) == entries_view(v@),
{
    let mut r: Vec<UserEntry> = Vec::new();
    let mut i: usize = 0;
    while i < v.len()
        invariant
            i <= v@.len(),
            entries_view(r@) == entries_view(v@.take(i as int)),
        decreases v@.len() - i,
    {
        let e = UserEntry { code: v[i].code.clone(), word: v[i].word.clone(), count: v[i].count };
        assert(entry_view(e) == entry_view(v@[i as int]));
        let ghost rb = r@;
        r.push(e);
        proof {
            assert(entries_view(r@) =~= entries_view(rb).push(entry_view(e)));
            assert(entries_view(v@.take(i + 1)) =~= entries_view(v@.take(i as int)).push(entry_view(v@[i as int])));
            assert(v@.take(i + 1) == v@.take(i as int).push(v@[i as int]));
            assert(entries_view(r@) =~= entries_view(v@.take(i + 1)));
        }
        i += 1;
    }
    assert(v@.take(v@.len() as int) == v@);
    r
}

/// Stable order of candidates by how often their word was chosen for a code,
/// most chosen first.
pub open spec fn by_count(v: Seq<LearnEntry>, code: Seq<char>) -> spec_fn(Candidate, Candidate) -> bool {
    |a: Candidate, b: Candidate| count_of(v, code, a.word@) >= count_of(v, code, b.word@)
}

/// Stable order of (word, count) pairs, highest count first.
pub open spec fn count_desc() -> spec_fn((Seq<char>, u32), (Seq<char>, u32)) -> bool {
    |a: (Seq<char>, u32), b: (Seq<char>, u32)| a.1 >= b.1
}

/// The (word, count) pairs learned for `code`, in learning order.
pub open spec fn words_of_code(v: Seq<LearnEntry>, code: Seq<char>) -> Seq<(Seq<char>, u32)>
    decreases v.len(),
{
    if v.len() == 0 {
        Seq::empty()
    } else if v.last().0 == code {
        words_of_code(v.drop_last(), code).push((v.last().1, v.last().2))
    } else {
        words_of_code(v.drop_last(), code)
    }
}

/// `v1` is `v0` after one more selection of `word` for `code` (the count
/// saturates), every other count unchanged.
pub open spec fn learned_once(v0: Seq<LearnEntry>, v1: Seq<LearnEntry>, code: Seq<char>, word: Seq<char>) -> bool {
    &&& count_of(v1, code, word) == (if count_of(v0, code, word) == u32::MAX { u32::MAX as int }
        else { count_of(v0, code, word) + 1 })
    &&& forall|c: Seq<char>, w: Seq<char>| !(c == code && w == word) ==> count_of(v1, c, w) == count_of(v0, c, w)
}

/// `v1` is `v0` with one selection of `word` for `code` taken back (none
/// when there was none), every other count unchanged.
pub open spec fn forgotten_once(v0: Seq<LearnEntry>, v1: Seq<LearnEntry>, code: Seq<char>, word: Seq<char>) -> bool {
    &&& count_of(v1, code, word) == (if count_of(v0, code, word) > 0 { count_of(v0, code, word) - 1 } else { 0 })
    &&& forall|c: Seq<char>, w: Seq<char>| !(c == code && w == word) ==> count_of(v1, c, w) == count_of(v0, c, w)
}

/// Forgetting a selection right after learning it gives every count back
/// (unless the count had saturated).
pub proof fn law_forget_undoes_learn(v0: Seq<LearnEntry>, v1: Seq<LearnEntry>, v2: Seq<LearnEntry>,
    code: Seq<char>, word: Seq<char>)
    requires
        learned_once(v0, v1, code, word),
        forgotten_once(v1, v2, code, word),
        count_of(v0, code, word) < u32::MAX,
    ensures
        forall|c: Seq<char>, w: Seq<char>| count_of(v2, c, w) == count_of(v0, c, w),
{
}

/// Applying one selection (what `Engine::learn_all` does with the single
/// selection a session's `select_word` queued, and what the runtime does
/// when a candidate is chosen) learns it once: its count grows by one,
/// saturating, and no other count changes.
pub proof fn law_one_selection_learned_once(u0: Seq<LearnEntry>, u1: Seq<LearnEntry>, code: Seq<char>, word: Seq<char>)
    requires
        forall|c: Seq<char>, w: Seq<char>| #[trigger] count_of(u1, c, w) == learned_count(u0, seq![(code, word)], c, w),
    ensures
        learned_once(u0, u1, code, word),
{
    let ps = seq![(code, word)];
    assert(ps.drop_last() =~= Seq::<(Seq<char>, Seq<char>)>::empty());
    assert(ps.last() == (code, word));
    assert(learned_count(u0, ps.drop_last(), code, word) == count_of(u0, code, word));
    assert(count_of(u1, code, word) == learned_count(u0, ps, code, word));
    assert forall|c: Seq<char>, w: Seq<char>| !(c == code && w == word) implies count_of(u1, c, w) == count_of(u0, c, w) by {
        assert(count_of(u1, c, w) == learned_count(u0, ps, c, w));
        assert(ps.last() != (c, w));
        assert(learned_count(u0, ps.drop_last(), c, w) == count_of(u0, c, w));
    }
}

/// (code, word, count) triples as seen by the contracts.
pub open spec fn triples_view(v: Seq<(String, String, u32)>) -> Seq<(Seq<char>, Seq<char>, u32)> {
    v.map_values(|t: (String, String, u32)| (t.0@, t.1@, t.2))
}

/// The counts the triples give `word` for `code`, added up in order and
/// saturating at `u32::MAX`.
pub open spec fn summed_count(items: Seq<(Seq<char>, Seq<char>, u32)>, code: Seq<char>, word: Seq<char>) -> int
    decreases items.len(),
{
    if items.len() == 0 {
        0
    } else {
        let t = summed_count(items.drop_last(), code, word);
        let x = items.last();
        if x.0 == code && x.1 == word {
            if t + x.2 > u32::MAX { u32::MAX as int } else { t + x.2 }
        } else {
            t
        }
    }
}

/// The count of `word` for `code` after the selections `pairs` were
/// learned in order on top of `v` (each adds one, saturating).
pub open spec fn learned_count(v: Seq<LearnEntry>, pairs: Seq<(Seq<char>, Seq<char>)>, code: Seq<char>, word: Seq<char>) -> int
    decreases pairs.len(),
{
    if pairs.len() == 0 {
        count_of(v, code, word) as int
    } else {
        let t = learned_count(v, pairs.drop_last(), code, word);
        if pairs.last() == (code, word) {
            if t == u32::MAX { u32::MAX as int } else { t + 1 }
        } else {
            t
        }
    }
}

pub open spec fn word_pairs_view(r: Seq<(String, u32)>) -> Seq<(Seq<char>, u32)> {
    r.map_values(|p: (String, u32)| (p.0@, p.1))
}

impl UserDict {
    #[verifier::type_invariant]
    closed spec fn inv(self) -> bool {
        &&& learn_wf(entries_view(self.entries@))
        &&& (self.saved matches Some(s) ==> learn_wf(entries_view(s@)))
    }

    /// The counts a rollback returns to, while a transaction is open.
    pub closed spec fn saved_view(&self) -> Option<Seq<LearnEntry>> {
        match self.saved {
            Some(s) => Some(entries_view(s@)),
            None => None,
        }
    }

    /// The next commit of a transaction is set to fail.
    pub closed spec fn fails_next_commit(&self) -> bool {
        self.fail_next_commit
    }

    pub fn new() -> (d: UserDict)
        ensures
            d@.len() == 0,
            d.saved_view() is None,
            !d.fails_next_commit(),
    {
        let d = UserDict { entries: Vec::new(), saved: None, fail_next_commit: false };
        assert(d@ =~= Seq::<LearnEntry>::empty());
        d
    }

    /// The learned entries, in learning order.
    pub fn entries(&self) -> (r: &Vec<UserEntry>)
        ensures
            entries_view(r@) == self@,
            learn_wf(self@),
    {
        proof { use_type_invariant(self); }
        &self.entries
    }

    /// Rebuilds a user dictionary from (code, word, count) triples: counts of
    /// a repeated pair add up (saturating), zero counts are dropped.
    pub fn from_counts(items: Vec<(String, String, u32)>) -> (d: UserDict)
        ensures
            learn_wf(d@),
            forall|c: Seq<char>, w: Seq<char>| #[trigger] count_of(d@, c, w) == summed_count(triples_view(items@), c, w),
            d.saved_view() is None,
            !d.fails_next_commit(),
    {
        let ghost tv = triples_view(items@);
        let mut d = UserDict::new();
        let mut i: usize = 0;
        while i < items.len()
            invariant
                i <= items@.len(),
                tv == triples_view(items@),
                forall|c: Seq<char>, w: Seq<char>| #[trigger] count_of(d@, c, w) == summed_count(tv.take(i as int), c, w),
                d.saved_view() is None,
                !d.fails_next_commit(),
            decreases items@.len() - i,
        {
            let (code, word, count) = (&items[i].0, &items[i].1, items[i].2);
            let ghost before = d@;
            proof {
                assert(tv.take(i + 1).drop_last() =~= tv.take(i as int));
                assert(tv.take(i + 1).last() == tv[i as int]);
                assert(tv[i as int] == (code@, word@, count));
            }
            if count > 0 {
                d.add(code.as_str(), word.as_str(), count);
            }
            assert forall|c: Seq<char>, w: Seq<char>| #[trigger] count_of(d@, c, w) == summed_count(tv.take(i + 1), c, w) by {
                assert(count_of(before, c, w) == summed_count(tv.take(i as int), c, w));
            }
            i += 1;
        }
        assert(tv.take(items@.len() as int) =~= tv);
        proof { use_type_invariant(&d); }
        d
    }

    /// Index of the (code, word) entry.
    fn find(&self, code: &str, word: &str) -> (r: Option<usize>)
        ensures
            learn_wf(self@),
            match r {
                Some(k) => k < self@.len() && self@[k as int].0 == code@ && self@[k as int].1 == word@,
                None => forall|i: int| 0 <= i < self@.len() ==> !((#[trigger] self@[i]).0 == code@ && self@[i].1 == word@),
            },
    {
        proof { use_type_invariant(self); }
        let mut i: usize = 0;
        while i < self.entries.len()
            invariant
                i <= self@.len(),
                self@.len() == self.entries@.len(),
                learn_wf(self@),
                forall|j: int| 0 <= j < i ==> !((#[trigger] self@[j]).0 == code@ && self@[j].1 == word@),
            decreases self@.len() - i,
        {
            if str_eq(self.entries[i].code.as_str(), code) && str_eq(self.entries[i].word.as_str(), word) {
                return Some(i);
            }
            i += 1;
        }
        None
    }

    /// Adds `n > 0` selections of `word` for `code`, saturating.
    fn add(&mut self, code: &str, word: &str, n: u32)
        requires
            n > 0,
        ensures
            learn_wf(final(self)@),
            count_of(final(self)@, code@, word@) == (if count_of(old(self)@, code@, word@) + n > u32::MAX {
                u32::MAX as int } else { count_of(old(self)@, code@, word@) + n }),
            forall|c: Seq<char>, w: Seq<char>| !(c == code@ && w == word@) ==>
                count_of(final(self)@, c, w) == count_of(old(self)@, c, w),
            forall|c: Seq<char>| has_code_spec(final(self)@, c) <==> (has_code_spec(old(self)@, c) || c == code@),
            final(self).saved_view() == old(self).saved_view(),
            final(self).fails_next_commit() == old(self).fails_next_commit(),
    {
        proof { use_type_invariant(&*self); }
        let ghost v = self@;
        match self.find(code, word) {
            Some(k) => {
                let c = self.entries[k].count.saturating_add(n);
                let e = UserEntry { code: string_from(code), word: string_from(word), count: c };
                proof {
                    lemma_count_found(v, k as int);
                    let ne = entry_view(e);
                    let u = v.update(k as int, ne);
                    assert(learn_wf(u)) by {
                        assert forall|a: int, b: int| 0 <= a < b < u.len() implies !((#[trigger] u[a]).0 == (#[trigger] u[b]).0 && u[a].1 == u[b].1) by {}
                    }
                    lemma_count_found(u, k as int);
                    assert forall|cc: Seq<char>, ww: Seq<char>| !(cc == code@ && ww == word@) implies
                        count_of(u, cc, ww) == count_of(v, cc, ww) by {
                        lemma_count_other(v, k as int, ne, cc, ww);
                    }
                    assert forall|cc: Seq<char>| has_code_spec(u, cc) <==> (has_code_spec(v, cc) || cc == code@) by {
                        if has_code_spec(v, cc) {
                            let i = choose|i: int| 0 <= i < v.len() && (#[trigger] v[i]).0 == cc;
                            assert(u[i].0 == cc);
                        }
                        if cc == code@ {
                            assert(u[k as int].0 == cc);
                        }
                        if has_code_spec(u, cc) {
                            let i = choose|i: int| 0 <= i < u.len() && (#[trigger] u[i]).0 == cc;
                            if i != k {
                                assert(v[i].0 == cc);
                            }
                        }
                    }
                }
                let mut es: Vec<UserEntry> = Vec::new();
                std::mem::swap(&mut es, &mut self.entries);
                es.set(k, e);
                assert(entries_view(es@) =~= v.update(k as int, entry_view(e)));
                self.entries = es;
                assert(self@ =~= v.update(k as int, entry_view(e)));
            },
            None => {
                let e = UserEntry { code: string_from(code), word: string_from(word), count: n };
                proof {
                    lemma_count_missing(v, code@, word@);
                    let ne = entry_view(e);
                    let u = v.push(ne);
                    assert(learn_wf(u)) by {
                        assert forall|a: int, b: int| 0 <= a < b < u.len() implies !((#[trigger] u[a]).0 == (#[trigger] u[b]).0 && u[a].1 == u[b].1) by {
                            if b == v.len() {
                                assert(u[a] == v[a]);
                            }
                        }
                    }
                    assert forall|cc: Seq<char>, ww: Seq<char>| true implies
                        count_of(u, cc, ww) == if ne.0 == cc && ne.1 == ww { ne.2 } else { count_of(v, cc, ww) } by {
                        lemma_count_push(v, ne, cc, ww);
                    }
                    assert forall|cc: Seq<char>| has_code_spec(u, cc) <==> (has_code_spec(v, cc) || cc == code@) by {
                        if has_code_spec(v, cc) {
                            let i = choose|i: int| 0 <= i < v.len() && (#[trigger] v[i]).0 == cc;
                            assert(u[i].0 == cc);
                        }
                        if cc == code@ {
                            assert(u[v.len() as int].0 == cc);
                        }
                        if has_code_spec(u, cc) {
                            let i = choose|i: int| 0 <= i < u.len() && (#[trigger] u[i]).0 == cc;
                            if i < v.len() {
                                assert(v[i].0 == cc);
                            }
                        }
                    }
                }
                let mut es: Vec<UserEntry> = Vec::new();
                std::mem::swap(&mut es, &mut self.entries);
                es.push(e);
                assert(entries_view(es@) =~= v.push(entry_view(e)));
                self.entries = es;
                assert(self@ =~= v.push(entry_view(e)));
            },
        }
    }

    /// Records one selection of `word` for `code` (the count saturates at
    /// `u32::MAX`); no other count changes.
    pub fn learn(&mut self, code: &str, word: &str)
        ensures
            learn_wf(final(self)@),
            learned_once(old(self)@, final(self)@, code@, word@),
            forall|c: Seq<char>| has_code_spec(final(self)@, c) <==> (has_code_spec(old(self)@, c) || c == code@),
            final(self).saved_view() == old(self).saved_view(),
            final(self).fails_next_commit() == old(self).fails_next_commit(),
    {
        self.add(code, word, 1);
    }

    /// Takes back one selection of `word` for `code`; `false` when it was
    /// never chosen. A count that reaches 0 is dropped.
    pub fn forget(&mut self, code: &str, word: &str) -> (r: bool)
        ensures
            learn_wf(final(self)@),
            r == (count_of(old(self)@, code@, word@) > 0),
            forgotten_once(old(self)@, final(self)@, code@, word@),
            final(self).saved_view() == old(self).saved_view(),
            final(self).fails_next_commit() == old(self).fails_next_commit(),
    {
        proof { use_type_invariant(&*self); }
        let ghost v = self@;
        match self.find(code, word) {
            Some(k) => {
                proof { lemma_count_found(v, k as int); }
                let c = self.entries[k].count;
                if c > 1 {
                    let e = UserEntry { code: string_from(code), word: string_from(word), count: c - 1 };
                    proof {
                        let ne = entry_view(e);
                        let u = v.update(k as int, ne);
                        assert(learn_wf(u)) by {
                            assert forall|a: int, b: int| 0 <= a < b < u.len() implies !((#[trigger] u[a]).0 == (#[trigger] u[b]).0 && u[a].1 == u[b].1) by {}
                        }
                        lemma_count_found(u, k as int);
                        assert forall|cc: Seq<char>, ww: Seq<char>| !(cc == code@ && ww == word@) implies
                            count_of(u, cc, ww) == count_of(v, cc, ww) by {
                            lemma_count_other(v, k as int, ne, cc, ww);
                        }
                    }
                    let mut es: Vec<UserEntry> = Vec::new();
                    std::mem::swap(&mut es, &mut self.entries);
                    es.set(k, e);
                    assert(entries_view(es@) =~= v.update(k as int, entry_view(e)));
                    self.entries = es;
                    assert(self@ =~= v.update(k as int, entry_view(e)));
                } else {
                    proof {
                        let u = v.remove(k as int);
                        assert(learn_wf(u)) by {
                            assert forall|a: int, b: int| 0 <= a < b < u.len() implies !((#[trigger] u[a]).0 == (#[trigger] u[b]).0 && u[a].1 == u[b].1) by {
                                let aa = if a < k { a } else { a + 1 };
                                let bb = if b < k { b } else { b + 1 };
                                assert(u[a] == v[aa] && u[b] == v[bb]);
                            }
                            assert forall|a: int| 0 <= a < u.len() implies (#[trigger] u[a]).2 > 0 by {
                                let aa = if a < k { a } else { a + 1 };
                                assert(u[a] == v[aa]);
                            }
                        }
                        assert forall|i: int| 0 <= i < u.len() implies !((#[trigger] u[i]).0 == code@ && u[i].1 == word@) by {
                            let ii = if i < k { i } else { i + 1 };
                            assert(u[i] == v[ii]);
                        }
                        lemma_count_missing(u, code@, word@);
                        assert forall|cc: Seq<char>, ww: Seq<char>| !(cc == code@ && ww == word@) implies
                            count_of(u, cc, ww) == count_of(v, cc, ww) by {
                            lemma_count_other(v, k as int, v[k as int], cc, ww);
                        }
                    }
                    let mut es: Vec<UserEntry> = Vec::new();
                    std::mem::swap(&mut es, &mut self.entries);
                    es.remove(k);
                    assert(entries_view(es@) =~= v.remove(k as int));
                    self.entries = es;
                    assert(self@ =~= v.remove(k as int));
                }
                true
            },
            None => {
                proof { lemma_count_missing(v, code@, word@); }
                false
            },
        }
    }

    /// How often `word` was chosen for `code`.
    pub fn count(&self, code: &str, word: &str) -> (n: u32)
        ensures
            n == count_of(self@, code@, word@),
    {
        match self.find(code, word) {
            Some(k) => {
                proof { lemma_count_found(self@, k as int); }
                self.entries[k].count
            },
            None => {
                proof { lemma_count_missing(self@, code@, word@); }
                0
            },
        }
    }

    /// Whether some word was learned for `code`.
    pub fn has_code(&self, code: &str) -> (b: bool)
        ensures
            b == has_code_spec(self@, code@),
    {
        proof { use_type_invariant(self); }
        let mut i: usize = 0;
        while i < self.entries.len()
            invariant
                i <= self@.len(),
                self@.len() == self.entries@.len(),
                forall|j: int| 0 <= j < i ==> (#[trigger] self@[j]).0 != code@,
            decreases self@.len() - i,
        {
            if str_eq(self.entries[i].code.as_str(), code) {
                assert(self@[i as int].0 == code@);
                return true;
            }
            i += 1;
        }
        false
    }

    /// The words learned for `code` with their counts, highest count first
    /// (ties in learning order).
    pub fn words_for(&self, code: &str) -> (r: Vec<(String, u32)>)
        ensures
            word_pairs_view(r@) == stable_sort_by(words_of_code(self@, code@), count_desc()),
    {
        proof { use_type_invariant(self); }
        let ghost ws = words_of_code(self@, code@);
        let mut r: Vec<(String, u32)> = Vec::new();
        let mut i: usize = 0;
        proof {
            assert(self@.take(0) =~= Seq::<LearnEntry>::empty());
            assert(word_pairs_view(r@) =~= Seq::<(Seq<char>, u32)>::empty());
        }
        while i < self.entries.len()
            invariant
                i <= self@.len(),
                self@.len() == self.entries@.len(),
                ws == words_of_code(self@, code@),
                word_pairs_view(r@) == stable_sort_by(words_of_code(self@.take(i as int), code@), count_desc()),
            decreases self@.len() - i,
        {
            let ghost t = word_pairs_view(r@);
            let ghost prev = words_of_code(self@.take(i as int), code@);
            proof {
                assert(self@.take(i + 1).drop_last() == self@.take(i as int));
                assert(self@.take(i + 1).last() == self@[i as int]);
                lemma_stable_sort_by(prev, count_desc());
            }
            assert(self@[i as int] == (self.entries@[i as int].code@, self.entries@[i as int].word@, self.entries@[i as int].count));
            if str_eq(self.entries[i].code.as_str(), code) {
                let w = self.entries[i].word.clone();
                let c = self.entries[i].count;
                let ghost x = (w@, c);
                let mut p: usize = 0;
                while p < r.len() && r[p].1 >= c
                    invariant
                        p <= r@.len(),
                        x == (w@, c),
                        t == word_pairs_view(r@),
                        forall|j: int| 0 <= j < p ==> count_desc()(#[trigger] t[j], x),
                    decreases r@.len() - p,
                {
                    assert(t[p as int] == (r@[p as int].0@, r@[p as int].1));
                    assert(count_desc()(t[p as int], x));
                    p += 1;
                }
                proof {
                    assert forall|j: int| p <= j < t.len() implies !count_desc()(#[trigger] t[j], x) by {
                        assert(sorted_by(t, count_desc()));
                        if j > p {
                            assert(count_desc()(t[p as int], t[j]));
                        }
                    }
                    lemma_upper_pos_by(t, x, count_desc(), p as int);
                }
                r.insert(p, (w, c));
                assert(word_pairs_view(r@) =~= t.insert(p as int, x));
                assert(prev.push(x).drop_last() == prev);
            }
            i += 1;
        }
        proof {
            assert(self@.take(self@.len() as int) == self@);
        }
        r
    }

    /// The learned words usable as composition edges for `code`: as
    /// `words_for`.
    pub fn composition_words(&self, code: &str) -> (r: Vec<(String, u32)>)
        ensures
            word_pairs_view(r@) == stable_sort_by(words_of_code(self@, code@), count_desc()),
    {
        self.words_for(code)
    }

    pub fn is_empty(&self) -> (b: bool)
        ensures
            b == (self@.len() == 0),
    {
        self.entries.len() == 0
    }

    /// Stably promotes candidates by how often their word was chosen for
    /// `code`; unlearned candidates keep their order after the learned ones.
    pub fn reorder_candidates(&self, code: &str, candidates: &mut Vec<Candidate>)
        ensures
            final(candidates)@ == stable_sort_by(old(candidates)@, by_count(self@, code@)),
    {
        let ghost le = by_count(self@, code@);
        let ghost orig = candidates@;
        assert(total_preorder(le));
        let mut out: Vec<Candidate> = Vec::new();
        let mut counts: Vec<u32> = Vec::new();
        let mut i: usize = 0;
        assert(orig.take(0) =~= Seq::<Candidate>::empty());
        assert(orig.len() == candidates.len());
        while candidates.len() > 0
            invariant
                total_preorder(le),
                le == by_count(self@, code@),
                i + candidates@.len() == orig.len(),
                i <= orig.len(),
                orig.len() <= usize::MAX,
                candidates@ == orig.skip(i as int),
                out@ == stable_sort_by(orig.take(i as int), le),
                counts@.len() == out@.len(),
                forall|k: int| 0 <= k < out@.len() ==> counts@[k] == count_of(self@, code@, (#[trigger] out@[k]).word@),
            decreases candidates@.len(),
        {
            let ghost t = out@;
            let x = candidates.remove(0);
            assert(x == orig[i as int]);
            assert(candidates@ =~= orig.skip(i + 1));
            proof {
                lemma_stable_sort_by(orig.take(i as int), le);
            }
            let c = self.count(code, x.word.as_str());
            let mut p: usize = 0;
            while p < out.len() && counts[p] >= c
                invariant
                    p <= out@.len(),
                    t == out@,
                    le == by_count(self@, code@),
                    counts@.len() == out@.len(),
                    c == count_of(self@, code@, x.word@),
                    forall|k: int| 0 <= k < out@.len() ==> counts@[k] == count_of(self@, code@, (#[trigger] out@[k]).word@),
                    forall|j: int| 0 <= j < p ==> le(#[trigger] t[j], x),
                decreases out@.len() - p,
            {
                assert(counts@[p as int] == count_of(self@, code@, out@[p as int].word@));
                assert(le(t[p as int], x));
                p += 1;
            }
            proof {
                assert forall|j: int| p <= j < t.len() implies !le(#[trigger] t[j], x) by {
                    if j > p {
                        assert(le(t[p as int], t[j]));
                    }
                }
                lemma_upper_pos_by(t, x, le, p as int);
                assert(orig.take(i + 1).drop_last() == orig.take(i as int));
                assert(orig.take(i + 1).last() == x);
            }
            out.insert(p, x);
            counts.insert(p, c);
            proof {
                assert forall|k: int| 0 <= k < out@.len() implies counts@[k] == count_of(self@, code@, (#[trigger] out@[k]).word@) by {
                    if k < p {
                        assert(out@[k] == t[k]);
                    } else if k > p {
                        assert(out@[k] == t[k - 1]);
                    }
                }
            }
            i += 1;
        }
        assert(orig.take(orig.len() as int) == orig);
        *candidates = out;
    }

    /// Opens a transaction: a later rollback returns to the present counts.
    pub fn begin_transaction(&mut self)
        ensures
            final(self)@ == old(self)@,
            final(self).saved_view() == Some(old(self)@),
            final(self).fails_next_commit() == old(self).fails_next_commit(),
    {
        proof { use_type_invariant(&*self); }
        let s = clone_entries(&self.entries);
        self.saved = Some(s);
    }

    /// Closes the transaction, keeping the counts; `false` (and the
    /// transaction stays open) when the commit was set to fail.
    pub fn commit_transaction(&mut self) -> (ok: bool)
        ensures
            ok == !old(self).fails_next_commit(),
            final(self)@ == old(self)@,
            !final(self).fails_next_commit(),
            final(self).saved_view() == if ok { None } else { old(self).saved_view() },
    {
        proof { use_type_invariant(&*self); }
        if self.fail_next_commit {
            self.fail_next_commit = false;
            false
        } else {
            self.saved = None;
            true
        }
    }

    /// Returns to the counts of the open transaction, if any, and closes it.
    pub fn rollback_transaction(&mut self)
        ensures
            final(self)@ == match old(self).saved_view() {
                Some(s) => s,
                None => old(self)@,
            },
            final(self).saved_view() is None,
            final(self).fails_next_commit() == old(self).fails_next_commit(),
    {
        proof { use_type_invariant(&*self); }
        let mut saved: Option<Vec<UserEntry>> = None;
        std::mem::swap(&mut saved, &mut self.saved);
        match saved {
            Some(s) => {
                self.entries = s;
            },
            None => {},
        }
    }

    /// Makes the next transaction commit fail (for exercising rollback).
    pub fn fail_next_commit_once(&mut self)
        ensures
            final(self)@ == old(self)@,
            final(self).saved_view() == old(self).saved_view(),
            final(self).fails_next_commit(),
    {
        proof { use_type_invariant(&*self); }
        self.fail_next_commit = true;
    }
}

} // verus!
