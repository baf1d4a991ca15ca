//! A light candidate-translation pipeline (after librime's Translation and
//! Distinct).
use vstd::prelude::*;
use crate::engine::{Candidate, CandView, cand_view, cands_view};
use crate::text::str_eq;

verus! {

/// A stream of candidates.
pub trait Translation {
    fn peek(&self) -> Option<&Candidate>;

    fn next(&mut self) -> bool;

    fn exhausted(&self) -> bool;
}

/// Candidates handed out in order.
pub struct FifoTranslation {
    items: Vec<Candidate>,
    index: usize,
}

impl FifoTranslation {
    pub closed spec fn items_view(&self) -> Seq<CandView> {
        cands_view(self.items@)
    }

    pub closed spec fn position(&self) -> nat {
        self.index as nat
    }

    pub fn new(items: Vec<Candidate>) -> (t: FifoTranslation)
        ensures
            t.items_view() == cands_view(items@),
            t.position() == 0,
    {
        FifoTranslation { items, index: 0 }
    }
}

impl Translation for FifoTranslation {
    /// The current candidate, if any is left.
    fn peek(&self) -> (r: Option<&Candidate>)
        ensures
            self.position() < self.items_view().len() ==> (r matches Some(c) && cand_view(*c) == self.items_view()[self.position() as int]),
            self.position() >= self.items_view().len() ==> r is None,
    {
        if self.index < self.items.len() {
            Some(&self.items[self.index])
        } else {
            None
        }
    }

    /// Moves on; `true` when a candidate is then current.
    fn next(&mut self) -> (b: bool)
        ensures
            final(self).items_view() == old(self).items_view(),
            old(self).position() >= old(self).items_view().len() ==> !b && final(self).position() == old(self).position(),
            old(self).position() < old(self).items_view().len() ==> final(self).position() == old(self).position() + 1
                && b == (final(self).position() < final(self).items_view().len()),
    {
        if self.index >= self.items.len() {
            return false;
        }
        self.index += 1;
        self.index < self.items.len()
    }

    fn exhausted(&self) -> (b: bool)
        ensures
            b == (self.position() >= self.items_view().len()),
    {
        self.index >= self.items.len()
    }
}

/// The candidates with their words' first occurrences only, in order.
pub open spec fn distinct_words(s: Seq<CandView>) -> Seq<CandView>
    decreases s.len(),
{
    if s.len() == 0 {
        Seq::empty()
    } else {
        let prev = distinct_words(s.drop_last());
        if exists|k: int| 0 <= k < prev.len() && prev[k].0 == s.last().0 { prev } else { prev.push(s.last()) }
    }
}

/// The candidates without repeated words (the first occurrence stays), at
/// most `limit` of them (`limit == 0`: no limit).
pub fn distinct(candidates: Vec<Candidate>, limit: usize) -> (r: Vec<Candidate>)
    ensures
        ({
            let d = distinct_words(cands_view(candidates@));
            cands_view(r@) == if limit == 0 || d.len() <= limit { d } else { d.take(limit as int) }
        }),
{
    let ghost cv = cands_view(candidates@);
    let mut output: Vec<Candidate> = Vec::new();
    let mut rest = candidates;
    let mut i: usize = 0;
    assert(cv.take(0) =~= Seq::<CandView>::empty());
    assert(cv.len() == rest.len());
    assert(cands_view(rest@) =~= cv.skip(0));
    while rest.len() > 0
        invariant
            i + rest@.len() == cv.len(),
            cv.len() <= usize::MAX,
            cands_view(rest@) == cv.skip(i as int),
            ({
                let d = distinct_words(cv.take(i as int));
                cands_view(output@) == if limit == 0 || d.len() <= limit { d } else { d.take(limit as int) }
            }),
        decreases rest@.len(),
    {
        let ghost r0 = rest@;
        let c = rest.remove(0);
        proof {
            assert(cands_view(r0)[0] == cand_view(r0[0]));
            assert(cand_view(c) == cv[i as int]) by {
                assert(cv.skip(i as int)[0] == cv[i as int]);
            }
            assert(cands_view(rest@) =~= cands_view(r0).drop_first());
            assert(cv.skip(i as int).drop_first() =~= cv.skip(i + 1));
            assert(cv.take(i + 1).drop_last() =~= cv.take(i as int));
            assert(cv.take(i + 1).last() == cv[i as int]);
        }
        let ghost d0 = distinct_words(cv.take(i as int));
        let ghost d1 = distinct_words(cv.take(i + 1));
        if limit != 0 && output.len() >= limit {
            proof {
                assert(d1.len() >= d0.len());
                assert(d0.len() > limit || d0.len() == limit);
                if d1.len() > d0.len() {
                    assert(d1 == d0.push(cv[i as int]));
                    assert(d1.take(limit as int) =~= d0.take(limit as int));
                }
                if d0.len() == limit {
                    assert(d0.take(limit as int) =~= d0);
                }
            }
            i += 1;
            continue;
        }
        let mut seen = false;
        let mut k: usize = 0;
        while k < output.len()
            invariant
                k <= output@.len(),
                seen == exists|j: int| 0 <= j < k && cands_view(output@)[j].0 == c.word@,
            decreases output@.len() - k,
        {
            if str_eq(output[k].word.as_str(), c.word.as_str()) {
                assert(cands_view(output@)[k as int].0 == c.word@);
                seen = true;
            }
            k += 1;
        }
        proof {
            assert(cands_view(output@) == d0);
        }
        if !seen {
            let ghost ob = output@;
            output.push(c);
            assert(cands_view(output@) =~= cands_view(ob).push(cand_view(c)));
        }
        i += 1;
    }
    assert(cv.take(cv.len() as int) =~= cv);
    output
}

} // verus!
