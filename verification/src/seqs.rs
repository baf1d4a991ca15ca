//! General facts about sequences used by the dictionaries' search proofs.
use vstd::prelude::*;

verus! {

/// In a sequence where exactly the indices `lo..hi` satisfy `p`, filtering by
/// `p` gives that slice.
pub proof fn lemma_filter_range<A>(s: Seq<A>, p: spec_fn(A) -> bool, lo: int, hi: int)
    requires
        0 <= lo <= hi <= s.len(),
        forall|i: int| lo <= i < hi ==> p(#[trigger] s[i]),
        forall|i: int| 0 <= i < s.len() && !(lo <= i < hi) ==> !p(#[trigger] s[i]),
    ensures
        s.filter(p) == s.subrange(lo, hi),
    decreases s.len(),
{
    reveal(Seq::filter);
    if s.len() == 0 {
        assert(s.subrange(lo, hi) =~= s);
    } else {
        let t = s.drop_last();
        let n = s.len() - 1;
        if lo <= n && n < hi {
            lemma_filter_range(t, p, lo, hi - 1);
            assert(s.subrange(lo, hi) =~= t.subrange(lo, hi - 1).push(s.last()));
        } else {
            let lo2 = if lo > n { n } else { lo };
            let hi2 = if hi > n { n } else { hi };
            assert forall|i: int| 0 <= i < t.len() && !(lo2 <= i < hi2) implies !p(#[trigger] t[i]) by {
                assert(t[i] == s[i]);
            }
            assert forall|i: int| lo2 <= i < hi2 implies p(#[trigger] t[i]) by {
                assert(t[i] == s[i]);
            }
            lemma_filter_range(t, p, lo2, hi2);
            assert(t.subrange(lo2, hi2) =~= s.subrange(lo, hi));
        }
    }
}

/// `le` is a total preorder.
pub open spec fn total_preorder<A>(le: spec_fn(A, A) -> bool) -> bool {
    &&& forall|a: A, b: A, c: A| #[trigger] le(a, b) && #[trigger] le(b, c) ==> le(a, c)
    &&& forall|a: A, b: A| #[trigger] le(a, b) || le(b, a)
}

pub open spec fn sorted_by<A>(s: Seq<A>, le: spec_fn(A, A) -> bool) -> bool {
    forall|i: int, j: int| 0 <= i < j < s.len() ==> le(#[trigger] s[i], #[trigger] s[j])
}

/// Position after the last element of `s` that is `le` to `x`.
pub open spec fn upper_pos_by<A>(s: Seq<A>, x: A, le: spec_fn(A, A) -> bool) -> int
    decreases s.len(),
{
    if s.len() == 0 {
        0
    } else if le(s.last(), x) {
        s.len() as int
    } else {
        upper_pos_by(s.drop_last(), x, le)
    }
}

/// Stable insertion sort: each element, in input order, goes after every
/// element already placed that is `le` to it.
pub open spec fn stable_sort_by<A>(s: Seq<A>, le: spec_fn(A, A) -> bool) -> Seq<A>
    decreases s.len(),
{
    if s.len() == 0 {
        s
    } else {
        let t = stable_sort_by(s.drop_last(), le);
        t.insert(upper_pos_by(t, s.last(), le), s.last())
    }
}

/// Sorting a sequence that is already sorted leaves it as it is.
pub proof fn lemma_stable_sort_sorted<A>(s: Seq<A>, le: spec_fn(A, A) -> bool)
    requires
        sorted_by(s, le),
    ensures
        stable_sort_by(s, le) == s,
    decreases s.len(),
{
    if s.len() > 0 {
        let d = s.drop_last();
        assert forall|i: int, j: int| 0 <= i < j < d.len() implies le(#[trigger] d[i], #[trigger] d[j]) by {
            assert(d[i] == s[i] && d[j] == s[j]);
        }
        lemma_stable_sort_sorted(d, le);
        if d.len() > 0 {
            assert(le(d.last(), s.last())) by {
                assert(d.last() == s[d.len() - 1]);
            }
        }
        assert(d.insert(d.len() as int, s.last()) =~= s);
    }
}

/// A split point found by binary search is the insertion point of the sort.
pub proof fn lemma_upper_pos_by<A>(s: Seq<A>, x: A, le: spec_fn(A, A) -> bool, r: int)
    requires
        0 <= r <= s.len(),
        forall|i: int| 0 <= i < r ==> le(#[trigger] s[i], x),
        forall|i: int| r <= i < s.len() ==> !le(#[trigger] s[i], x),
    ensures
        upper_pos_by(s, x, le) == r,
    decreases s.len(),
{
    if s.len() > 0 {
        if le(s.last(), x) {
            assert(r == s.len());
        } else {
            let t = s.drop_last();
            assert forall|i: int| 0 <= i < r implies le(#[trigger] t[i], x) by {
                assert(t[i] == s[i]);
            }
            assert forall|i: int| r <= i < t.len() implies !le(#[trigger] t[i], x) by {
                assert(t[i] == s[i]);
            }
            lemma_upper_pos_by(t, x, le, r);
        }
    }
}

pub proof fn lemma_upper_pos_by_bounds<A>(s: Seq<A>, x: A, le: spec_fn(A, A) -> bool)
    requires
        total_preorder(le),
        sorted_by(s, le),
    ensures
        0 <= upper_pos_by(s, x, le) <= s.len(),
        forall|i: int| 0 <= i < upper_pos_by(s, x, le) ==> le(#[trigger] s[i], x),
        forall|i: int| upper_pos_by(s, x, le) <= i < s.len() ==> !le(#[trigger] s[i], x),
    decreases s.len(),
{
    if s.len() > 0 {
        let t = s.drop_last();
        assert(sorted_by(t, le)) by {
            assert forall|i: int, j: int| 0 <= i < j < t.len() implies le(#[trigger] t[i], #[trigger] t[j]) by {
                assert(t[i] == s[i] && t[j] == s[j]);
            }
        }
        if le(s.last(), x) {
            assert forall|i: int| 0 <= i < upper_pos_by(s, x, le) implies le(#[trigger] s[i], x) by {
                if i < s.len() - 1 {
                    assert(le(s[i], s[s.len() - 1]));
                }
            }
        } else {
            lemma_upper_pos_by_bounds(t, x, le);
            assert forall|i: int| 0 <= i < upper_pos_by(s, x, le) implies le(#[trigger] s[i], x) by {
                assert(s[i] == t[i]);
            }
            assert forall|i: int| upper_pos_by(s, x, le) <= i < s.len() implies !le(#[trigger] s[i], x) by {
                if i < t.len() {
                    assert(s[i] == t[i]);
                }
            }
        }
    }
}

/// The stable sort is sorted and keeps every element.
pub proof fn lemma_stable_sort_by<A>(s: Seq<A>, le: spec_fn(A, A) -> bool)
    requires
        total_preorder(le),
    ensures
        sorted_by(stable_sort_by(s, le), le),
        stable_sort_by(s, le).len() == s.len(),
        stable_sort_by(s, le).to_multiset() == s.to_multiset(),
    decreases s.len(),
{
    broadcast use vstd::seq_lib::group_to_multiset_ensures;
    if s.len() > 0 {
        let x = s.last();
        let t = stable_sort_by(s.drop_last(), le);
        lemma_stable_sort_by(s.drop_last(), le);
        let p = upper_pos_by(t, x, le);
        lemma_upper_pos_by_bounds(t, x, le);
        let u = t.insert(p, x);
        assert forall|i: int, j: int| 0 <= i < j < u.len() implies le(#[trigger] u[i], #[trigger] u[j]) by {
            if j < p {
                assert(u[i] == t[i] && u[j] == t[j]);
            } else if j == p {
                assert(u[i] == t[i]);
            } else if i < p {
                assert(u[i] == t[i] && u[j] == t[j - 1]);
            } else if i == p {
                assert(u[j] == t[j - 1]);
                assert(!le(t[j - 1], x));
            } else {
                assert(u[i] == t[i - 1] && u[j] == t[j - 1]);
            }
        }
        t.insert_ensures(p, x);
        assert(s == s.drop_last().push(x));
    }
}

proof fn lemma_upper_map<A, B>(t: Seq<A>, x: A, f: spec_fn(A) -> B, la: spec_fn(A, A) -> bool, lb: spec_fn(B, B) -> bool)
    requires
        forall|a: A, b: A| #[trigger] la(a, b) == lb(f(a), f(b)),
    ensures
        upper_pos_by(t, x, la) == upper_pos_by(t.map_values(f), f(x), lb),
    decreases t.len(),
{
    if t.len() > 0 {
        assert(t.map_values(f).drop_last() == t.drop_last().map_values(f));
        assert(t.map_values(f).last() == f(t.last()));
        assert(la(t.last(), x) == lb(f(t.last()), f(x)));
        lemma_upper_map(t.drop_last(), x, f, la, lb);
    }
}

/// Sorting then mapping is mapping then sorting, for an order that the
/// mapping keeps.
pub proof fn lemma_sort_map<A, B>(s: Seq<A>, f: spec_fn(A) -> B, la: spec_fn(A, A) -> bool, lb: spec_fn(B, B) -> bool)
    requires
        forall|a: A, b: A| #[trigger] la(a, b) == lb(f(a), f(b)),
    ensures
        stable_sort_by(s, la).map_values(f) == stable_sort_by(s.map_values(f), lb),
    decreases s.len(),
{
    if s.len() > 0 {
        lemma_sort_map(s.drop_last(), f, la, lb);
        let t = stable_sort_by(s.drop_last(), la);
        let x = s.last();
        lemma_upper_map(t, x, f, la, lb);
        assert(s.map_values(f).drop_last() == s.drop_last().map_values(f));
        assert(s.map_values(f).last() == f(x));
        let p = upper_pos_by(t, x, la);
        if 0 <= p <= t.len() {
            assert(t.insert(p, x).map_values(f) =~= t.map_values(f).insert(p, f(x)));
        } else {
            assert(false) by {
                lemma_upper_pos_by_range(t, x, la);
            }
        }
    }
}

pub proof fn lemma_upper_pos_by_range<A>(s: Seq<A>, x: A, le: spec_fn(A, A) -> bool)
    ensures
        0 <= upper_pos_by(s, x, le) <= s.len(),
    decreases s.len(),
{
    if s.len() > 0 {
        lemma_upper_pos_by_range(s.drop_last(), x, le);
    }
}

} // verus!
