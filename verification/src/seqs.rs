//! Lookup and summation over sequences, shared by the broker's order list
//! and the portfolio's position and price tables.

use vstd::prelude::*;

verus! {

/// Index of the first element satisfying `p`, or -1 when none does.
pub open spec fn find_by<T>(s: Seq<T>, p: spec_fn(T) -> bool) -> int
    decreases s.len(),
{
    if s.len() == 0 {
        -1
    } else if p(s[0]) {
        0
    } else {
        let r = find_by(s.skip(1), p);
        if r == -1 {
            -1
        } else {
            r + 1
        }
    }
}

/// `find_by` returns either -1 with no element satisfying `p`, or the first
/// index whose element does.
pub proof fn lemma_find_by<T>(s: Seq<T>, p: spec_fn(T) -> bool)
    ensures
        -1 <= find_by(s, p) < s.len(),
        find_by(s, p) == -1 ==> forall|j: int| 0 <= j < s.len() ==> !#[trigger] p(s[j]),
        find_by(s, p) >= 0 ==> 0 <= find_by(s, p) < s.len() && p(s[find_by(s, p)]) && (forall|
            j: int,
        |
            0 <= j < find_by(s, p) ==> !#[trigger] p(s[j])),
    decreases s.len(),
{
    if s.len() != 0 && !p(s[0]) {
        lemma_find_by(s.skip(1), p);
        let r = find_by(s.skip(1), p);
        if r == -1 {
            assert forall|j: int| 0 <= j < s.len() implies !p(s[j]) by {
                if j > 0 {
                    assert(s.skip(1)[j - 1] == s[j]);
                    assert(!p(s.skip(1)[j - 1]));
                }
            }
        } else {
            assert(s.skip(1)[r] == s[r + 1]);
            assert(p(s[r + 1]));
            assert forall|j: int| 0 <= j < r + 1 implies !p(s[j]) by {
                if j > 0 {
                    assert(s.skip(1)[j - 1] == s[j]);
                    assert(!p(s.skip(1)[j - 1]));
                }
            }
        }
    }
}

/// Sum of `f` over the elements of `s`.
pub open spec fn sum_by<T>(s: Seq<T>, f: spec_fn(T) -> int) -> int
    decreases s.len(),
{
    if s.len() == 0 {
        0
    } else {
        sum_by(s.drop_last(), f) + f(s.last())
    }
}

pub proof fn lemma_sum_by_push<T>(s: Seq<T>, x: T, f: spec_fn(T) -> int)
    ensures
        sum_by(s.push(x), f) == sum_by(s, f) + f(x),
{
    assert(s.push(x).drop_last() =~= s);
}

pub proof fn lemma_sum_by_update<T>(s: Seq<T>, i: int, x: T, f: spec_fn(T) -> int)
    requires
        0 <= i < s.len(),
    ensures
        sum_by(s.update(i, x), f) == sum_by(s, f) - f(s[i]) + f(x),
    decreases s.len(),
{
    let s2 = s.update(i, x);
    if i == s.len() - 1 {
        assert(s2.drop_last() =~= s.drop_last());
        assert(s2.last() == x);
    } else {
        assert(s2.drop_last() =~= s.drop_last().update(i, x));
        lemma_sum_by_update(s.drop_last(), i, x, f);
        assert(s2.last() == s.last());
    }
}

pub proof fn lemma_sum_by_cons<T>(x: T, s: Seq<T>, f: spec_fn(T) -> int)
    ensures
        sum_by(seq![x] + s, f) == f(x) + sum_by(s, f),
    decreases s.len(),
{
    if s.len() == 0 {
        assert((seq![x] + s).drop_last() =~= Seq::<T>::empty());
        assert((seq![x] + s).last() == x);
        assert(sum_by(Seq::<T>::empty(), f) == 0);
    } else {
        assert((seq![x] + s).drop_last() =~= seq![x] + s.drop_last());
        lemma_sum_by_cons(x, s.drop_last(), f);
        assert((seq![x] + s).last() == s.last());
    }
}

/// A sum of elementwise-bounded terms is bounded by `len` times the bound.
pub proof fn lemma_sum_by_bound<T>(s: Seq<T>, f: spec_fn(T) -> int, bound: int)
    requires
        forall|j: int| 0 <= j < s.len() ==> -bound <= #[trigger] f(s[j]) <= bound,
        bound >= 0,
    ensures
        -bound * s.len() <= sum_by(s, f) <= bound * s.len(),
    decreases s.len(),
{
    if s.len() != 0 {
        assert forall|j: int| 0 <= j < s.drop_last().len() implies -bound <= #[trigger] f(
            s.drop_last()[j],
        ) <= bound by {
            assert(s.drop_last()[j] == s[j]);
        }
        lemma_sum_by_bound(s.drop_last(), f, bound);
        assert(-bound <= f(s[s.len() - 1]) <= bound);
        assert(s.last() == s[s.len() - 1]);
        assert(bound * s.len() == bound * (s.len() - 1) + bound && -bound * s.len() == -bound * (
        s.len() - 1) - bound) by (nonlinear_arith);
    }
}

} // verus!
