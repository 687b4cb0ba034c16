//! Bracket balance, stated over sequences of marks.
//!
//! A source text or an instruction sequence is abstracted to a sequence
//! of integer marks: `1` for an opening bracket, `-1` for a closing one,
//! `0` for everything else.  Such a sequence is balanced when no prefix
//! has more closing than opening brackets and the totals agree.  The
//! module gives the two quantities that determine balance — the total
//! `tsum` and the least prefix sum `minp` — and how they compose under
//! `push` and concatenation.

use vstd::prelude::*;

verus! {

/// Sum of all marks.
pub open spec fn tsum(s: Seq<int>) -> int
    decreases s.len(),
{
    if s.len() == 0 {
        0
    } else {
        tsum(s.drop_last()) + s.last()
    }
}

/// Least sum over all prefixes, the empty prefix included, so always
/// at most zero.
pub open spec fn minp(s: Seq<int>) -> int
    decreases s.len(),
{
    if s.len() == 0 {
        0
    } else {
        vstd::math::min(minp(s.drop_last()), tsum(s))
    }
}

/// Balanced: no prefix dips below zero and the total is zero.
pub open spec fn bal(s: Seq<int>) -> bool {
    minp(s) == 0 && tsum(s) == 0
}

pub proof fn lemma_tsum_push(s: Seq<int>, x: int)
    ensures
        tsum(s.push(x)) == tsum(s) + x,
{
    assert(s.push(x).drop_last() =~= s);
}

pub proof fn lemma_minp_push(s: Seq<int>, x: int)
    ensures
        minp(s.push(x)) == vstd::math::min(minp(s), tsum(s) + x),
{
    lemma_tsum_push(s, x);
    assert(s.push(x).drop_last() =~= s);
}

pub proof fn lemma_minp_bounds(s: Seq<int>)
    ensures
        minp(s) <= 0,
        minp(s) <= tsum(s),
    decreases s.len(),
{
    if s.len() != 0 {
        lemma_minp_bounds(s.drop_last());
    }
}

pub proof fn lemma_tsum_concat(a: Seq<int>, b: Seq<int>)
    ensures
        tsum(a + b) == tsum(a) + tsum(b),
    decreases b.len(),
{
    if b.len() == 0 {
        assert(a + b =~= a);
    } else {
        lemma_tsum_concat(a, b.drop_last());
        assert((a + b).drop_last() =~= a + b.drop_last());
        assert((a + b).last() == b.last());
    }
}

pub proof fn lemma_minp_concat(a: Seq<int>, b: Seq<int>)
    ensures
        minp(a + b) == vstd::math::min(minp(a), tsum(a) + minp(b)),
    decreases b.len(),
{
    if b.len() == 0 {
        assert(a + b =~= a);
        lemma_minp_bounds(a);
    } else {
        lemma_minp_concat(a, b.drop_last());
        lemma_tsum_concat(a, b);
        assert((a + b).drop_last() =~= a + b.drop_last());
    }
}

/// A singleton's two quantities.
pub proof fn lemma_single(x: int)
    ensures
        tsum(seq![x]) == x,
        minp(seq![x]) == vstd::math::min(0, x),
{
    assert(seq![x].len() == 1);
    assert(seq![x].last() == x);
    assert(seq![x].drop_last() =~= Seq::<int>::empty());
    assert(tsum(seq![x]) == tsum(Seq::<int>::empty()) + x);
    assert(minp(seq![x]) == vstd::math::min(minp(Seq::<int>::empty()), tsum(seq![x])));
}

/// Wrapping two balanced stretches in a fresh bracket pair keeps the
/// whole balanced: `a` followed by `[`, `b`, `]`.
pub proof fn lemma_bal_wrap(a: Seq<int>, b: Seq<int>)
    requires
        bal(a),
        bal(b),
    ensures
        bal(a + seq![1int] + b + seq![-1int]),
{
    lemma_single(1int);
    lemma_single(-1int);
    lemma_tsum_concat(a, seq![1int]);
    lemma_minp_concat(a, seq![1int]);
    lemma_tsum_concat(a + seq![1int], b);
    lemma_minp_concat(a + seq![1int], b);
    lemma_tsum_concat(a + seq![1int] + b, seq![-1int]);
    lemma_minp_concat(a + seq![1int] + b, seq![-1int]);
}

/// Appending a zero mark changes neither quantity.
pub proof fn lemma_push_zero(s: Seq<int>)
    ensures
        tsum(s.push(0)) == tsum(s),
        minp(s.push(0)) == minp(s),
{
    lemma_tsum_push(s, 0);
    lemma_minp_push(s, 0);
    lemma_minp_bounds(s);
}

} // verus!
