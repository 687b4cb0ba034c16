//! The compiler: source text to a jump-resolved instruction sequence.
//!
//! Compilation has three passes.  Folding turns each maximal run of
//! identical pointer/value symbols into one counted instruction and
//! drops every character that is not one of the eight symbols.  The
//! peephole pass rewrites each exact `[ - ]` triple into a single
//! [`Inst::Stz`].  Pairing resolves every bracket to the index of its
//! partner, or rejects the program when the brackets do not balance.

use vstd::prelude::*;
use vstd::std_specs::iter::IteratorSpec;

use crate::balance::bal;
use crate::balance::lemma_bal_wrap;
use crate::balance::lemma_minp_bounds;
use crate::balance::lemma_minp_concat;
use crate::balance::lemma_minp_push;
use crate::balance::lemma_push_zero;
use crate::balance::lemma_single;
use crate::balance::lemma_tsum_concat;
use crate::balance::lemma_tsum_push;
use crate::balance::minp;
use crate::balance::tsum;
use crate::inst::BfError;
use crate::inst::Inst;

verus! {

/// Bracket mark of one source character.
pub open spec fn cmark(c: char) -> int {
    if c == '[' {
        1
    } else if c == ']' {
        -1
    } else {
        0
    }
}

/// Bracket mark of one instruction.
pub open spec fn imark(i: Inst) -> int {
    if i is Jpf {
        1
    } else if i is Jpb {
        -1
    } else {
        0
    }
}

pub open spec fn cmarks(s: Seq<char>) -> Seq<int> {
    s.map_values(|c: char| cmark(c))
}

pub open spec fn imarks(s: Seq<Inst>) -> Seq<int> {
    s.map_values(|i: Inst| imark(i))
}

/// The brackets of the source text are balanced.
pub open spec fn src_balanced(s: Seq<char>) -> bool {
    bal(cmarks(s))
}

/// The brackets of an instruction sequence are balanced.
pub open spec fn insts_balanced(s: Seq<Inst>) -> bool {
    bal(imarks(s))
}

/// One character folded onto an already folded output: a recognized
/// symbol either merges with an ongoing run of its own kind or starts a
/// new instruction; any other character is a comment and is dropped.
/// A value run is split when its 8-bit count would overflow.
pub open spec fn fold_step(out: Seq<Inst>, c: char) -> Seq<Inst> {
    if c == '+' {
        if out.len() > 0 && (out.last() matches Inst::Add(k) && k < 255) {
            out.update(out.len() - 1, Inst::Add((out.last()->Add_0 + 1) as u8))
        } else {
            out.push(Inst::Add(1))
        }
    } else if c == '-' {
        if out.len() > 0 && (out.last() matches Inst::Sub(k) && k < 255) {
            out.update(out.len() - 1, Inst::Sub((out.last()->Sub_0 + 1) as u8))
        } else {
            out.push(Inst::Sub(1))
        }
    } else if c == '>' {
        if out.len() > 0 && (out.last() matches Inst::Shr(k) && k < usize::MAX) {
            out.update(out.len() - 1, Inst::Shr((out.last()->Shr_0 + 1) as usize))
        } else {
            out.push(Inst::Shr(1))
        }
    } else if c == '<' {
        if out.len() > 0 && (out.last() matches Inst::Shl(k) && k < usize::MAX) {
            out.update(out.len() - 1, Inst::Shl((out.last()->Shl_0 + 1) as usize))
        } else {
            out.push(Inst::Shl(1))
        }
    } else if c == '[' {
        out.push(Inst::Jpf(0))
    } else if c == ']' {
        out.push(Inst::Jpb(0))
    } else if c == '.' {
        out.push(Inst::Wrt)
    } else if c == ',' {
        out.push(Inst::Red)
    } else {
        out
    }
}

/// The whole folding pass over the source characters.
pub open spec fn fold_chars(s: Seq<char>) -> Seq<Inst>
    decreases s.len(),
{
    if s.len() == 0 {
        Seq::empty()
    } else {
        fold_step(fold_chars(s.drop_last()), s.last())
    }
}

/// The exact three-instruction zeroing idiom, before jump resolution.
pub open spec fn clear_triple(a: Inst, b: Inst, c: Inst) -> bool {
    a == Inst::Jpf(0usize) && b == Inst::Sub(1u8) && c == Inst::Jpb(0usize)
}

/// One forward peephole pass: each zeroing triple becomes `Stz` and its
/// three instructions are consumed; everything else is copied.
pub open spec fn peep(s: Seq<Inst>) -> Seq<Inst>
    decreases s.len(),
{
    if s.len() >= 3 && clear_triple(s[0], s[1], s[2]) {
        seq![Inst::Stz] + peep(s.skip(3))
    } else if s.len() == 0 {
        Seq::empty()
    } else {
        seq![s[0]] + peep(s.skip(1))
    }
}

/// The instruction sequence before jump resolution.
pub open spec fn pre_prog(src: Seq<char>) -> Seq<Inst> {
    peep(fold_chars(src))
}

/// Positions `i` and `j` hold a resolved bracket pair of `v`: the open
/// at `i` targets the close at `j` and vice versa, and the instructions
/// strictly between them balance — which makes `j` the partner bracket
/// of `i`.  `s` is the sequence before resolution, `v` after.
pub open spec fn pair_at(s: Seq<Inst>, v: Seq<Inst>, i: int, j: int) -> bool {
    &&& 0 <= i < j < s.len()
    &&& s[i] is Jpf
    &&& s[j] is Jpb
    &&& v[i] == Inst::Jpf(j as usize)
    &&& v[j] == Inst::Jpb(i as usize)
    &&& bal(imarks(s).subrange(i + 1, j))
}

/// `v` is `s` with every bracket resolved to its partner and everything
/// else unchanged.
pub open spec fn resolved(s: Seq<Inst>, v: Seq<Inst>) -> bool {
    &&& v.len() == s.len()
    &&& forall|k: int|
        0 <= k < s.len() && !(s[k] is Jpf) && !(s[k] is Jpb) ==> v[k] == s[k]
    &&& forall|i: int|
        0 <= i < s.len() && s[i] is Jpf ==> exists|j: int| #[trigger] pair_at(s, v, i, j)
    &&& forall|j: int|
        0 <= j < s.len() && s[j] is Jpb ==> exists|i: int| #[trigger] pair_at(s, v, i, j)
}

/// Reads the characters of a string into a vector, in order.
pub(crate) fn chars_vec(s: &str) -> (r: Vec<char>)
    ensures
        r@ == s@,
{
    broadcast use vstd::string::axiom_spec_iter;

    let mut r: Vec<char> = Vec::new();
    for c in it: s.chars()
        invariant
            it.seq() == s@,
            r@ == it.seq().take(it.index() as int),
    {
        r.push(c);
    }
    proof {
        assert(s@.take(s@.len() as int) =~= s@);
    }
    r
}

/// Folds one character onto the output vector, as [`fold_step`] says.
fn fold_push(out: &mut Vec<Inst>, c: char)
    ensures
        final(out)@ == fold_step(old(out)@, c),
{
    let len = out.len();
    if c == '+' {
        if len > 0 {
            if let Inst::Add(k) = out[len - 1] {
                if k < 255 {
                    out[len - 1] = Inst::Add(k + 1);
                    return ;
                }
            }
        }
        out.push(Inst::Add(1));
    } else if c == '-' {
        if len > 0 {
            if let Inst::Sub(k) = out[len - 1] {
                if k < 255 {
                    out[len - 1] = Inst::Sub(k + 1);
                    return ;
                }
            }
        }
        out.push(Inst::Sub(1));
    } else if c == '>' {
        if len > 0 {
            if let Inst::Shr(k) = out[len - 1] {
                if k < usize::MAX {
                    out[len - 1] = Inst::Shr(k + 1);
                    return ;
                }
            }
        }
        out.push(Inst::Shr(1));
    } else if c == '<' {
        if len > 0 {
            if let Inst::Shl(k) = out[len - 1] {
                if k < usize::MAX {
                    out[len - 1] = Inst::Shl(k + 1);
                    return ;
                }
            }
        }
        out.push(Inst::Shl(1));
    } else if c == '[' {
        out.push(Inst::Jpf(0));
    } else if c == ']' {
        out.push(Inst::Jpb(0));
    } else if c == '.' {
        out.push(Inst::Wrt);
    } else if c == ',' {
        out.push(Inst::Red);
    }
}

/// The folding pass over the whole source.
fn fold_pass(chars: &Vec<char>) -> (out: Vec<Inst>)
    ensures
        out@ == fold_chars(chars@),
{
    let mut out: Vec<Inst> = Vec::new();
    let n = chars.len();
    let mut i: usize = 0;
    while i < n
        invariant
            n == chars@.len(),
            i <= n,
            out@ == fold_chars(chars@.take(i as int)),
        decreases n - i,
    {
        let c = chars[i];
        proof {
            assert(chars@.take(i + 1).drop_last() =~= chars@.take(i as int));
            assert(chars@.take(i + 1).last() == chars@[i as int]);
        }
        fold_push(&mut out, c);
        i = i + 1;
    }
    proof {
        assert(chars@.take(n as int) =~= chars@);
    }
    out
}

/// The peephole pass over the folded sequence.
fn peep_pass(v: &Vec<Inst>) -> (out: Vec<Inst>)
    ensures
        out@ == peep(v@),
{
    let mut out: Vec<Inst> = Vec::new();
    let n = v.len();
    let mut i: usize = 0;
    proof {
        assert(v@.skip(0) =~= v@);
        assert(out@ + peep(v@) =~= peep(v@));
    }
    while i < n
        invariant
            n == v@.len(),
            i <= n,
            peep(v@) == out@ + peep(v@.skip(i as int)),
        decreases n - i,
    {
        let ghost rest = v@.skip(i as int);
        if n - i >= 3 && v[i] == Inst::Jpf(0) && v[i + 1] == Inst::Sub(1) && v[i + 2]
            == Inst::Jpb(0) {
            out.push(Inst::Stz);
            proof {
                assert(rest.len() >= 3);
                assert(rest[0] == v@[i as int]);
                assert(rest[1] == v@[i + 1]);
                assert(rest[2] == v@[i + 2]);
                assert(rest.skip(3) =~= v@.skip(i + 3));
                assert(peep(rest) == seq![Inst::Stz] + peep(v@.skip(i + 3)));
                assert(out@ + peep(v@.skip(i + 3)) =~= (out@.drop_last() + peep(rest)));
                assert(out@.drop_last() + peep(rest) =~= peep(v@));
                assert(out@ + peep(v@.skip(i + 3)) =~= peep(v@));
            }
            i = i + 3;
        } else {
            out.push(v[i]);
            proof {
                assert(rest.len() >= 1);
                assert(rest[0] == v@[i as int]);
                assert(!(rest.len() >= 3 && clear_triple(rest[0], rest[1], rest[2])));
                assert(rest.skip(1) =~= v@.skip(i + 1));
                assert(peep(rest) == seq![v@[i as int]] + peep(v@.skip(i + 1)));
                assert(out@ + peep(v@.skip(i + 1)) =~= (out@.drop_last() + peep(rest)));
                assert(out@ + peep(v@.skip(i + 1)) =~= peep(v@));
            }
            i = i + 1;
        }
    }
    proof {
        assert(v@.skip(n as int) =~= Seq::<Inst>::empty());
        assert(out@ + peep(v@.skip(n as int)) =~= out@);
    }
    out
}

/// Some open bracket is already paired with the close at `k`.
spec fn close_paired(pm: Map<int, int>, k: int) -> bool {
    exists|i: int| #[trigger] pm.dom().contains(i) && pm[i] == k
}

/// End of the stretch that follows the `m`-th stacked open: the next
/// stacked open, or the scan position `j` for the topmost one.
spec fn seg_end(st: Seq<usize>, m: int, j: int) -> int {
    if m + 1 < st.len() {
        st[m + 1] as int
    } else {
        j
    }
}

/// The pairing pass: resolves every bracket of `v` to the index of its
/// partner, or rejects the sequence when its brackets do not balance.
#[verifier::rlimit(100)]
fn pair_pass(v: Vec<Inst>) -> (r: Result<Vec<Inst>, BfError>)
    ensures
        r is Ok <==> insts_balanced(v@),
        r matches Ok(out) ==> resolved(v@, out@),
        r matches Err(e) ==> e == BfError::UnbalancedBrackets,
{
    let ghost s0 = v@;
    let ghost mk = imarks(v@);
    let mut w = v;
    let n = w.len();
    let mut stack: Vec<usize> = Vec::new();
    let ghost mut pm: Map<int, int> = Map::empty();
    let mut j: usize = 0;

    proof {
        assert(mk.take(0) =~= Seq::<int>::empty());
    }

    while j < n
        invariant
            s0 == v@,
            n == s0.len(),
            w@.len() == n,
            j <= n,
            mk == imarks(s0),
            forall|k: int|
                0 <= k < n && !pm.dom().contains(k) && !close_paired(pm, k) ==> (
                #[trigger] w@[k]) == s0[k],
            forall|m: int|
                0 <= m < stack@.len() ==> (#[trigger] stack@[m]) < j && s0[stack@[m] as int]
                    is Jpf && !pm.dom().contains(stack@[m] as int),
            forall|m1: int, m2: int|
                0 <= m1 < m2 < stack@.len() ==> stack@[m1] < stack@[m2],
            forall|i: int|
                #[trigger] pm.dom().contains(i) ==> pair_at(s0, w@, i, pm[i]) && pm[i] < j,
            forall|k: int|
                0 <= k < j && (#[trigger] s0[k]) is Jpf ==> pm.dom().contains(k)
                    || stack@.contains(k as usize),
            forall|k: int|
                0 <= k < j && (#[trigger] s0[k]) is Jpb ==> close_paired(pm, k),
            tsum(mk.take(j as int)) == stack@.len() as int,
            minp(mk.take(j as int)) == 0,
            forall|m: int|
                0 <= m < stack@.len() ==> bal(
                    mk.subrange((#[trigger] stack@[m]) as int + 1, seg_end(stack@, m, j as int)),
                ),
        decreases n - j,
    {
        let inst = w[j];
        proof {
            // The scan position itself is still untouched.
            if pm.dom().contains(j as int) {
                assert(pair_at(s0, w@, j as int, pm[j as int]));
            }
            if close_paired(pm, j as int) {
                let i0 = choose|i: int| #[trigger] pm.dom().contains(i) && pm[i] == j as int;
                assert(pair_at(s0, w@, i0, j as int));
            }
            assert(w@[j as int] == s0[j as int]);
            assert(mk.take(j + 1) =~= mk.take(j as int).push(mk[j as int]));
            lemma_tsum_push(mk.take(j as int), mk[j as int]);
            lemma_minp_push(mk.take(j as int), mk[j as int]);
        }
        match inst {
            Inst::Jpf(_) => {
                let ghost pre_stack = stack@;
                stack.push(j);
                proof {
                    assert(mk[j as int] == 1);
                    assert(mk.subrange(j + 1, j + 1) =~= Seq::<int>::empty());
                    assert(stack@ == pre_stack.push(j));
                    assert(stack@[pre_stack.len() as int] == j);
                    assert(stack@.contains(j as usize));
                    assert forall|k: int|
                        0 <= k < j + 1 && (#[trigger] s0[k]) is Jpf implies pm.dom().contains(k)
                        || stack@.contains(k as usize) by {
                        if k == j as int {
                            assert(stack@.contains(j as usize));
                        } else if !pm.dom().contains(k) {
                            assert(pre_stack.contains(k as usize));
                            let m = choose|m: int|
                                0 <= m < pre_stack.len() && pre_stack[m] == k as usize;
                            assert(stack@[m] == k as usize);
                            assert(stack@.contains(k as usize));
                        }
                    }
                    assert forall|m: int|
                        0 <= m < stack@.len() implies bal(
                        mk.subrange(
                            (#[trigger] stack@[m]) as int + 1,
                            seg_end(stack@, m, j as int + 1),
                        ),
                    ) by {
                        if m < stack@.len() - 1 {
                            assert(stack@[m] == pre_stack[m]);
                            assert(seg_end(stack@, m, j as int + 1) == seg_end(
                                pre_stack,
                                m,
                                j as int,
                            ));
                            assert(bal(
                                mk.subrange(pre_stack[m] as int + 1, seg_end(pre_stack, m, j as int)),
                            ));
                        } else {
                            assert(stack@[m] == j);
                        }
                    }
                }
            },
            Inst::Jpb(_) => {
                if stack.len() == 0 {
                    proof {
                        assert(mk[j as int] == -1);
                        assert(tsum(mk.take(j + 1)) == -1);
                        assert(minp(mk.take(j + 1)) == -1);
                        assert(mk =~= mk.take(j + 1) + mk.skip(j + 1));
                        lemma_minp_concat(mk.take(j + 1), mk.skip(j + 1));
                        lemma_minp_bounds(mk.skip(j + 1));
                        assert(minp(mk) <= -1);
                        assert(!insts_balanced(s0));
                    }
                    return Err(BfError::UnbalancedBrackets);
                }
                let ghost old_stack = stack@;
                let ghost old_w = w@;
                let ghost old_pm = pm;
                let i = stack.pop().unwrap();
                proof {
                    assert(old_stack.last() == i);
                    assert(stack@ == old_stack.drop_last());
                }
                w[i] = Inst::Jpf(j);
                w[j] = Inst::Jpb(i);
                proof {
                    let top = old_stack.len() - 1;
                    assert(old_stack[top] == i);
                    assert(s0[j as int] is Jpb);
                    assert(s0[i as int] is Jpf);
                    assert(mk[j as int] == -1);
                    assert(mk[i as int] == 1);
                    // the stretch between the popped open and here balances
                    assert(seg_end(old_stack, top, j as int) == j as int);
                    assert(bal(mk.subrange(i as int + 1, j as int)));
                    // the new pair
                    assert(w@ =~= old_w.update(i as int, Inst::Jpf(j)).update(
                        j as int,
                        Inst::Jpb(i),
                    ));
                    assert(!old_pm.dom().contains(i as int));
                    assert(pair_at(s0, w@, i as int, j as int));
                    pm = pm.insert(i as int, j as int);
                    assert(pm.dom().contains(i as int) && pm[i as int] == j as int);
                    assert(close_paired(pm, j as int));
                    // older pairs are untouched: their ends differ from i and j
                    assert forall|i2: int| #[trigger] pm.dom().contains(i2) implies pair_at(
                        s0,
                        w@,
                        i2,
                        pm[i2],
                    ) && pm[i2] < j + 1 by {
                        if i2 != i as int {
                            assert(old_pm.dom().contains(i2));
                            assert(pair_at(s0, old_w, i2, old_pm[i2]));
                            assert(pm[i2] == old_pm[i2]);
                            assert(s0[i2] is Jpf && s0[pm[i2]] is Jpb);
                            assert(i2 != j as int);
                            assert(pm[i2] != i as int);
                            assert(pm[i2] != j as int);
                        }
                    }
                    // untouched positions keep their original instruction
                    assert forall|k: int|
                        0 <= k < n && !pm.dom().contains(k) && !close_paired(pm, k) implies (
                    #[trigger] w@[k]) == s0[k] by {
                        assert(k != i as int);
                        assert(k != j as int);
                        if close_paired(old_pm, k) {
                            let iw = choose|ii: int|
                                #[trigger] old_pm.dom().contains(ii) && old_pm[ii] == k;
                            assert(pm.dom().contains(iw) && pm[iw] == k);
                            assert(close_paired(pm, k));
                        }
                        assert(!close_paired(old_pm, k));
                        assert(old_w[k] == s0[k]);
                    }
                    // prefix coverage
                    assert forall|k: int|
                        0 <= k < j + 1 && (#[trigger] s0[k]) is Jpf implies pm.dom().contains(k)
                        || stack@.contains(k as usize) by {
                        if k < j && !pm.dom().contains(k) {
                            assert(!old_pm.dom().contains(k));
                            assert(old_stack.contains(k as usize));
                            let m = choose|m: int|
                                0 <= m < old_stack.len() && old_stack[m] == k as usize;
                            assert(m < old_stack.len() - 1);
                            assert(stack@[m] == old_stack[m]);
                            assert(stack@.contains(k as usize));
                        }
                    }
                    // depth bookkeeping
                    assert(tsum(mk.take(j + 1)) == stack@.len() as int);
                    assert(minp(mk.take(j + 1)) == 0);
                    // remaining stretches, with the freed pair absorbed into
                    // the one below it
                    assert forall|m: int|
                        0 <= m < stack@.len() implies bal(
                        mk.subrange(
                            (#[trigger] stack@[m]) as int + 1,
                            seg_end(stack@, m, j as int + 1),
                        ),
                    ) by {
                        assert(stack@[m] == old_stack[m]);
                        if m < stack@.len() - 1 {
                            assert(seg_end(stack@, m, j as int + 1) == seg_end(
                                old_stack,
                                m,
                                j as int,
                            ));
                            assert(bal(
                                mk.subrange(old_stack[m] as int + 1, seg_end(old_stack, m, j as int)),
                            ));
                        } else {
                            let t = stack@[m] as int;
                            let a = mk.subrange(t + 1, i as int);
                            let b = mk.subrange(i as int + 1, j as int);
                            assert(seg_end(old_stack, m, j as int) == i as int);
                            assert(bal(a));
                            assert(bal(b));
                            lemma_bal_wrap(a, b);
                            assert(mk.subrange(t + 1, j as int + 1) =~= a + seq![1int] + b
                                + seq![-1int]);
                        }
                    }
                }
            },
            _ => {
                proof {
                    assert(mk[j as int] == 0);
                    lemma_minp_bounds(mk.take(j as int));
                    assert forall|m: int|
                        0 <= m < stack@.len() implies bal(
                        mk.subrange(
                            (#[trigger] stack@[m]) as int + 1,
                            seg_end(stack@, m, j as int + 1),
                        ),
                    ) by {
                        if m == stack@.len() - 1 {
                            let t = stack@[m] as int;
                            let seg = mk.subrange(t + 1, j as int);
                            assert(mk.subrange(t + 1, j as int + 1) =~= seg.push(mk[j as int]));
                            lemma_push_zero(seg);
                        }
                    }
                }
            },
        }
        j = j + 1;
    }
    proof {
        assert(mk.take(n as int) =~= mk);
    }
    if stack.len() > 0 {
        proof {
            assert(tsum(mk) == stack@.len() as int);
            assert(!insts_balanced(s0));
        }
        return Err(BfError::UnbalancedBrackets);
    }
    proof {
        assert(insts_balanced(s0));
        assert forall|k: int|
            0 <= k < s0.len() && !(s0[k] is Jpf) && !(s0[k] is Jpb) implies w@[k] == s0[k] by {
            if pm.dom().contains(k) {
                assert(pair_at(s0, w@, k, pm[k]));
            }
            if close_paired(pm, k) {
                let i0 = choose|i: int| #[trigger] pm.dom().contains(i) && pm[i] == k;
                assert(pair_at(s0, w@, i0, k));
            }
        }
        assert forall|i: int| 0 <= i < s0.len() && (#[trigger] s0[i]) is Jpf implies exists|jj: int|
            #[trigger] pair_at(s0, w@, i, jj) by {
            assert(pm.dom().contains(i));
            assert(pair_at(s0, w@, i, pm[i]));
        }
        assert forall|jj: int|
            0 <= jj < s0.len() && (#[trigger] s0[jj]) is Jpb implies exists|i: int|
            #[trigger] pair_at(s0, w@, i, jj) by {
            assert(close_paired(pm, jj));
            let i0 = choose|i: int| #[trigger] pm.dom().contains(i) && pm[i] == jj;
            assert(pair_at(s0, w@, i0, jj));
        }
        assert(resolved(s0, w@));
    }
    Ok(w)
}

/// Folding one character appends exactly its bracket mark, or leaves
/// the marks alone while merging a run or dropping a comment.
proof fn lemma_fold_step_marks(out: Seq<Inst>, c: char)
    ensures
        imarks(fold_step(out, c)) =~= imarks(out).push(cmark(c)) || (cmark(c) == 0 && imarks(
            fold_step(out, c),
        ) =~= imarks(out)),
{
    let f = fold_step(out, c);
    if c == '+' || c == '-' || c == '>' || c == '<' {
        if f.len() == out.len() {
            assert(imarks(f) =~= imarks(out));
        } else {
            assert(imarks(f) =~= imarks(out).push(0int));
        }
    } else if c == '[' {
        assert(imarks(f) =~= imarks(out).push(1int));
    } else if c == ']' {
        assert(imarks(f) =~= imarks(out).push(-1int));
    } else if c == '.' || c == ',' {
        assert(imarks(f) =~= imarks(out).push(0int));
    } else {
        assert(imarks(f) =~= imarks(out));
    }
}

/// Folding keeps the bracket-balance quantities of the source text.
pub proof fn lemma_fold_marks(s: Seq<char>)
    ensures
        tsum(imarks(fold_chars(s))) == tsum(cmarks(s)),
        minp(imarks(fold_chars(s))) == minp(cmarks(s)),
    decreases s.len(),
{
    if s.len() == 0 {
        assert(cmarks(s) =~= Seq::<int>::empty());
        assert(imarks(fold_chars(s)) =~= Seq::<int>::empty());
    } else {
        let s0 = s.drop_last();
        let c = s.last();
        lemma_fold_marks(s0);
        assert(cmarks(s) =~= cmarks(s0).push(cmark(c)));
        lemma_tsum_push(cmarks(s0), cmark(c));
        lemma_minp_push(cmarks(s0), cmark(c));
        lemma_minp_bounds(cmarks(s0));
        lemma_fold_step_marks(fold_chars(s0), c);
        let fm = imarks(fold_chars(s0));
        if imarks(fold_chars(s)) =~= fm.push(cmark(c)) {
            lemma_tsum_push(fm, cmark(c));
            lemma_minp_push(fm, cmark(c));
        }
    }
}

/// The peephole rewrite keeps the bracket-balance quantities: it only
/// ever removes one matched pair of adjacent-depth brackets.
pub proof fn lemma_peep_marks(s: Seq<Inst>)
    ensures
        tsum(imarks(peep(s))) == tsum(imarks(s)),
        minp(imarks(peep(s))) == minp(imarks(s)),
    decreases s.len(),
{
    if s.len() >= 3 && clear_triple(s[0], s[1], s[2]) {
        let rest = s.skip(3);
        lemma_peep_marks(rest);
        let e = Seq::<int>::empty();
        let m3 = e.push(1int).push(0int).push(-1int);
        lemma_tsum_push(e, 1int);
        lemma_minp_push(e, 1int);
        lemma_tsum_push(e.push(1int), 0int);
        lemma_minp_push(e.push(1int), 0int);
        lemma_tsum_push(e.push(1int).push(0int), -1int);
        lemma_minp_push(e.push(1int).push(0int), -1int);
        assert(tsum(m3) == 0 && minp(m3) == 0);
        assert(imarks(s) =~= m3 + imarks(rest));
        lemma_tsum_concat(m3, imarks(rest));
        lemma_minp_concat(m3, imarks(rest));
        lemma_minp_bounds(imarks(rest));
        assert(imarks(peep(s)) =~= seq![0int] + imarks(peep(rest)));
        lemma_single(0int);
        lemma_tsum_concat(seq![0int], imarks(peep(rest)));
        lemma_minp_concat(seq![0int], imarks(peep(rest)));
        lemma_minp_bounds(imarks(peep(rest)));
    } else if s.len() == 0 {
    } else {
        let rest = s.skip(1);
        lemma_peep_marks(rest);
        let m0 = imark(s[0]);
        assert(imarks(s) =~= seq![m0] + imarks(rest));
        assert(imarks(peep(s)) =~= seq![m0] + imarks(peep(rest)));
        lemma_single(m0);
        lemma_tsum_concat(seq![m0], imarks(rest));
        lemma_minp_concat(seq![m0], imarks(rest));
        lemma_tsum_concat(seq![m0], imarks(peep(rest)));
        lemma_minp_concat(seq![m0], imarks(peep(rest)));
    }
}

/// In a resolved sequence every jump target lies inside the sequence.
pub proof fn lemma_resolved_targets(s: Seq<Inst>, v: Seq<Inst>)
    requires
        resolved(s, v),
    ensures
        forall|i: int|
            0 <= i < v.len() ==> ((#[trigger] v[i]) matches Inst::Jpf(t) ==> t < v.len()) && (v[i]
                matches Inst::Jpb(t) ==> t < v.len()),
{
    assert forall|i: int|
        0 <= i < v.len() implies ((#[trigger] v[i]) matches Inst::Jpf(t) ==> t < v.len()) && (v[i]
        matches Inst::Jpb(t) ==> t < v.len()) by {
        if s[i] is Jpf {
            let j = choose|j: int| #[trigger] pair_at(s, v, i, j);
            assert(pair_at(s, v, i, j));
            assert(v[i] == Inst::Jpf(j as usize));
        } else if s[i] is Jpb {
            let i0 = choose|i0: int| #[trigger] pair_at(s, v, i0, i);
            assert(pair_at(s, v, i0, i));
            assert(v[i] == Inst::Jpb(i0 as usize));
        } else {
            assert(v[i] == s[i]);
        }
    }
}

/// Compilation rejects a source text exactly when its brackets do not
/// balance.
pub proof fn lemma_compile_balance(s: Seq<char>)
    ensures
        insts_balanced(pre_prog(s)) <==> src_balanced(s),
{
    lemma_fold_marks(s);
    lemma_peep_marks(fold_chars(s));
}

/// Turns source text into instructions.  Everything but the eight
/// recognized symbols is a comment.
pub struct CodeGen {
    chars: Vec<char>,
}

impl View for CodeGen {
    type V = Seq<char>;

    closed spec fn view(&self) -> Seq<char> {
        self.chars@
    }
}

impl CodeGen {
    /// Holds the source characters still to be compiled.
    pub fn new(program: &str) -> (cg: CodeGen)
        ensures
            cg@ == program@,
    {
        CodeGen { chars: chars_vec(program) }
    }

    /// Compiles the held source text, consuming it.
    ///
    /// Succeeds exactly when the source's brackets balance; an
    /// unbalanced source of any nesting depth is rejected.  On success
    /// the result is the folded, peephole-rewritten sequence with every
    /// bracket resolved to the index of its partner.
    pub fn generate_insts(&mut self) -> (r: Result<Vec<Inst>, BfError>)
        ensures
            r is Ok <==> src_balanced(old(self)@),
            r matches Ok(insts) ==> resolved(pre_prog(old(self)@), insts@),
            r matches Err(e) ==> e == BfError::UnbalancedBrackets,
            final(self)@ == Seq::<char>::empty(),
    {
        let folded = fold_pass(&self.chars);
        let peeped = peep_pass(&folded);
        proof {
            lemma_compile_balance(self.chars@);
        }
        self.chars = Vec::new();
        pair_pass(peeped)
    }
}

} // verus!
