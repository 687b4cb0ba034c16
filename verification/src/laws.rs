//! Properties that hold of every compiled program and every run,
//! stated and proved once.

use vstd::prelude::*;

use crate::codegen::fold_chars;
use crate::codegen::peep;
use crate::codegen::pre_prog;
use crate::inst::Inst;
use crate::machine::can_step;
use crate::machine::has_red;
use crate::machine::step_spec;
use crate::machine::steps_ok;
use crate::machine::wrap_sub;
use crate::machine::BfState;

verus! {

/// Successful runs compose.
pub proof fn lemma_steps_ok_trans(a: BfState, n1: nat, b: BfState, n2: nat, c: BfState)
    requires
        steps_ok(a, n1, b),
        steps_ok(b, n2, c),
    ensures
        steps_ok(a, n1 + n2, c),
    decreases n1,
{
    if n1 == 0 {
    } else {
        match step_spec(a) {
            Ok(s2) => {
                lemma_steps_ok_trans(s2, (n1 - 1) as nat, b, n2, c);
                assert(steps_ok(s2, ((n1 + n2) - 1) as nat, c));
            },
            Err(_) => {
                assert(false);
            },
        }
    }
}

/// A program without a read instruction never suspends: from a running
/// state, every reachable state is still running, on the same program.
pub proof fn lemma_no_read_stays_running(a: BfState, n: nat, b: BfState)
    requires
        steps_ok(a, n, b),
        !has_red(a.insts),
        !a.in_mode,
    ensures
        !b.in_mode,
        b.insts == a.insts,
    decreases n,
{
    if n == 0 {
    } else {
        match step_spec(a) {
            Ok(s2) => {
                assert(!(a.insts[a.pc] is Red)) by {
                    if a.insts[a.pc] is Red {
                        assert(has_red(a.insts));
                    }
                }
                assert(s2.insts == a.insts && !s2.in_mode);
                lemma_no_read_stays_running(s2, (n - 1) as nat, b);
            },
            Err(_) => {
                assert(false);
            },
        }
    }
}

/// Stepping is deterministic: two runs from one state that both end in
/// a state with nothing left to execute agree in every detail, their
/// step counts included.
pub proof fn lemma_run_deterministic(a: BfState, n1: nat, b1: BfState, n2: nat, b2: BfState)
    requires
        steps_ok(a, n1, b1),
        steps_ok(a, n2, b2),
        !can_step(b1),
        !can_step(b2),
    ensures
        n1 == n2,
        b1 == b2,
    decreases n1,
{
    if n1 == 0 {
        if n2 != 0 {
            assert(can_step(a));
            assert(false);
        }
    } else {
        if n2 == 0 {
            assert(can_step(a));
            assert(false);
        } else {
            match step_spec(a) {
                Ok(s2) => {
                    lemma_run_deterministic(s2, (n1 - 1) as nat, b1, (n2 - 1) as nat, b2);
                },
                Err(_) => {
                    assert(false);
                },
            }
        }
    }
}

/// For a program without a read instruction, running to completion by
/// any driver — the fast path that skips the mode check, or one
/// `step` at a time — reaches the same final state, so the drained
/// output is identical.
pub proof fn lemma_fast_path_agrees(a: BfState, n1: nat, b1: BfState, n2: nat, b2: BfState)
    requires
        steps_ok(a, n1, b1),
        steps_ok(a, n2, b2),
        !has_red(a.insts),
        !a.in_mode,
        b1.pc == b1.insts.len(),
        b2.pc == b2.insts.len(),
    ensures
        n1 == n2,
        b1 == b2,
        b1.out == b2.out,
{
    lemma_no_read_stays_running(a, n1, b1);
    lemma_no_read_stays_running(a, n2, b2);
    lemma_run_deterministic(a, n1, b1, n2, b2);
}

/// The zeroing idiom compiles to the single rewritten instruction.
pub proof fn lemma_clear_idiom_compiles()
    ensures
        pre_prog(seq!['[', '-', ']']) == seq![Inst::Stz],
{
    let s0 = Seq::<char>::empty();
    let s1 = seq!['['];
    let s2 = seq!['[', '-'];
    let s3 = seq!['[', '-', ']'];
    assert(s1.drop_last() =~= s0 && s1.last() == '[');
    assert(s2.drop_last() =~= s1 && s2.last() == '-');
    assert(s3.drop_last() =~= s2 && s3.last() == ']');
    assert(fold_chars(s0) =~= Seq::<Inst>::empty());
    assert(fold_chars(s1) =~= seq![Inst::Jpf(0usize)]);
    assert(fold_chars(s2) =~= seq![Inst::Jpf(0usize), Inst::Sub(1u8)]);
    let f = fold_chars(s3);
    assert(f =~= seq![Inst::Jpf(0usize), Inst::Sub(1u8), Inst::Jpb(0usize)]);
    assert(f.skip(3) =~= Seq::<Inst>::empty());
    assert(peep(Seq::<Inst>::empty()) =~= Seq::<Inst>::empty());
    assert(seq![Inst::Stz] + Seq::<Inst>::empty() =~= seq![Inst::Stz]);
    assert(peep(f) =~= seq![Inst::Stz]);
}

/// The rewritten zeroing instruction zeroes the current cell — whatever
/// byte it held — in exactly one step, after which the program is
/// complete.
pub proof fn lemma_clear_optimized(s: BfState)
    requires
        s.insts == seq![Inst::Stz],
        s.pc == 0,
        !s.in_mode,
    ensures
        steps_ok(s, 1, (BfState { mem: s.mem.update(s.ptr, 0u8), pc: 1, ..s })),
        !can_step((BfState { mem: s.mem.update(s.ptr, 0u8), pc: 1, ..s })),
{
    let t = BfState { mem: s.mem.update(s.ptr, 0u8), pc: 1, ..s };
    assert(s.insts[0] == Inst::Stz);
    assert(can_step(s));
    match step_spec(s) {
        Ok(x) => {
            assert(x =~= t);
            assert(steps_ok(t, 0, t));
        },
        Err(_) => {
            assert(false);
        },
    }
}

/// Inside the literal zeroing loop: from the decrement, a cell holding
/// `v >= 1` is zeroed and the loop exited in exactly `2 v` steps.
proof fn lemma_clear_literal_inner(s: BfState)
    requires
        s.insts == seq![Inst::Jpf(2usize), Inst::Sub(1u8), Inst::Jpb(0usize)],
        s.pc == 1,
        !s.in_mode,
        0 <= s.ptr < s.mem.len(),
        s.mem[s.ptr] as int >= 1,
    ensures
        steps_ok(
            s,
            (2 * (s.mem[s.ptr] as int)) as nat,
            (BfState { mem: s.mem.update(s.ptr, 0u8), pc: 3, ..s }),
        ),
    decreases s.mem[s.ptr] as int,
{
    let v = s.mem[s.ptr] as int;
    let t = BfState { mem: s.mem.update(s.ptr, 0u8), pc: 3, ..s };
    assert(s.insts[1] == Inst::Sub(1u8));
    assert(wrap_sub(s.mem[s.ptr], 1) as int == v - 1);
    let m1 = s.mem.update(s.ptr, wrap_sub(s.mem[s.ptr], 1));
    let s1 = BfState { mem: m1, pc: 2, ..s };
    assert(can_step(s));
    match step_spec(s) {
        Ok(x) => {
            assert(x =~= s1);
        },
        Err(_) => {
            assert(false);
        },
    }
    assert(s1.insts[2] == Inst::Jpb(0usize));
    assert(m1[s.ptr] as int == v - 1);
    if v == 1 {
        let s2 = BfState { pc: 3, ..s1 };
        assert(can_step(s1));
        match step_spec(s1) {
            Ok(x) => {
                assert(x =~= s2);
            },
            Err(_) => {
                assert(false);
            },
        }
        assert(s2 =~= t) by {
            assert(m1 =~= s.mem.update(s.ptr, 0u8));
        }
        assert(steps_ok(s2, 0, t));
        assert(steps_ok(s1, 1, t));
        assert(steps_ok(s, 2, t));
    } else {
        let s2 = BfState { pc: 1, ..s1 };
        assert(can_step(s1));
        match step_spec(s1) {
            Ok(x) => {
                assert(x =~= s2);
            },
            Err(_) => {
                assert(false);
            },
        }
        lemma_clear_literal_inner(s2);
        let t2 = BfState { mem: s2.mem.update(s2.ptr, 0u8), pc: 3, ..s2 };
        assert(t2 =~= t) by {
            assert(m1.update(s.ptr, 0u8) =~= s.mem.update(s.ptr, 0u8));
        }
        assert(steps_ok(s2, 0, s2));
        assert(steps_ok(s1, 1, s2));
        lemma_steps_ok_trans(s1, 1, s2, (2 * (v - 1)) as nat, t);
        assert(steps_ok(s1, 0, s1));
        assert(steps_ok(s, 1, s1));
        lemma_steps_ok_trans(s, 1, s1, (1 + 2 * (v - 1)) as nat, t);
    }
}

/// Executing the zeroing loop literally — open bracket, decrement by
/// one, close bracket — zeroes the current cell, whatever byte value
/// `v` it held, in one step for `v == 0` and `1 + 2 v` steps
/// otherwise: strictly more steps than the rewritten form whenever the
/// cell was non-zero, with the same resulting tape.
pub proof fn lemma_clear_literal(s: BfState)
    requires
        s.insts == seq![Inst::Jpf(2usize), Inst::Sub(1u8), Inst::Jpb(0usize)],
        s.pc == 0,
        !s.in_mode,
        0 <= s.ptr < s.mem.len(),
    ensures
        ({
            let v = s.mem[s.ptr] as int;
            let n: nat = if v == 0 {
                1nat
            } else {
                (1 + 2 * v) as nat
            };
            &&& steps_ok(s, n, (BfState { mem: s.mem.update(s.ptr, 0u8), pc: 3, ..s }))
            &&& (v > 0 ==> 1 < n)
            &&& !can_step((BfState { mem: s.mem.update(s.ptr, 0u8), pc: 3, ..s }))
        }),
{
    let v = s.mem[s.ptr] as int;
    let t = BfState { mem: s.mem.update(s.ptr, 0u8), pc: 3, ..s };
    assert(s.insts[0] == Inst::Jpf(2usize));
    assert(can_step(s));
    if v == 0 {
        let s1 = BfState { pc: 3, ..s };
        match step_spec(s) {
            Ok(x) => {
                assert(x =~= s1);
            },
            Err(_) => {
                assert(false);
            },
        }
        assert(s1 =~= t) by {
            assert(s.mem.update(s.ptr, 0u8) =~= s.mem);
        }
        assert(steps_ok(s1, 0, t));
        assert(steps_ok(s, 1, t));
    } else {
        let s1 = BfState { pc: 1, ..s };
        match step_spec(s) {
            Ok(x) => {
                assert(x =~= s1);
            },
            Err(_) => {
                assert(false);
            },
        }
        lemma_clear_literal_inner(s1);
        let t1 = BfState { mem: s1.mem.update(s1.ptr, 0u8), pc: 3, ..s1 };
        assert(t1 =~= t);
        assert(steps_ok(s1, 0, s1));
        assert(steps_ok(s, 1, s1));
        lemma_steps_ok_trans(s, 1, s1, (2 * v) as nat, t);
    }
}

} // verus!
