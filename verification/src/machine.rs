//! The execution engine: a fixed tape, a data pointer, a program
//! counter, an output buffer and an input staging queue, driven one
//! step at a time.
//!
//! The engine never blocks: a read instruction only switches it into
//! the awaiting-input mode, and supplying one accepted byte switches it
//! back.  Any caller — an interactive loop, a batch runner, an
//! event-driven shell — can drive it through [`Brainfuck::step`],
//! [`Brainfuck::set_input`] and [`Brainfuck::step_loop`].

use vstd::prelude::*;

use crate::codegen::lemma_resolved_targets;
use crate::codegen::pre_prog;
use crate::codegen::resolved;
use crate::codegen::src_balanced;
use crate::codegen::CodeGen;
use crate::inst::BfError;
use crate::inst::Inst;

verus! {

/// Number of byte cells on the tape.
pub const MAX_MEMORY: usize = 30000;

/// The whole observable state of an engine.
#[verifier::ext_equal]
pub ghost struct BfState {
    /// The compiled program, immutable once built.
    pub insts: Seq<Inst>,
    /// Bytes written and not yet drained.
    pub out: Seq<u8>,
    /// The tape.
    pub mem: Seq<u8>,
    /// The data pointer, always within the tape.
    pub ptr: int,
    /// The program counter; equal to the program length at completion.
    pub pc: int,
    /// Staged input characters not yet consumed.
    pub queue: Seq<char>,
    /// Whether the engine is suspended awaiting input.
    pub in_mode: bool,
}

/// Every jump target lies inside the program.
pub open spec fn targets_ok(s: Seq<Inst>) -> bool {
    forall|i: int|
        0 <= i < s.len() ==> ((#[trigger] s[i]) matches Inst::Jpf(t) ==> t < s.len()) && (s[i]
            matches Inst::Jpb(t) ==> t < s.len())
}

/// A state the engine can actually be in.
pub open spec fn state_wf(s: BfState) -> bool {
    &&& s.mem.len() == MAX_MEMORY
    &&& 0 <= s.ptr < MAX_MEMORY
    &&& 0 <= s.pc <= s.insts.len()
    &&& targets_ok(s.insts)
}

/// The engine can execute an instruction: not at the end of the
/// program, and not suspended.
pub open spec fn can_step(s: BfState) -> bool {
    0 <= s.pc < s.insts.len() && !s.in_mode
}

/// Byte addition modulo 256.
pub open spec fn wrap_add(v: u8, n: u8) -> u8 {
    (((v as int) + (n as int)) % 256) as u8
}

/// Byte subtraction modulo 256.
pub open spec fn wrap_sub(v: u8, n: u8) -> u8 {
    (((v as int) + 256 - (n as int)) % 256) as u8
}

/// The byte value of a supplied character: its code point, truncated.
pub open spec fn char_byte(c: char) -> u8 {
    (c as u32) as u8
}

/// The program holds a read instruction somewhere.
pub open spec fn has_red(s: Seq<Inst>) -> bool {
    exists|i: int| 0 <= i < s.len() && (#[trigger] s[i]) is Red
}

/// What executing the instruction at the program counter does.  Every
/// instruction either fully applies — with the uniform post-increment
/// of the counter, also after a taken jump — or fully fails, leaving
/// the state unchanged.
pub open spec fn step_spec(s: BfState) -> Result<BfState, BfError>
    recommends
        can_step(s),
{
    match s.insts[s.pc] {
        Inst::Add(n) => Ok(
            BfState { mem: s.mem.update(s.ptr, wrap_add(s.mem[s.ptr], n)), pc: s.pc + 1, ..s },
        ),
        Inst::Sub(n) => Ok(
            BfState { mem: s.mem.update(s.ptr, wrap_sub(s.mem[s.ptr], n)), pc: s.pc + 1, ..s },
        ),
        Inst::Shr(n) => if s.ptr + n < MAX_MEMORY {
            Ok(BfState { ptr: s.ptr + n, pc: s.pc + 1, ..s })
        } else {
            Err(BfError::BoundsOverflow)
        },
        Inst::Shl(n) => if n <= s.ptr {
            Ok(BfState { ptr: s.ptr - n, pc: s.pc + 1, ..s })
        } else {
            Err(BfError::BoundsUnderflow)
        },
        Inst::Wrt => Ok(BfState { out: s.out.push(s.mem[s.ptr]), pc: s.pc + 1, ..s }),
        Inst::Red => Ok(BfState { in_mode: true, pc: s.pc + 1, ..s }),
        Inst::Jpf(t) => Ok(
            BfState {
                pc: if s.mem[s.ptr] == 0 {
                    t + 1
                } else {
                    s.pc + 1
                },
                ..s
            },
        ),
        Inst::Jpb(t) => Ok(
            BfState {
                pc: if s.mem[s.ptr] != 0 {
                    t + 1
                } else {
                    s.pc + 1
                },
                ..s
            },
        ),
        Inst::Stz => Ok(BfState { mem: s.mem.update(s.ptr, 0), pc: s.pc + 1, ..s }),
    }
}

/// `b` is reached from `a` by exactly `n` successful steps.
pub open spec fn steps_ok(a: BfState, n: nat, b: BfState) -> bool
    decreases n,
{
    if n == 0 {
        a == b
    } else {
        &&& can_step(a)
        &&& match step_spec(a) {
            Ok(s2) => steps_ok(s2, (n - 1) as nat, b),
            Err(_) => false,
        }
    }
}

/// The fresh state for a compiled program: zeroed tape, pointer and
/// counter at zero, buffers empty, running.
pub open spec fn init_state(insts: Seq<Inst>) -> BfState {
    BfState {
        insts,
        out: Seq::empty(),
        mem: Seq::new(MAX_MEMORY as nat, |i: int| 0u8),
        ptr: 0,
        pc: 0,
        queue: Seq::empty(),
        in_mode: false,
    }
}

/// What supplying one queued character does once the queue `q` is
/// non-empty: an accepted 7-bit character lands in the current cell and
/// resumes the engine; any other is discarded and reported.
pub open spec fn feed_spec(s: BfState) -> Result<BfState, (BfState, BfError)>
    recommends
        s.queue.len() > 0,
{
    if s.queue[0] as u32 <= 127 {
        Ok(
            BfState {
                mem: s.mem.update(s.ptr, char_byte(s.queue[0])),
                queue: s.queue.drop_first(),
                in_mode: false,
                ..s
            },
        )
    } else {
        Err((BfState { queue: s.queue.drop_first(), ..s }, BfError::NonAsciiInput))
    }
}

/// The staged-queue driver still has a move of its own: an instruction
/// to execute while running, a staged character to feed while
/// suspended.
pub open spec fn drive_active(s: BfState) -> bool {
    if s.in_mode {
        s.queue.len() > 0
    } else {
        s.pc < s.insts.len()
    }
}

/// One driver move: feed one staged character while suspended, execute
/// one instruction otherwise.  A failure carries the state it leaves
/// behind.
pub open spec fn drive_step(s: BfState) -> Result<BfState, (BfState, BfError)>
    recommends
        drive_active(s),
{
    if s.in_mode {
        feed_spec(s)
    } else {
        match step_spec(s) {
            Ok(t) => Ok(t),
            Err(e) => Err((s, e)),
        }
    }
}

/// `b` is reached from `a` by exactly `n` successful driver moves.
pub open spec fn drives_ok(a: BfState, n: nat, b: BfState) -> bool
    decreases n,
{
    if n == 0 {
        a == b
    } else {
        &&& drive_active(a)
        &&& match drive_step(a) {
            Ok(t) => drives_ok(t, (n - 1) as nat, b),
            Err(_) => false,
        }
    }
}

/// A successful step extends a run by one.
pub proof fn lemma_steps_ok_snoc(a: BfState, n: nat, b: BfState, c: BfState)
    requires
        steps_ok(a, n, b),
        can_step(b),
        step_spec(b) == Ok::<BfState, BfError>(c),
    ensures
        steps_ok(a, n + 1, c),
    decreases n,
{
    if n == 0 {
        assert(a == b);
        assert(steps_ok(c, ((n + 1) - 1) as nat, c));
    } else {
        match step_spec(a) {
            Ok(s2) => {
                lemma_steps_ok_snoc(s2, (n - 1) as nat, b, c);
                assert(steps_ok(s2, ((n + 1) - 1) as nat, c));
            },
            Err(_) => {
                assert(false);
            },
        }
    }
}

/// A successful driver move extends a drive by one.
pub proof fn lemma_drives_ok_snoc(a: BfState, n: nat, b: BfState, c: BfState)
    requires
        drives_ok(a, n, b),
        drive_active(b),
        drive_step(b) == Ok::<BfState, (BfState, BfError)>(c),
    ensures
        drives_ok(a, n + 1, c),
    decreases n,
{
    if n == 0 {
        assert(a == b);
        assert(drives_ok(c, ((n + 1) - 1) as nat, c));
    } else {
        match drive_step(a) {
            Ok(s2) => {
                lemma_drives_ok_snoc(s2, (n - 1) as nat, b, c);
                assert(drives_ok(s2, ((n + 1) - 1) as nat, c));
            },
            Err(_) => {
                assert(false);
            },
        }
    }
}

/// The data pointer: an index into the tape, kept within bounds.
struct Pointer {
    p: usize,
}

impl Pointer {
    fn shift_right_n(&mut self, n: usize) -> (r: Result<(), BfError>)
        requires
            old(self).p < MAX_MEMORY,
        ensures
            old(self).p + n < MAX_MEMORY ==> r is Ok && final(self).p == old(self).p + n,
            old(self).p + n >= MAX_MEMORY ==> r == Err::<(), BfError>(BfError::BoundsOverflow)
                && final(self).p == old(self).p,
    {
        if n < MAX_MEMORY && self.p + n < MAX_MEMORY {
            self.p = self.p + n;
            Ok(())
        } else {
            Err(BfError::BoundsOverflow)
        }
    }

    fn shift_left_n(&mut self, n: usize) -> (r: Result<(), BfError>)
        ensures
            n <= old(self).p ==> r is Ok && final(self).p == old(self).p - n,
            n > old(self).p ==> r == Err::<(), BfError>(BfError::BoundsUnderflow) && final(self).p
                == old(self).p,
    {
        if n <= self.p {
            self.p = self.p - n;
            Ok(())
        } else {
            Err(BfError::BoundsUnderflow)
        }
    }
}

/// The program counter, bounded by the program length.
struct Counter {
    index: usize,
    max_index: usize,
}

impl Counter {
    fn new(index: usize, max_index: usize) -> (c: Counter)
        ensures
            c.index == index,
            c.max_index == max_index,
    {
        Counter { index, max_index }
    }

    fn inc(&mut self) -> (r: Result<(), BfError>)
        ensures
            old(self).index < old(self).max_index ==> r is Ok && final(self).index == old(
                self,
            ).index + 1,
            old(self).index >= old(self).max_index ==> r == Err::<(), BfError>(
                BfError::ProgramCounter,
            ) && final(self).index == old(self).index,
            final(self).max_index == old(self).max_index,
    {
        if self.index < self.max_index {
            self.index = self.index + 1;
            Ok(())
        } else {
            Err(BfError::ProgramCounter)
        }
    }

    fn jump(&mut self, index: usize) -> (r: Result<(), BfError>)
        ensures
            index < old(self).max_index ==> r is Ok && final(self).index == index,
            index >= old(self).max_index ==> r == Err::<(), BfError>(BfError::ProgramCounter)
                && final(self).index == old(self).index,
            final(self).max_index == old(self).max_index,
    {
        if index < self.max_index {
            self.index = index;
            Ok(())
        } else {
            Err(BfError::ProgramCounter)
        }
    }

    fn index(&self) -> (r: usize)
        ensures
            r == self.index,
    {
        self.index
    }

    fn is_max(&self) -> (r: bool)
        ensures
            r == (self.index == self.max_index),
    {
        self.index == self.max_index
    }
}

/// A zeroed tape.
fn zero_memory() -> (v: Vec<u8>)
    ensures
        v@ == Seq::new(MAX_MEMORY as nat, |i: int| 0u8),
{
    let mut v: Vec<u8> = Vec::new();
    while v.len() < MAX_MEMORY
        invariant
            v@.len() <= MAX_MEMORY,
            forall|k: int| 0 <= k < v@.len() ==> v@[k] == 0u8,
        decreases MAX_MEMORY - v@.len(),
    {
        v.push(0u8);
    }
    proof {
        assert(v@ =~= Seq::new(MAX_MEMORY as nat, |i: int| 0u8));
    }
    v
}

/// Relies on `String`'s `FromIterator<char>` implementation: collecting
/// characters yields the string of exactly those characters, in order.
#[verifier::external_body]
fn chars_to_string(v: &Vec<char>) -> (s: String)
    ensures
        s@ == v@,
{
    v.iter().collect()
}

/// The execution engine.  Its observable state is a [`BfState`].
pub struct Brainfuck {
    insts: Vec<Inst>,
    result: Vec<u8>,
    memory: Vec<u8>,
    pointer: Pointer,
    counter: Counter,
    input_queue: Vec<char>,
    input_mode: bool,
}

impl View for Brainfuck {
    type V = BfState;

    closed spec fn view(&self) -> BfState {
        BfState {
            insts: self.insts@,
            out: self.result@,
            mem: self.memory@,
            ptr: self.pointer.p as int,
            pc: self.counter.index as int,
            queue: self.input_queue@,
            in_mode: self.input_mode,
        }
    }
}

impl Brainfuck {
    /// The internal invariant every engine built by this module keeps.
    pub closed spec fn wf(self) -> bool {
        &&& state_wf(self@)
        &&& self.counter.max_index == self.insts@.len()
    }

    /// The invariant seen from outside.
    pub proof fn lemma_wf_state(self)
        requires
            self.wf(),
        ensures
            state_wf(self@),
    {
    }

    /// Compiles a program and builds a fresh engine for it.
    ///
    /// Succeeds exactly when the source's brackets balance.  The new
    /// engine starts on a zeroed tape, pointer and counter at zero,
    /// buffers empty, in running mode.
    pub fn new(program: String) -> (r: Result<Brainfuck, BfError>)
        ensures
            r is Ok <==> src_balanced(program@),
            r matches Ok(bf) ==> bf.wf() && resolved(pre_prog(program@), bf@.insts) && bf@
                == init_state(bf@.insts),
            r matches Err(e) ==> e == BfError::UnbalancedBrackets,
    {
        let mut codegen = CodeGen::new(program.as_str());
        let insts = match codegen.generate_insts() {
            Ok(v) => v,
            Err(e) => {
                return Err(e);
            },
        };
        let insts_len = insts.len();
        let bf = Brainfuck {
            insts,
            result: Vec::new(),
            memory: zero_memory(),
            pointer: Pointer { p: 0 },
            counter: Counter::new(0, insts_len),
            input_queue: Vec::new(),
            input_mode: false,
        };
        proof {
            lemma_resolved_targets(pre_prog(program@), bf@.insts);
            assert(bf@ =~= init_state(bf@.insts));
        }
        Ok(bf)
    }

    /// Re-initializes the engine in place with a new program: fully
    /// equivalent to building a fresh engine, offered for reuse.  On a
    /// compile failure the engine is left exactly as it was.
    pub fn initialize(&mut self, program: String) -> (r: Result<(), BfError>)
        requires
            old(self).wf(),
        ensures
            final(self).wf(),
            r is Ok <==> src_balanced(program@),
            r matches Ok(_) ==> resolved(pre_prog(program@), final(self)@.insts) && final(self)@
                == init_state(final(self)@.insts),
            r matches Err(e) ==> e == BfError::UnbalancedBrackets && final(self)@ == old(self)@,
    {
        let mut codegen = CodeGen::new(program.as_str());
        let insts = match codegen.generate_insts() {
            Ok(v) => v,
            Err(e) => {
                return Err(e);
            },
        };
        let insts_len = insts.len();
        self.insts = insts;
        self.result = Vec::new();
        self.memory = zero_memory();
        self.pointer = Pointer { p: 0 };
        self.counter = Counter::new(0, insts_len);
        self.input_queue = Vec::new();
        self.input_mode = false;
        proof {
            lemma_resolved_targets(pre_prog(program@), self@.insts);
            assert(self@ =~= init_state(self@.insts));
        }
        Ok(())
    }

    /// Number of staged input characters not yet consumed.  Reported in
    /// the caller's signed width; exact whenever it fits.
    pub fn queue_remain(&self) -> (r: i32)
        ensures
            self@.queue.len() <= i32::MAX ==> r == self@.queue.len() as i32,
            r == 0 <==> self@.queue.len() == 0,
            r >= 0,
    {
        let l = self.input_queue.len();
        if l > i32::MAX as usize {
            i32::MAX
        } else {
            #[verifier::truncate] (l as i32)
        }
    }

    /// Whether the engine is suspended awaiting input.
    pub fn is_input_mode(&self) -> (r: bool)
        ensures
            r == self@.in_mode,
    {
        self.input_mode
    }

    /// Whether the program counter has reached the end of the program.
    pub fn reach_eop(&self) -> (r: bool)
        requires
            self.wf(),
        ensures
            r == (self@.pc == self@.insts.len()),
    {
        self.counter.is_max()
    }

    /// Whether the compiled program holds a read instruction at all —
    /// the static property that lets callers pick the fast run path.
    pub fn include_comma(&self) -> (r: bool)
        ensures
            r == has_red(self@.insts),
    {
        let n = self.insts.len();
        let mut i: usize = 0;
        while i < n
            invariant
                n == self@.insts.len(),
                i <= n,
                forall|k: int| 0 <= k < i ==> !((#[trigger] self@.insts[k]) is Red),
            decreases n - i,
        {
            if let Inst::Red = self.insts[i] {
                return true;
            }
            i = i + 1;
        }
        false
    }

    /// Drains the output buffer: returns everything written since the
    /// last drain, as characters, and resets the buffer to empty.
    pub fn pop_result(&mut self) -> (r: String)
        requires
            old(self).wf(),
        ensures
            final(self).wf(),
            r@ == old(self)@.out.map_values(|b: u8| b as char),
            final(self)@ == (BfState { out: Seq::empty(), ..old(self)@ }),
    {
        let mut cs: Vec<char> = Vec::new();
        let n = self.result.len();
        let mut i: usize = 0;
        while i < n
            invariant
                n == self.result@.len(),
                i <= n,
                cs@ == self.result@.take(i as int).map_values(|b: u8| b as char),
            decreases n - i,
        {
            let b = self.result[i];
            cs.push(b as char);
            proof {
                assert(self.result@.take(i + 1) =~= self.result@.take(i as int).push(
                    self.result@[i as int],
                ));
                assert(self.result@.take(i + 1).map_values(|b: u8| b as char) =~= self.result@.take(
                    i as int,
                ).map_values(|b: u8| b as char).push(self.result@[i as int] as char));
            }
            i = i + 1;
        }
        proof {
            assert(self.result@.take(n as int) =~= self.result@);
        }
        self.result.clear();
        let r = chars_to_string(&cs);
        proof {
            assert(self@ =~= (BfState { out: Seq::empty(), ..old(self)@ }));
        }
        r
    }

    /// Stages the supplied characters and consumes the first queued
    /// one.  With nothing supplied and nothing staged this fails and
    /// changes nothing.  Otherwise the head character leaves the queue:
    /// a 7-bit character is written to the current cell and the engine
    /// resumes running; any other character is merely discarded, the
    /// tape and the mode are untouched, and the failure is reported.
    pub fn set_input(&mut self, input: String) -> (r: Result<(), BfError>)
        requires
            old(self).wf(),
        ensures
            final(self).wf(),
            ({
                let q2 = old(self)@.queue + input@;
                if old(self)@.queue.len() == 0 && input@.len() == 0 {
                    r == Err::<(), BfError>(BfError::EmptyInput) && final(self)@ == old(self)@
                } else if q2[0] as u32 <= 127 {
                    r is Ok && final(self)@ == (BfState {
                        mem: old(self)@.mem.update(old(self)@.ptr, char_byte(q2[0])),
                        queue: q2.drop_first(),
                        in_mode: false,
                        ..old(self)@
                    })
                } else {
                    r == Err::<(), BfError>(BfError::NonAsciiInput) && final(self)@ == (BfState {
                        queue: q2.drop_first(),
                        ..old(self)@
                    })
                }
            }),
    {
        let mut extra = crate::codegen::chars_vec(input.as_str());
        if extra.len() == 0 && self.input_queue.len() == 0 {
            return Err(BfError::EmptyInput);
        }
        self.input_queue.append(&mut extra);
        let c = self.input_queue.remove(0);
        let code = c as u32;
        if code <= 127 {
            let p = self.pointer.p;
            self.memory[p] = code as u8;
            self.input_mode = false;
            proof {
                let q2 = old(self)@.queue + input@;
                assert(self.input_queue@ =~= q2.drop_first());
                assert(self@ =~= (BfState {
                    mem: old(self)@.mem.update(old(self)@.ptr, char_byte(q2[0])),
                    queue: q2.drop_first(),
                    in_mode: false,
                    ..old(self)@
                }));
            }
            Ok(())
        } else {
            proof {
                let q2 = old(self)@.queue + input@;
                assert(self.input_queue@ =~= q2.drop_first());
                assert(self@ =~= (BfState { queue: q2.drop_first(), ..old(self)@ }));
            }
            Err(BfError::NonAsciiInput)
        }
    }

    fn store_zero(&mut self)
        requires
            old(self).wf(),
        ensures
            final(self).wf(),
            final(self)@ == (BfState {
                mem: old(self)@.mem.update(old(self)@.ptr, 0u8),
                ..old(self)@
            }),
    {
        let p = self.pointer.p;
        self.memory[p] = 0;
        proof {
            assert(self@ =~= (BfState {
                mem: old(self)@.mem.update(old(self)@.ptr, 0u8),
                ..old(self)@
            }));
        }
    }

    fn value_plus(&mut self, n: u8)
        requires
            old(self).wf(),
        ensures
            final(self).wf(),
            final(self)@ == (BfState {
                mem: old(self)@.mem.update(
                    old(self)@.ptr,
                    wrap_add(old(self)@.mem[old(self)@.ptr], n),
                ),
                ..old(self)@
            }),
    {
        let p = self.pointer.p;
        let v = self.memory[p];
        self.memory[p] = v.wrapping_add(n);
        proof {
            assert(v.wrapping_add(n) == wrap_add(v, n));
            assert(self@ =~= (BfState {
                mem: old(self)@.mem.update(
                    old(self)@.ptr,
                    wrap_add(old(self)@.mem[old(self)@.ptr], n),
                ),
                ..old(self)@
            }));
        }
    }

    fn value_minus(&mut self, n: u8)
        requires
            old(self).wf(),
        ensures
            final(self).wf(),
            final(self)@ == (BfState {
                mem: old(self)@.mem.update(
                    old(self)@.ptr,
                    wrap_sub(old(self)@.mem[old(self)@.ptr], n),
                ),
                ..old(self)@
            }),
    {
        let p = self.pointer.p;
        let v = self.memory[p];
        self.memory[p] = v.wrapping_sub(n);
        proof {
            assert(v.wrapping_sub(n) == wrap_sub(v, n));
            assert(self@ =~= (BfState {
                mem: old(self)@.mem.update(
                    old(self)@.ptr,
                    wrap_sub(old(self)@.mem[old(self)@.ptr], n),
                ),
                ..old(self)@
            }));
        }
    }

    fn pointer_shift_right(&mut self, n: usize) -> (r: Result<(), BfError>)
        requires
            old(self).wf(),
        ensures
            final(self).wf(),
            old(self)@.ptr + n < MAX_MEMORY ==> r is Ok && final(self)@ == (BfState {
                ptr: old(self)@.ptr + n,
                ..old(self)@
            }),
            old(self)@.ptr + n >= MAX_MEMORY ==> r == Err::<(), BfError>(BfError::BoundsOverflow)
                && final(self)@ == old(self)@,
    {
        let r = self.pointer.shift_right_n(n);
        proof {
            if old(self)@.ptr + n < MAX_MEMORY {
                assert(self@ =~= (BfState { ptr: old(self)@.ptr + n, ..old(self)@ }));
            } else {
                assert(self@ =~= old(self)@);
            }
        }
        r
    }

    fn pointer_shift_left(&mut self, n: usize) -> (r: Result<(), BfError>)
        requires
            old(self).wf(),
        ensures
            final(self).wf(),
            n <= old(self)@.ptr ==> r is Ok && final(self)@ == (BfState {
                ptr: old(self)@.ptr - n,
                ..old(self)@
            }),
            n > old(self)@.ptr ==> r == Err::<(), BfError>(BfError::BoundsUnderflow)
                && final(self)@ == old(self)@,
    {
        let r = self.pointer.shift_left_n(n);
        proof {
            if n <= old(self)@.ptr {
                assert(self@ =~= (BfState { ptr: old(self)@.ptr - n, ..old(self)@ }));
            } else {
                assert(self@ =~= old(self)@);
            }
        }
        r
    }

    fn push_from_memory_into_result(&mut self)
        requires
            old(self).wf(),
        ensures
            final(self).wf(),
            final(self)@ == (BfState {
                out: old(self)@.out.push(old(self)@.mem[old(self)@.ptr]),
                ..old(self)@
            }),
    {
        let p = self.pointer.p;
        let b = self.memory[p];
        self.result.push(b);
        proof {
            assert(self@ =~= (BfState {
                out: old(self)@.out.push(old(self)@.mem[old(self)@.ptr]),
                ..old(self)@
            }));
        }
    }

    fn jump_to_close_staple(&mut self, index: usize) -> (r: Result<(), BfError>)
        requires
            old(self).wf(),
            index < old(self)@.insts.len(),
        ensures
            final(self).wf(),
            r is Ok,
            old(self)@.mem[old(self)@.ptr] == 0 ==> final(self)@ == (BfState {
                pc: index as int,
                ..old(self)@
            }),
            old(self)@.mem[old(self)@.ptr] != 0 ==> final(self)@ == old(self)@,
    {
        let p = self.pointer.p;
        let value = self.memory[p];
        if value == 0 {
            match self.counter.jump(index) {
                Ok(()) => {
                    proof {
                        assert(self@ =~= (BfState { pc: index as int, ..old(self)@ }));
                    }
                },
                Err(e) => {
                    proof {
                        assert(false);
                    }
                    return Err(e);
                },
            }
        }
        Ok(())
    }

    fn jump_to_start_staple(&mut self, index: usize) -> (r: Result<(), BfError>)
        requires
            old(self).wf(),
            index < old(self)@.insts.len(),
        ensures
            final(self).wf(),
            r is Ok,
            old(self)@.mem[old(self)@.ptr] != 0 ==> final(self)@ == (BfState {
                pc: index as int,
                ..old(self)@
            }),
            old(self)@.mem[old(self)@.ptr] == 0 ==> final(self)@ == old(self)@,
    {
        let p = self.pointer.p;
        let value = self.memory[p];
        if value != 0 {
            match self.counter.jump(index) {
                Ok(()) => {
                    proof {
                        assert(self@ =~= (BfState { pc: index as int, ..old(self)@ }));
                    }
                },
                Err(e) => {
                    proof {
                        assert(false);
                    }
                    return Err(e);
                },
            }
        }
        Ok(())
    }

    /// Executes exactly the instruction at the program counter, as
    /// [`step_spec`] says: the effect of the instruction plus the
    /// uniform post-increment.  A failed instruction fully fails: the
    /// failure is reported and the state is exactly as before.
    pub fn step(&mut self) -> (r: Result<(), BfError>)
        requires
            old(self).wf(),
            can_step(old(self)@),
        ensures
            final(self).wf(),
            final(self)@.insts == old(self)@.insts,
            (match step_spec(old(self)@) {
                Ok(s2) => r is Ok && final(self)@ == s2,
                Err(e) => r == Err::<(), BfError>(e) && final(self)@ == old(self)@,
            }),
    {
        let idx = self.counter.index();
        let inst = self.insts[idx];
        proof {
            assert(((old(self)@.insts[old(self)@.pc] matches Inst::Jpf(t) ==> t < old(
                self,
            )@.insts.len()) && (old(self)@.insts[old(self)@.pc] matches Inst::Jpb(t) ==> t < old(
                self,
            )@.insts.len())));
        }
        match inst {
            Inst::Add(n) => {
                self.value_plus(n);
            },
            Inst::Sub(n) => {
                self.value_minus(n);
            },
            Inst::Shr(n) => {
                if let Err(e) = self.pointer_shift_right(n) {
                    return Err(e);
                }
            },
            Inst::Shl(n) => {
                if let Err(e) = self.pointer_shift_left(n) {
                    return Err(e);
                }
            },
            Inst::Wrt => {
                self.push_from_memory_into_result();
            },
            Inst::Jpf(t) => {
                if let Err(e) = self.jump_to_close_staple(t) {
                    return Err(e);
                }
            },
            Inst::Jpb(t) => {
                if let Err(e) = self.jump_to_start_staple(t) {
                    return Err(e);
                }
            },
            Inst::Red => {
                self.input_mode = true;
            },
            Inst::Stz => {
                self.store_zero();
            },
        }
        match self.counter.inc() {
            Ok(()) => {},
            Err(e) => {
                proof {
                    assert(false);
                }
                return Err(e);
            },
        }
        proof {
            match step_spec(old(self)@) {
                Ok(s2) => {
                    assert(self@ =~= s2);
                },
                Err(_) => {
                    assert(false);
                },
            }
        }
        Ok(())
    }

    /// Runs until the program completes, the engine suspends awaiting
    /// input, or a step fails — in which case the failure is reported
    /// and the state is the one just before the failing step.  When the
    /// program holds no read instruction at all, an inner fast path
    /// skips the mode check on every iteration.  The loop carries an
    /// enormous defensive fuel so that it provably ends; a run that
    /// exhausts it has taken more successful steps than any practical
    /// run can.
    pub fn step_loop(&mut self) -> (r: Result<(), BfError>)
        requires
            old(self).wf(),
        ensures
            final(self).wf(),
            final(self)@.insts == old(self)@.insts,
            exists|n: nat| steps_ok(old(self)@, n, final(self)@),
            r is Ok ==> final(self)@.pc == final(self)@.insts.len() || final(self)@.in_mode
                || steps_ok(old(self)@, u64::MAX as nat, final(self)@),
            r matches Err(e) ==> can_step(final(self)@) && step_spec(final(self)@) == Err::<
                BfState,
                BfError,
            >(e),
    {
        let mut fuel: u64 = u64::MAX;
        proof {
            assert(steps_ok(old(self)@, 0, self@));
        }
        if !self.include_comma() && !self.is_input_mode() {
            while fuel > 0
                invariant
                    self.wf(),
                    !self@.in_mode,
                    !has_red(self@.insts),
                    self@.insts == old(self)@.insts,
                    steps_ok(old(self)@, (u64::MAX - fuel) as nat, self@),
                decreases fuel,
            {
                if self.reach_eop() {
                    return Ok(());
                }
                let ghost pre = self@;
                match self.step() {
                    Ok(()) => {
                        proof {
                            assert(!(pre.insts[pre.pc] is Red)) by {
                                if pre.insts[pre.pc] is Red {
                                    assert(has_red(pre.insts));
                                }
                            }
                            lemma_steps_ok_snoc(
                                old(self)@,
                                (u64::MAX - fuel) as nat,
                                pre,
                                self@,
                            );
                        }
                    },
                    Err(e) => {
                        return Err(e);
                    },
                }
                fuel = fuel - 1;
            }
            Ok(())
        } else {
            while fuel > 0
                invariant
                    self.wf(),
                    self@.insts == old(self)@.insts,
                    steps_ok(old(self)@, (u64::MAX - fuel) as nat, self@),
                decreases fuel,
            {
                if self.reach_eop() || self.is_input_mode() {
                    return Ok(());
                }
                let ghost pre = self@;
                match self.step() {
                    Ok(()) => {
                        proof {
                            lemma_steps_ok_snoc(
                                old(self)@,
                                (u64::MAX - fuel) as nat,
                                pre,
                                self@,
                            );
                        }
                    },
                    Err(e) => {
                        return Err(e);
                    },
                }
                fuel = fuel - 1;
            }
            Ok(())
        }
    }

    /// Drives the engine from the staging queue alone: executes
    /// instructions while running and feeds one staged character
    /// whenever the engine suspends.  Stops when the program completes,
    /// when input is wanted but the queue is empty, or when a move
    /// fails — a rejected character is then already discarded, exactly
    /// as [`Brainfuck::set_input`] leaves it.  Carries the same
    /// defensive fuel as [`Brainfuck::step_loop`].
    pub fn interpret(&mut self) -> (r: Result<(), BfError>)
        requires
            old(self).wf(),
        ensures
            final(self).wf(),
            final(self)@.insts == old(self)@.insts,
            r is Ok ==> exists|n: nat| drives_ok(old(self)@, n, final(self)@),
            r is Ok ==> !drive_active(final(self)@) || drives_ok(
                old(self)@,
                u64::MAX as nat,
                final(self)@,
            ),
            r matches Err(e) ==> exists|n: nat, m: BfState|
                #[trigger] drives_ok(old(self)@, n, m) && drive_active(m) && drive_step(m) == Err::<
                    BfState,
                    (BfState, BfError),
                >((final(self)@, e)),
    {
        let mut fuel: u64 = u64::MAX;
        proof {
            assert(drives_ok(old(self)@, 0, self@));
        }
        while fuel > 0
            invariant
                self.wf(),
                self@.insts == old(self)@.insts,
                drives_ok(old(self)@, (u64::MAX - fuel) as nat, self@),
            decreases fuel,
        {
            let ghost pre = self@;
            if self.is_input_mode() {
                if self.queue_remain() == 0 {
                    return Ok(());
                }
                match self.set_input(String::new()) {
                    Ok(()) => {
                        proof {
                            assert(pre.queue + Seq::<char>::empty() =~= pre.queue);
                            assert(drive_step(pre) == Ok::<BfState, (BfState, BfError)>(self@));
                            lemma_drives_ok_snoc(
                                old(self)@,
                                (u64::MAX - fuel) as nat,
                                pre,
                                self@,
                            );
                        }
                    },
                    Err(e) => {
                        proof {
                            assert(pre.queue + Seq::<char>::empty() =~= pre.queue);
                            assert(drives_ok(old(self)@, (u64::MAX - fuel) as nat, pre));
                            assert(drive_step(pre) == Err::<BfState, (BfState, BfError)>((
                                self@,
                                e,
                            )));
                            assert(drive_active(pre));
                        }
                        return Err(e);
                    },
                }
            } else {
                if self.reach_eop() {
                    return Ok(());
                }
                match self.step() {
                    Ok(()) => {
                        proof {
                            assert(drive_step(pre) == Ok::<BfState, (BfState, BfError)>(self@));
                            lemma_drives_ok_snoc(
                                old(self)@,
                                (u64::MAX - fuel) as nat,
                                pre,
                                self@,
                            );
                        }
                    },
                    Err(e) => {
                        proof {
                            assert(drives_ok(old(self)@, (u64::MAX - fuel) as nat, pre));
                            assert(drive_step(pre) == Err::<BfState, (BfState, BfError)>((
                                self@,
                                e,
                            )));
                            assert(drive_active(pre));
                        }
                        return Err(e);
                    },
                }
            }
            fuel = fuel - 1;
        }
        Ok(())
    }
}

} // verus!
