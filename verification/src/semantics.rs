//! The mathematical small-step semantics of the parsing virtual machine.
//!
//! `step` maps a machine state to its successor, exactly one interpreter
//! cycle at a time; `run` iterates it from the initial state.  The
//! interpreter in `machine.rs` is verified to follow `step` cycle for cycle,
//! so everything proved about `step` and `run` holds of `Machine::execute`.
//!
//! Where the program is malformed — a jump leaving the program, a `Commit`
//! without its backtrack frame, a span that would end before it starts — the
//! semantics halts with a rejection instead of stepping outside the model.
//! Compiled programs never reach those cases.

use vstd::prelude::*;
use crate::machine::{Instruction, StackFrame, PrecFrame, Verdict, Error, in_skip};

verus! {

/// The immutable context of one `execute` call: the compiled machine and the
/// input bytes.
pub ghost struct VmCtx {
    /// The instruction program.
    pub program: Seq<Instruction>,
    /// How many rule names the machine knows; a span for a rule id at or
    /// beyond this bound is a marker error.
    pub names_len: int,
    /// Byte ranges skipped while the skip flag is on.
    pub skip: Seq<(u8, u8)>,
    /// For each program position, the next `Return` at or after it.
    pub jump: Seq<isize>,
    /// The input bytes being matched.
    pub input: Seq<u8>,
}

/// One machine state: program counter, input cursor, fail flag, skip flag,
/// the frame stack, the pending-span stack, the spans emitted so far, and
/// the verdict once the machine has halted.
pub ghost struct VmState {
    pub pc: usize,
    pub i: usize,
    pub fail: bool,
    pub skip_on: bool,
    pub stack: Seq<StackFrame>,
    pub pos: Seq<(usize, usize)>,
    pub out: Seq<(usize, usize, usize)>,
    pub done: Option<Verdict>,
}

/// The state every `execute` call starts from.
pub open spec fn init_state(skip_on: bool) -> VmState {
    VmState {
        pc: 0,
        i: 0,
        fail: false,
        skip_on,
        stack: Seq::empty(),
        pos: Seq::empty(),
        out: Seq::empty(),
        done: None,
    }
}

/// Halt with a rejection, keeping the rest of the state.
pub open spec fn reject(s: VmState) -> VmState {
    VmState { done: Some(Verdict::Reject), ..s }
}

/// The first input position at or after `i` that is not a skippable byte.
pub open spec fn skip_to(c: VmCtx, i: int) -> int
    decreases c.input.len() - i,
{
    if 0 <= i && i < c.input.len() && in_skip(c.skip, c.input[i]) {
        skip_to(c, i + 1)
    } else {
        i
    }
}

/// The lowest stack index at or above `idx` holding a precedence frame for
/// rule entry `entry` begun at input position `start`.
pub open spec fn find_memo_from(stack: Seq<StackFrame>, entry: usize, start: usize, idx: int) -> Option<int>
    decreases stack.len() - idx,
{
    if idx < 0 || idx >= stack.len() {
        None
    } else if stack[idx] matches StackFrame::Precedence(f) && f.entry == entry && f.start == start {
        Some(idx)
    } else {
        find_memo_from(stack, entry, start, idx + 1)
    }
}

/// The bottom-most precedence frame for `(entry, start)`, if any.
pub open spec fn find_memo(stack: Seq<StackFrame>, entry: usize, start: usize) -> Option<int> {
    find_memo_from(stack, entry, start, 0)
}

/// The stack with every backtrack frame on top removed: a left-recursive
/// exit discards the stale alternatives opened inside the recursive attempt.
pub open spec fn drop_backtracks(stack: Seq<StackFrame>) -> Seq<StackFrame>
    decreases stack.len(),
{
    if stack.len() > 0 && stack.last() is Backtrack {
        drop_backtracks(stack.drop_last())
    } else {
        stack
    }
}

/// Leaving a precedence frame whose seed has stabilized: restore the seed
/// position, and resume after the call — for a left-recursive call, at the
/// enclosing rule's `Return`, with the stale backtrack frames discarded.
pub open spec fn prec_exit(c: VmCtx, s: VmState, f: PrecFrame, stack: Seq<StackFrame>, keep_fail: bool) -> VmState {
    match f.last {
        None => reject(s),
        Some(jr) => {
            if f.is_left {
                if f.ret < c.jump.len() && 0 <= c.jump[f.ret as int] && c.jump[f.ret as int] <= c.program.len() {
                    VmState {
                        pc: c.jump[f.ret as int] as usize,
                        i: jr,
                        fail: keep_fail && f.failed,
                        stack: drop_backtracks(stack),
                        ..s
                    }
                } else {
                    reject(s)
                }
            } else {
                if f.ret + 1 <= c.program.len() {
                    VmState {
                        pc: (f.ret + 1) as usize,
                        i: jr,
                        fail: keep_fail && f.failed,
                        stack,
                        ..s
                    }
                } else {
                    reject(s)
                }
            }
        },
    }
}

/// Growing the seed of a precedence frame: record the position reached,
/// rewind the input to the call's start, and run the rule body once more.
pub open spec fn prec_grow(s: VmState, f: PrecFrame, stack: Seq<StackFrame>, from_fail: bool) -> VmState {
    VmState {
        pc: f.entry,
        i: f.start,
        fail: false,
        stack: stack.push(StackFrame::Precedence(PrecFrame { last: Some(s.i), failed: from_fail, ..f })),
        ..s
    }
}

/// One cycle in fail mode: pop frames until one can resume.  A backtrack
/// frame restores its saved state; a return frame drops the pending span of
/// the rule being unwound; a precedence frame grows its seed on strict
/// progress, exits with a stabilized seed, or keeps unwinding when it has
/// none; an empty stack rejects.
pub open spec fn step_fail(c: VmCtx, s: VmState) -> VmState {
    if s.stack.len() == 0 {
        reject(s)
    } else {
        let stack = s.stack.drop_last();
        match s.stack.last() {
            StackFrame::Backtrack(ret, j) => VmState { pc: ret, i: j, fail: false, stack, ..s },
            StackFrame::Return(_) => VmState {
                stack,
                pos: if s.pos.len() > 0 { s.pos.drop_last() } else { s.pos },
                ..s
            },
            StackFrame::Precedence(f) => {
                let grown = match f.last {
                    None => true,
                    Some(v) => s.i > v,
                };
                if grown && s.i != f.start {
                    prec_grow(s, f, stack, true)
                } else if f.last is Some {
                    prec_exit(c, VmState { stack, ..s }, f, stack, true)
                } else {
                    VmState { stack, ..s }
                }
            },
        }
    }
}

/// One cycle of ordinary execution, dispatching on `program[pc]`.
pub open spec fn step_exec(c: VmCtx, s: VmState) -> VmState {
    if s.pc >= c.program.len() {
        reject(s)
    } else {
        let plen = c.program.len() as int;
        let ilen = c.input.len() as int;
        match c.program[s.pc as int] {
            Instruction::Char(ch) => {
                if s.i < ilen && c.input[s.i as int] == ch {
                    VmState { pc: (s.pc + 1) as usize, i: (s.i + 1) as usize, ..s }
                } else {
                    VmState { fail: true, ..s }
                }
            },
            Instruction::TestChar(ch, off) => {
                if s.i < ilen && c.input[s.i as int] == ch {
                    VmState { pc: (s.pc + 1) as usize, i: (s.i + 1) as usize, ..s }
                } else {
                    if 0 <= s.pc + off && s.pc + off <= plen {
                        VmState { pc: (s.pc + off) as usize, ..s }
                    } else {
                        reject(s)
                    }
                }
            },
            Instruction::Any => {
                if s.i < ilen {
                    VmState { pc: (s.pc + 1) as usize, i: (s.i + 1) as usize, ..s }
                } else {
                    VmState { fail: true, ..s }
                }
            },
            Instruction::TestAny(n, off) => {
                if s.i + n <= ilen {
                    VmState { pc: (s.pc + 1) as usize, i: (s.i + n) as usize, ..s }
                } else {
                    if 0 <= s.pc + off && s.pc + off <= plen {
                        VmState { pc: (s.pc + off) as usize, ..s }
                    } else {
                        reject(s)
                    }
                }
            },
            Instruction::CharRange(lo, hi) => {
                if s.i < ilen && lo <= c.input[s.i as int] && c.input[s.i as int] <= hi {
                    VmState { pc: (s.pc + 1) as usize, i: (s.i + 1) as usize, ..s }
                } else {
                    VmState { fail: true, ..s }
                }
            },
            Instruction::CharRangeLink(lo, hi, off) => {
                if s.i < ilen && lo <= c.input[s.i as int] && c.input[s.i as int] <= hi {
                    if 0 <= s.pc + off && s.pc + off <= plen {
                        VmState { pc: (s.pc + off) as usize, i: (s.i + 1) as usize, ..s }
                    } else {
                        reject(s)
                    }
                } else {
                    VmState { pc: (s.pc + 1) as usize, ..s }
                }
            },
            Instruction::Choice(off) => {
                if 0 <= s.pc + off && s.pc + off <= plen {
                    VmState {
                        pc: (s.pc + 1) as usize,
                        stack: s.stack.push(StackFrame::Backtrack(((s.pc + off) as int) as usize, s.i)),
                        ..s
                    }
                } else {
                    reject(s)
                }
            },
            Instruction::Jump(off) => {
                if 0 <= s.pc + off && s.pc + off <= plen {
                    VmState { pc: (s.pc + off) as usize, ..s }
                } else {
                    reject(s)
                }
            },
            Instruction::Call(off) => {
                if 0 <= s.pc + off && s.pc + off <= plen {
                    VmState {
                        pc: (s.pc + off) as usize,
                        stack: s.stack.push(StackFrame::Return((s.pc + 1) as usize)),
                        ..s
                    }
                } else {
                    reject(s)
                }
            },
            Instruction::PrecedenceCall(off, k, is_left) => {
                if 0 <= s.pc + off && s.pc + off <= plen {
                    let entry = ((s.pc + off) as int) as usize;
                    match find_memo(s.stack, entry, s.i) {
                        Some(idx) => {
                            match s.stack[idx] {
                                StackFrame::Precedence(f) => {
                                    match f.last {
                                        Some(jr) => {
                                            if k >= f.k {
                                                VmState { pc: (s.pc + 1) as usize, i: jr, ..s }
                                            } else {
                                                VmState { fail: true, ..s }
                                            }
                                        },
                                        None => VmState { fail: true, ..s },
                                    }
                                },
                                _ => s,
                            }
                        },
                        None => {
                            VmState {
                                pc: entry,
                                stack: s.stack.push(StackFrame::Precedence(PrecFrame {
                                    ret: s.pc,
                                    entry,
                                    start: s.i,
                                    last: None,
                                    k,
                                    failed: false,
                                    is_left,
                                })),
                                ..s
                            }
                        },
                    }
                } else {
                    reject(s)
                }
            },
            Instruction::Return => {
                if s.stack.len() == 0 {
                    reject(s)
                } else {
                    let stack = s.stack.drop_last();
                    match s.stack.last() {
                        StackFrame::Return(ret) => VmState { pc: ret, stack, ..s },
                        StackFrame::Backtrack(_, _) => VmState { stack, ..s },
                        StackFrame::Precedence(f) => {
                            let grown = match f.last {
                                None => true,
                                Some(v) => s.i > v,
                            };
                            if grown {
                                prec_grow(VmState { stack, ..s }, f, stack, false)
                            } else {
                                prec_exit(c, VmState { stack, ..s }, f, stack, false)
                            }
                        },
                    }
                }
            },
            Instruction::Commit(off) => {
                if s.stack.len() > 0 && s.stack.last() is Backtrack {
                    if 0 <= s.pc + off && s.pc + off <= plen {
                        VmState { pc: (s.pc + off) as usize, stack: s.stack.drop_last(), ..s }
                    } else {
                        reject(s)
                    }
                } else {
                    reject(s)
                }
            },
            Instruction::BackCommit(off) => {
                if s.stack.len() > 0 && s.stack.last() is Backtrack {
                    if 0 <= s.pc + off && s.pc + off <= plen {
                        match s.stack.last() {
                            StackFrame::Backtrack(_, j) => VmState {
                                pc: (s.pc + off) as usize,
                                i: j,
                                stack: s.stack.drop_last(),
                                ..s
                            },
                            _ => s,
                        }
                    } else {
                        reject(s)
                    }
                } else {
                    reject(s)
                }
            },
            Instruction::PartialCommit(off) => {
                if s.stack.len() > 0 && s.stack.last() is Backtrack {
                    if 0 <= s.pc + off && s.pc + off <= plen {
                        match s.stack.last() {
                            StackFrame::Backtrack(ret, _) => VmState {
                                pc: (s.pc + off) as usize,
                                stack: s.stack.update(
                                    s.stack.len() - 1,
                                    StackFrame::Backtrack(ret, s.i),
                                ),
                                ..s
                            },
                            _ => s,
                        }
                    } else {
                        reject(s)
                    }
                } else {
                    reject(s)
                }
            },
            Instruction::PushPos(id) => {
                VmState { pc: (s.pc + 1) as usize, pos: s.pos.push((id, s.i)), ..s }
            },
            Instruction::SavePos => {
                if s.pos.len() == 0 {
                    VmState { pc: (s.pc + 1) as usize, ..s }
                } else {
                    let id = s.pos.last().0;
                    let j = s.pos.last().1;
                    let pos = s.pos.drop_last();
                    if j == s.i {
                        VmState { pc: (s.pc + 1) as usize, pos, ..s }
                    } else if j > s.i {
                        reject(VmState { pos, ..s })
                    } else if id >= c.names_len {
                        VmState { done: Some(Verdict::MarkerReject(id)), pos, ..s }
                    } else {
                        let sp = (id, j, s.i);
                        VmState {
                            pc: (s.pc + 1) as usize,
                            pos,
                            out: if s.out.contains(sp) { s.out } else { s.out.push(sp) },
                            ..s
                        }
                    }
                }
            },
            Instruction::Fail => VmState { fail: true, ..s },
            Instruction::FailTwice => {
                VmState {
                    fail: true,
                    stack: if s.stack.len() > 0 { s.stack.drop_last() } else { s.stack },
                    ..s
                }
            },
            Instruction::Stop => {
                VmState {
                    done: Some(if s.i == c.input.len() { Verdict::Accept } else { Verdict::Reject }),
                    ..s
                }
            },
            Instruction::ToggleSkip => {
                VmState { pc: (s.pc + 1) as usize, skip_on: !s.skip_on, ..s }
            },
        }
    }
}

/// One full interpreter cycle: a halted state is absorbing; otherwise the
/// cursor first skips past skippable bytes when the skip flag is on, and the
/// machine then either unwinds a failure or executes one instruction.
pub open spec fn step(c: VmCtx, s: VmState) -> VmState {
    if s.done is Some {
        s
    } else {
        let s1 = if s.skip_on { VmState { i: skip_to(c, s.i as int) as usize, ..s } } else { s };
        if s1.fail {
            step_fail(c, s1)
        } else {
            step_exec(c, s1)
        }
    }
}

/// The state after `n` interpreter cycles from the initial state.
pub open spec fn run(c: VmCtx, skip_on: bool, n: nat) -> VmState
    decreases n,
{
    if n == 0 {
        init_state(skip_on)
    } else {
        step(c, run(c, skip_on, (n - 1) as nat))
    }
}

/// The input positions a frame stores never lie beyond the input.
pub open spec fn frame_wf(f: StackFrame, ilen: int) -> bool {
    match f {
        StackFrame::Return(_) => true,
        StackFrame::Backtrack(_, j) => j <= ilen,
        StackFrame::Precedence(p) => p.start <= ilen && (match p.last {
            Some(v) => v <= ilen,
            None => true,
        }),
    }
}

/// Every input position the state stores lies within the input, every
/// emitted span is non-empty and contained in the input, and no span is
/// emitted twice.
pub open spec fn state_wf(c: VmCtx, s: VmState) -> bool {
    let ilen = c.input.len() as int;
    &&& s.i <= ilen
    &&& forall|j: int| 0 <= j < s.stack.len() ==> frame_wf(#[trigger] s.stack[j], ilen)
    &&& forall|j: int| 0 <= j < s.pos.len() ==> (#[trigger] s.pos[j]).1 <= ilen
    &&& forall|j: int| 0 <= j < s.out.len() ==> (#[trigger] s.out[j]).1 < s.out[j].2
        && s.out[j].2 <= ilen
    &&& forall|a: int, b: int|
        #![trigger s.out[a], s.out[b]]
        0 <= a < b < s.out.len() ==> s.out[a] != s.out[b]
}

/// Skipping never moves the cursor backwards nor beyond the input.
pub proof fn lemma_skip_to_bounds(c: VmCtx, i: int)
    requires
        0 <= i <= c.input.len(),
    ensures
        i <= skip_to(c, i) <= c.input.len(),
    decreases c.input.len() - i,
{
    if 0 <= i && i < c.input.len() && in_skip(c.skip, c.input[i]) {
        lemma_skip_to_bounds(c, i + 1);
    }
}

/// Discarding topmost backtrack frames keeps every remaining frame of the
/// stack as it was.
pub proof fn lemma_drop_backtracks_wf(stack: Seq<StackFrame>, ilen: int)
    requires
        forall|j: int| 0 <= j < stack.len() ==> frame_wf(#[trigger] stack[j], ilen),
    ensures
        drop_backtracks(stack).len() <= stack.len(),
        forall|j: int| 0 <= j < drop_backtracks(stack).len()
            ==> frame_wf(#[trigger] drop_backtracks(stack)[j], ilen),
    decreases stack.len(),
{
    if stack.len() > 0 && stack.last() is Backtrack {
        lemma_drop_backtracks_wf(stack.drop_last(), ilen);
    }
}

/// A successful memo search yields an index within the stack that holds a
/// precedence frame.
pub proof fn lemma_find_memo_props(stack: Seq<StackFrame>, entry: usize, start: usize, idx: int)
    ensures
        match find_memo_from(stack, entry, start, idx) {
            Some(t) => idx <= t < stack.len() && stack[t] is Precedence,
            None => true,
        },
    decreases stack.len() - idx,
{
    if idx < 0 || idx >= stack.len() {
    } else if stack[idx] matches StackFrame::Precedence(f) && f.entry == entry && f.start == start {
    } else {
        lemma_find_memo_props(stack, entry, start, idx + 1);
    }
}

/// One fail-mode cycle preserves well-formedness.
proof fn lemma_step_fail_wf(c: VmCtx, s: VmState)
    requires
        state_wf(c, s),
    ensures
        state_wf(c, step_fail(c, s)),
{
    let ilen = c.input.len() as int;
    if s.stack.len() > 0 {
        assert(frame_wf(s.stack[s.stack.len() - 1], ilen));
        let stack = s.stack.drop_last();
        assert(forall|j: int| 0 <= j < stack.len() ==> frame_wf(#[trigger] stack[j], ilen));
        match s.stack.last() {
            StackFrame::Precedence(f) => {
                let grown = match f.last {
                    None => true,
                    Some(v) => s.i > v,
                };
                if grown && s.i != f.start {
                    assert(state_wf(c, step_fail(c, s)));
                } else if f.last is Some {
                    lemma_drop_backtracks_wf(stack, ilen);
                    assert(state_wf(c, step_fail(c, s)));
                }
            },
            _ => {},
        }
    }
}

/// One ordinary execution cycle preserves well-formedness.
#[verifier::rlimit(100)]
proof fn lemma_step_exec_wf(c: VmCtx, s: VmState)
    requires
        state_wf(c, s),
    ensures
        state_wf(c, step_exec(c, s)),
{
    let ilen = c.input.len() as int;
    {
        if s.pc < c.program.len() {
            match c.program[s.pc as int] {
                Instruction::PrecedenceCall(off, k, is_left) => {
                    if 0 <= s.pc + off && s.pc + off <= c.program.len() {
                        let entry = ((s.pc + off) as int) as usize;
                        lemma_find_memo_props(s.stack, entry, s.i, 0);
                        match find_memo(s.stack, entry, s.i) {
                            Some(idx) => {
                                assert(frame_wf(s.stack[idx], ilen));
                            },
                            None => {},
                        }
                    }
                },
                Instruction::Return => {
                    if s.stack.len() > 0 {
                        assert(frame_wf(s.stack[s.stack.len() - 1], ilen));
                        let stack = s.stack.drop_last();
                        assert(forall|j: int| 0 <= j < stack.len()
                            ==> frame_wf(#[trigger] stack[j], ilen));
                        match s.stack.last() {
                            StackFrame::Precedence(f) => {
                                let grown = match f.last {
                                    None => true,
                                    Some(v) => s.i > v,
                                };
                                if !grown {
                                    lemma_drop_backtracks_wf(stack, ilen);
                                }
                            },
                            _ => {},
                        }
                    }
                },
                Instruction::Commit(_) => {
                    if s.stack.len() > 0 {
                        assert(forall|j: int| 0 <= j < s.stack.drop_last().len()
                            ==> frame_wf(#[trigger] s.stack.drop_last()[j], ilen));
                    }
                },
                Instruction::BackCommit(_) => {
                    if s.stack.len() > 0 {
                        assert(frame_wf(s.stack[s.stack.len() - 1], ilen));
                        assert(forall|j: int| 0 <= j < s.stack.drop_last().len()
                            ==> frame_wf(#[trigger] s.stack.drop_last()[j], ilen));
                    }
                },
                Instruction::FailTwice => {
                    if s.stack.len() > 0 {
                        assert(forall|j: int| 0 <= j < s.stack.drop_last().len()
                            ==> frame_wf(#[trigger] s.stack.drop_last()[j], ilen));
                    }
                },
                Instruction::SavePos => {
                    if s.pos.len() > 0 {
                        assert(s.pos[s.pos.len() - 1].1 <= ilen);
                    }
                },
                _ => {},
            }
            assert(state_wf(c, step_exec(c, s)));
        }
    }
}

/// One cycle preserves well-formedness.
pub proof fn lemma_step_wf(c: VmCtx, s: VmState)
    requires
        state_wf(c, s),
    ensures
        state_wf(c, step(c, s)),
{
    if s.done is Some {
        return;
    }
    if s.skip_on {
        lemma_skip_to_bounds(c, s.i as int);
    }
    let s1 = if s.skip_on { VmState { i: skip_to(c, s.i as int) as usize, ..s } } else { s };
    assert(state_wf(c, s1));
    if s1.fail {
        lemma_step_fail_wf(c, s1);
    } else {
        lemma_step_exec_wf(c, s1);
    }
}

/// Every reachable state is well-formed.
pub proof fn lemma_run_wf(c: VmCtx, skip_on: bool, n: nat)
    ensures
        state_wf(c, run(c, skip_on, n)),
    decreases n,
{
    if n == 0 {
    } else {
        lemma_run_wf(c, skip_on, (n - 1) as nat);
        lemma_step_wf(c, run(c, skip_on, (n - 1) as nat));
    }
}

/// A halted state never moves again.
pub proof fn lemma_done_stable(c: VmCtx, skip_on: bool, n1: nat, n2: nat)
    requires
        n1 <= n2,
        run(c, skip_on, n1).done is Some,
    ensures
        run(c, skip_on, n2) == run(c, skip_on, n1),
    decreases n2 - n1,
{
    if n2 > n1 {
        lemma_done_stable(c, skip_on, n1, (n2 - 1) as nat);
    }
}

/// Determinism: the halted state is a function of the machine, the input
/// and the initial skip flag alone.  Any two halting runs agree, so
/// `execute` cannot return two different results for the same machine and
/// input.
pub proof fn lemma_run_deterministic(c: VmCtx, skip_on: bool, n1: nat, n2: nat)
    requires
        run(c, skip_on, n1).done is Some,
        run(c, skip_on, n2).done is Some,
    ensures
        run(c, skip_on, n1) == run(c, skip_on, n2),
{
    if n1 <= n2 {
        lemma_done_stable(c, skip_on, n1, n2);
    } else {
        lemma_done_stable(c, skip_on, n2, n1);
    }
}

/// Determinism at the interface: any two results that satisfy `execute`'s
/// contract for the same machine, input and skip flag agree — the same
/// verdict, the same spans, the same failure position, the same final skip
/// flag.
pub proof fn lemma_outcome_unique(
    c: VmCtx,
    skip_on: bool,
    n1: nat,
    n2: nat,
    r1: Result<Vec<(usize, usize, usize)>, Error>,
    r2: Result<Vec<(usize, usize, usize)>, Error>,
    s1: bool,
    s2: bool,
)
    requires
        matches_outcome(run(c, skip_on, n1), r1, s1),
        matches_outcome(run(c, skip_on, n2), r2, s2),
    ensures
        s1 == s2,
        r1 matches Ok(v1) ==> (r2 matches Ok(v2) && v1@ == v2@),
        r1 is Err ==> r1 == r2,
{
    lemma_run_deterministic(c, skip_on, n1, n2);
}

/// Ordered choice, the saving half: `Choice` pushes a frame holding exactly
/// the current input position and the address of the right alternative,
/// touching nothing else, and goes on into the left alternative.
pub proof fn lemma_choice_saves_position(c: VmCtx, s: VmState, off: isize)
    requires
        s.pc < c.program.len(),
        c.program[s.pc as int] == Instruction::Choice(off),
        0 <= s.pc + off <= c.program.len(),
    ensures
        step_exec(c, s) == (VmState {
            pc: (s.pc + 1) as usize,
            stack: s.stack.push(StackFrame::Backtrack(((s.pc + off) as int) as usize, s.i)),
            ..s
        }),
{
}

/// Ordered choice, the restoring half: only when the left alternative fails
/// does the machine unwind to the saved frame, and it resumes in the right
/// alternative with the input position exactly as it was when the choice
/// was made.
pub proof fn lemma_fail_restores_position(c: VmCtx, s: VmState, ret: usize, j: usize)
    requires
        s.stack.len() > 0,
        s.stack.last() == StackFrame::Backtrack(ret, j),
    ensures
        step_fail(c, s) == (VmState {
            pc: ret,
            i: j,
            fail: false,
            stack: s.stack.drop_last(),
            ..s
        }),
{
}

/// No-progress safety: a `Commit` or `PartialCommit` reached without its
/// backtrack frame on top never takes a transition; the machine halts
/// rejecting instead.
pub proof fn lemma_commit_needs_backtrack(c: VmCtx, s: VmState)
    requires
        s.pc < c.program.len(),
        c.program[s.pc as int] matches Instruction::Commit(_)
            || c.program[s.pc as int] matches Instruction::PartialCommit(_),
        s.stack.len() == 0 || !(s.stack.last() is Backtrack),
    ensures
        step_exec(c, s) == reject(s),
{
}

/// Precedence monotonicity: a memoized precedence call accepts the stored
/// seed exactly when the caller's precedence reaches the seed's; a caller
/// whose precedence lies below the seed's fails instead of accepting it.
pub proof fn lemma_precedence_monotonic(
    c: VmCtx,
    s: VmState,
    off: isize,
    k: isize,
    is_left: bool,
    idx: int,
    f: PrecFrame,
    jr: usize,
)
    requires
        s.pc < c.program.len(),
        c.program[s.pc as int] == Instruction::PrecedenceCall(off, k, is_left),
        0 <= s.pc + off <= c.program.len(),
        find_memo(s.stack, ((s.pc + off) as int) as usize, s.i) == Some(idx),
        0 <= idx < s.stack.len(),
        s.stack[idx] == StackFrame::Precedence(f),
        f.last == Some(jr),
    ensures
        k >= f.k ==> step_exec(c, s) == (VmState { pc: (s.pc + 1) as usize, i: jr, ..s }),
        k < f.k ==> step_exec(c, s) == (VmState { fail: true, ..s }),
{
}

/// Left-recursion growth is strictly monotone: a rule body returning to a
/// precedence frame that already holds a seed re-enters the body only when
/// the input position strictly exceeds that seed, recording the new
/// position; otherwise the call exits with the seed it has.  Positions
/// never pass the input length, so a precedence call grows only finitely
/// often: left-recursive matching terminates by iterative growth.
pub proof fn lemma_seed_growth_monotone(c: VmCtx, s: VmState, f: PrecFrame, v: usize)
    requires
        s.pc < c.program.len(),
        c.program[s.pc as int] is Return,
        s.stack.len() > 0,
        s.stack.last() == StackFrame::Precedence(f),
        f.last == Some(v),
    ensures
        s.i > v ==> step_exec(c, s) == (prec_grow(
            (VmState { stack: s.stack.drop_last(), ..s }),
            f,
            s.stack.drop_last(),
            false,
        )) && step_exec(c, s).stack.last() == (StackFrame::Precedence(
            (PrecFrame { last: Some(s.i), failed: false, ..f }),
        )),
        s.i <= v ==> step_exec(c, s) == (prec_exit(
            c,
            (VmState { stack: s.stack.drop_last(), ..s }),
            f,
            s.stack.drop_last(),
            false,
        )),
{
}

/// What a halted state dictates: an accepting state yields exactly the spans
/// it accumulated, a rejecting state the failure position it halted at, and
/// a marker rejection the offending rule id; the machine's skip flag ends up
/// as the state left it.
pub open spec fn matches_outcome(
    s: VmState,
    r: Result<Vec<(usize, usize, usize)>, Error>,
    skip_end: bool,
) -> bool {
    &&& s.done is Some
    &&& skip_end == s.skip_on
    &&& match s.done {
        Some(Verdict::Accept) => r matches Ok(v) && v@ == s.out,
        Some(Verdict::Reject) => r matches Err(e) && e == Error::MachineError(s.i),
        Some(Verdict::MarkerReject(id)) => r matches Err(e) && e == Error::MarkerError(id),
        None => false,
    }
}

} // verus!
