//! The parsing virtual machine: instruction set, machine state, and the
//! interpreter `execute`, together with the helpers that the interpreter and
//! the compiler share.

use vstd::prelude::*;
use crate::semantics::{
    VmCtx, VmState, find_memo, find_memo_from, drop_backtracks, prec_exit, skip_to, step,
    step_exec, step_fail, run, matches_outcome, state_wf, lemma_run_wf,
};
use crate::ast::{
    Grammar, Pattern, wf_grammar, spec_compile, program_size, blocks, rule_block, emission_size,
    analyzed, sp_discover, count_vars_rules,
};
use crate::parser;
use crate::parser::{tk_run, sp_parse, g_list, g_program_size, lemma_g_program_size, GPat};
use vstd::string::StringSliceAdditionalSpecFns;

verus! {

/// Largest program the engine accepts, counted in instructions.  Keeping the
/// program below this bound lets every relative offset and every program
/// position fit comfortably in an `isize`, on 32-bit targets included.
pub const MAX_PROGRAM: usize = 0x4000_0000;

/// Instruction budget of one `execute` call.  A grammar that loops without
/// consuming input (`('')*` and kin) is the grammar author's mistake; rather
/// than spin forever the machine gives up after this many cycles and reports
/// a match failure.  No terminating parse comes anywhere near the bound.
pub const STEP_BUDGET: u64 = 0x1_0000_0000_0000;

/// One opcode of the parsing virtual machine.  All jump operands are relative
/// to the address of the instruction itself.
#[derive(Clone, Copy, PartialEq, Eq, Structural, Debug)]
pub enum Instruction {
    /// Match one exact byte, or fail.
    Char(u8),
    /// Match one exact byte; on mismatch jump instead of failing.
    TestChar(u8, isize),
    /// Match any byte, or fail at end of input.
    Any,
    /// If at least `n` bytes remain, consume them; otherwise jump.
    TestAny(usize, isize),
    /// Match one byte in an inclusive range, or fail.
    CharRange(u8, u8),
    /// Match one byte in an inclusive range and jump past the class;
    /// on mismatch fall through to the next alternative.
    CharRangeLink(u8, u8, isize),
    /// Push a backtrack frame holding the jump target and the input position.
    Choice(isize),
    /// Unconditional relative jump.
    Jump(isize),
    /// Push a return frame and jump to a rule body.
    Call(isize),
    /// Call a rule with a precedence level and a left-recursion flag,
    /// memoized through precedence frames on the stack.
    PrecedenceCall(isize, isize, bool),
    /// Return from a rule body; a precedence frame on top triggers the
    /// seed-growing dispatch instead.
    Return,
    /// Pop the backtrack frame of a committed alternative and jump.
    Commit(isize),
    /// Pop a backtrack frame, restore its input position, and jump.
    BackCommit(isize),
    /// Move the saved position of the topmost backtrack frame forward.
    PartialCommit(isize),
    /// Push (rule id, current position) onto the position stack.
    PushPos(usize),
    /// Pop the position stack; record a span if input was consumed.
    SavePos,
    /// Enter fail mode.
    Fail,
    /// Pop one frame, then enter fail mode.
    FailTwice,
    /// Halt; anything short of the full input is a failure.
    Stop,
    /// Flip the skip-ranges flag.
    ToggleSkip,
}

/// The mutable per-call bookkeeping of one precedence call: where to resume,
/// where the rule body starts, where the call began in the input, the best
/// seed found so far, the required precedence, whether the latest seed was
/// recorded while unwinding a failure, and whether the call is
/// left-recursive.
#[derive(Clone, Copy)]
pub struct PrecFrame {
    pub ret: usize,
    pub entry: usize,
    pub start: usize,
    pub last: Option<usize>,
    pub k: isize,
    pub failed: bool,
    pub is_left: bool,
}

/// One entry of the machine stack.
#[derive(Clone, Copy)]
pub enum StackFrame {
    /// Resume address of an ordinary rule call.
    Return(usize),
    /// Resume address and saved input position of an open alternative.
    Backtrack(usize, usize),
    /// Memoization frame of a precedence call.
    Precedence(PrecFrame),
}

/// A compiled machine: the program, the rule names indexed by rule id, the
/// byte ranges to skip while the skip flag is on, and the table mapping each
/// program position to the next `Return` at or after it.
pub struct Machine {
    pub program: Vec<Instruction>,
    pub rule_names: Vec<Vec<u8>>,
    pub skip: Vec<(u8, u8)>,
    pub skip_on: bool,
    pub jump_table: Vec<isize>,
}

/// How a finished run of the machine ended.
#[derive(Clone, Copy, PartialEq, Eq, Structural, Debug)]
pub enum Verdict {
    /// The whole input matched.
    Accept,
    /// The input did not match, or the program was malformed.
    Reject,
    /// A span was completed for a rule id with no name.
    MarkerReject(usize),
}

/// Everything `execute` can report short of success.
#[derive(Clone, Copy, PartialEq, Eq, Structural, Debug)]
pub enum Error {
    /// A span was completed for a rule id with no entry in `rule_names`.
    MarkerError(usize),
    /// The grammar text could not be parsed; the payload is the token index
    /// at which parsing stopped.
    ParserError(usize),
    /// The input did not match; the payload is the input position at halt.
    MachineError(usize),
}

/// A machine as compilation produces it: no skip ranges yet, the skip flag
/// off, a jump table that maps every position to the next `Return`, and a
/// program compiled from some well-formed grammar with as many rules as the
/// machine has rule names, the entry rule first.
pub open spec fn wf_machine(m: Machine) -> bool {
    &&& m.skip@ == Seq::<(u8, u8)>::empty()
    &&& m.skip_on == false
    &&& m.jump_table@.len() == m.program@.len()
    &&& forall|t: int|
        0 <= t < m.program@.len() ==> m.jump_table@[t] == next_return(m.program@, t)
    &&& m.program@.len() <= MAX_PROGRAM
    &&& exists|g: Grammar|
        wf_grammar(g) && g.main == 0 && g.rules@.len() == m.rule_names@.len() && m.program@
            == #[trigger] spec_compile(g.rules@, g.main)
}

/// The machine is the compilation of exactly the grammar that `bytes`
/// parses to: the rule names are the tokenizer's name table; the text
/// parses to a grammar whose entry rule is rule zero; that grammar's calls
/// are numbered, the analysis walk finds the left-recursive ones, and they
/// are marked; and the program is `spec_compile` of the result.  Every
/// step is a function of the text, so the machine is too.
pub open spec fn compiled_from(bytes: Seq<u8>, m: Machine) -> bool {
    let scan = tk_run(bytes, bytes.len() as int);
    &&& m.rule_names.deep_view() == scan.names
    &&& sp_parse(scan.tokens, scan.names.len() as int) matches Ok(shapes) && exists|
        parsed: Grammar,
        named: Seq<Pattern>,
        compiled: Grammar,
    |
        {
            &&& #[trigger] analyzed(
                parsed.rules@,
                named,
                compiled.rules@,
                sp_discover(
                    named,
                    count_vars_rules(parsed.rules@, parsed.rules@.len() as int) as int,
                ),
            )
            &&& g_list(parsed.rules@) == shapes
            &&& wf_grammar(parsed)
            &&& parsed.main == 0
            &&& compiled.main == 0
            &&& m.program@ == spec_compile(compiled.rules@, compiled.main)
        }
}

/// True when byte `x` lies in one of the configured skip ranges.
pub open spec fn in_skip(skip: Seq<(u8, u8)>, x: u8) -> bool {
    exists|j: int| 0 <= j < skip.len() && skip[j].0 <= x && x <= skip[j].1
}

/// Position of the first `Return` instruction at or after `i`, or `-1` when
/// none follows.
pub open spec fn next_return(program: Seq<Instruction>, i: int) -> int
    decreases program.len() - i,
{
    if i < 0 || i >= program.len() {
        -1
    } else if program[i] is Return {
        i
    } else {
        next_return(program, i + 1)
    }
}

/// The target of a relative branch: `base + off` when that lies inside
/// `[0, limit]`, and `None` otherwise.
pub fn add_offset(base: usize, off: isize, limit: usize) -> (r: Option<usize>)
    requires
        base <= limit,
    ensures
        match r {
            Some(t) => base + off == t && t <= limit,
            None => base + off < 0 || base + off > limit,
        },
{
    let t: i128 = base as i128 + off as i128;
    if 0 <= t && t <= limit as i128 {
        Some(t as usize)
    } else {
        None
    }
}

/// The run-time state of one `execute` call; its view is the `VmState` of
/// the small-step semantics.
pub struct Vm {
    pub pc: usize,
    pub i: usize,
    pub fail: bool,
    pub skip_on: bool,
    pub stack: Vec<StackFrame>,
    pub pos: Vec<(usize, usize)>,
    pub out: Vec<(usize, usize, usize)>,
    pub done: Option<Verdict>,
}

impl View for Vm {
    type V = VmState;

    open spec fn view(&self) -> VmState {
        VmState {
            pc: self.pc,
            i: self.i,
            fail: self.fail,
            skip_on: self.skip_on,
            stack: self.stack@,
            pos: self.pos@,
            out: self.out@,
            done: self.done,
        }
    }
}

/// True when byte `x` lies in one of the given skip ranges.
fn byte_in_skip(skip: &Vec<(u8, u8)>, x: u8) -> (r: bool)
    ensures
        r == in_skip(skip@, x),
{
    let mut result = false;
    let mut t: usize = 0;
    while t < skip.len()
        invariant
            t <= skip.len(),
            result == exists|j: int| 0 <= j < t && skip@[j].0 <= x && x <= skip@[j].1,
        decreases skip.len() - t,
    {
        let (lo, hi) = skip[t];
        result = result || (x >= lo && x <= hi);
        t = t + 1;
    }
    result
}

/// True when the span is already among the emitted ones.
fn contains_span(out: &Vec<(usize, usize, usize)>, sp: (usize, usize, usize)) -> (r: bool)
    ensures
        r == out@.contains(sp),
{
    let mut t: usize = 0;
    while t < out.len()
        invariant
            t <= out.len(),
            forall|j: int| 0 <= j < t ==> out@[j] != sp,
        decreases out.len() - t,
    {
        let (a, b, c) = out[t];
        if a == sp.0 && b == sp.1 && c == sp.2 {
            assert(out@[t as int] == sp);
            return true;
        }
        t = t + 1;
    }
    assert(!out@.contains(sp));
    false
}

/// The bottom-most precedence frame opened for `entry` at input position
/// `start`, if the stack holds one.
fn find_memo_frame(stack: &Vec<StackFrame>, entry: usize, start: usize) -> (r: Option<PrecFrame>)
    ensures
        match find_memo(stack@, entry, start) {
            Some(idx) => r matches Some(f) && stack@[idx] == StackFrame::Precedence(f),
            None => r is None,
        },
{
    let mut idx: usize = 0;
    while idx < stack.len()
        invariant
            idx <= stack@.len(),
            find_memo(stack@, entry, start) == find_memo_from(stack@, entry, start, idx as int),
        decreases stack@.len() - idx,
    {
        match stack[idx] {
            StackFrame::Precedence(f) => {
                if f.entry == entry && f.start == start {
                    return Some(f);
                }
            },
            _ => {},
        }
        idx = idx + 1;
    }
    None
}

/// True when the stack is non-empty with a backtrack frame on top.
fn top_is_backtrack(stack: &Vec<StackFrame>) -> (r: bool)
    ensures
        r == (stack@.len() > 0 && stack@.last() is Backtrack),
{
    let n = stack.len();
    if n == 0 {
        false
    } else {
        match stack[n - 1] {
            StackFrame::Backtrack(_, _) => true,
            _ => false,
        }
    }
}

/// Leave a precedence call whose seed has stabilized, as `prec_exit` of the
/// semantics dictates.
fn prec_exit_exec(m: &Machine, input: &Vec<u8>, vm: &mut Vm, f: PrecFrame, keep_fail: bool)
    requires
        old(vm)@.done is None,
    ensures
        final(vm)@ == prec_exit(m.ctx(input@), old(vm)@, f, old(vm)@.stack, keep_fail),
{
    match f.last {
        None => {
            vm.done = Some(Verdict::Reject);
        },
        Some(jr) => {
            if f.is_left {
                let mut target: isize = -1;
                if f.ret < m.jump_table.len() {
                    target = m.jump_table[f.ret];
                }
                if f.ret < m.jump_table.len() && target >= 0 && (target as usize) <= m.program.len() {
                    vm.pc = target as usize;
                    vm.i = jr;
                    vm.fail = keep_fail && f.failed;
                    while top_is_backtrack(&vm.stack)
                        invariant
                            drop_backtracks(old(vm)@.stack) == drop_backtracks(vm.stack@),
                            vm.i == jr,
                            vm.fail == (keep_fail && f.failed),
                            vm.pc == target as usize,
                            vm.skip_on == old(vm)@.skip_on,
                            vm.pos@ == old(vm)@.pos,
                            vm.out@ == old(vm)@.out,
                            vm.done == old(vm)@.done,
                        decreases vm.stack@.len(),
                    {
                        let _ = vm.stack.pop();
                    }
                    assert(drop_backtracks(vm.stack@) == vm.stack@);
                } else {
                    vm.done = Some(Verdict::Reject);
                }
            } else {
                if f.ret < m.program.len() {
                    vm.pc = f.ret + 1;
                    vm.i = jr;
                    vm.fail = keep_fail && f.failed;
                } else {
                    vm.done = Some(Verdict::Reject);
                }
            }
        },
    }
}

/// One cycle of fail-mode unwinding, as `step_fail` of the semantics
/// dictates.
fn do_fail(m: &Machine, input: &Vec<u8>, vm: &mut Vm)
    requires
        old(vm)@.done is None,
        old(vm)@.fail,
    ensures
        final(vm)@ == step_fail(m.ctx(input@), old(vm)@),
{
    match vm.stack.pop() {
        None => {
            vm.done = Some(Verdict::Reject);
        },
        Some(frame) => {
            match frame {
                StackFrame::Backtrack(ret, j) => {
                    vm.pc = ret;
                    vm.i = j;
                    vm.fail = false;
                },
                StackFrame::Return(_) => {
                    let _ = vm.pos.pop();
                },
                StackFrame::Precedence(f) => {
                    let grown = match f.last {
                        None => true,
                        Some(v) => vm.i > v,
                    };
                    if grown && vm.i != f.start {
                        vm.stack.push(StackFrame::Precedence(PrecFrame {
                            last: Some(vm.i),
                            failed: true,
                            ..f
                        }));
                        vm.pc = f.entry;
                        vm.i = f.start;
                        vm.fail = false;
                    } else {
                        let has_seed = match f.last {
                            Some(_) => true,
                            None => false,
                        };
                        if has_seed {
                            prec_exit_exec(m, input, vm, f, true);
                        }
                    }
                },
            }
        },
    }
}

/// One cycle of ordinary execution, as `step_exec` of the semantics
/// dictates.
#[verifier::rlimit(60)]
fn do_exec(m: &Machine, input: &Vec<u8>, vm: &mut Vm)
    requires
        old(vm)@.done is None,
        !old(vm)@.fail,
    ensures
        final(vm)@ == step_exec(m.ctx(input@), old(vm)@),
{
    let plen = m.program.len();
    if vm.pc >= plen {
        vm.done = Some(Verdict::Reject);
        return;
    }
    let ins = m.program[vm.pc];
    match ins {
        Instruction::Char(ch) => {
            if vm.i < input.len() && input[vm.i] == ch {
                vm.pc = vm.pc + 1;
                vm.i = vm.i + 1;
            } else {
                vm.fail = true;
            }
        },
        Instruction::TestChar(ch, off) => {
            if vm.i < input.len() && input[vm.i] == ch {
                vm.pc = vm.pc + 1;
                vm.i = vm.i + 1;
            } else {
                match add_offset(vm.pc, off, plen) {
                    Some(t) => {
                        vm.pc = t;
                    },
                    None => {
                        vm.done = Some(Verdict::Reject);
                    },
                }
            }
        },
        Instruction::Any => {
            if vm.i < input.len() {
                vm.pc = vm.pc + 1;
                vm.i = vm.i + 1;
            } else {
                vm.fail = true;
            }
        },
        Instruction::TestAny(n, off) => {
            if vm.i <= input.len() && n <= input.len() - vm.i {
                vm.pc = vm.pc + 1;
                vm.i = vm.i + n;
            } else {
                match add_offset(vm.pc, off, plen) {
                    Some(t) => {
                        vm.pc = t;
                    },
                    None => {
                        vm.done = Some(Verdict::Reject);
                    },
                }
            }
        },
        Instruction::CharRange(lo, hi) => {
            if vm.i < input.len() && lo <= input[vm.i] && input[vm.i] <= hi {
                vm.pc = vm.pc + 1;
                vm.i = vm.i + 1;
            } else {
                vm.fail = true;
            }
        },
        Instruction::CharRangeLink(lo, hi, off) => {
            if vm.i < input.len() && lo <= input[vm.i] && input[vm.i] <= hi {
                match add_offset(vm.pc, off, plen) {
                    Some(t) => {
                        vm.pc = t;
                        vm.i = vm.i + 1;
                    },
                    None => {
                        vm.done = Some(Verdict::Reject);
                    },
                }
            } else {
                vm.pc = vm.pc + 1;
            }
        },
        Instruction::Choice(off) => {
            match add_offset(vm.pc, off, plen) {
                Some(t) => {
                    vm.stack.push(StackFrame::Backtrack(t, vm.i));
                    vm.pc = vm.pc + 1;
                },
                None => {
                    vm.done = Some(Verdict::Reject);
                },
            }
        },
        Instruction::Jump(off) => {
            match add_offset(vm.pc, off, plen) {
                Some(t) => {
                    vm.pc = t;
                },
                None => {
                    vm.done = Some(Verdict::Reject);
                },
            }
        },
        Instruction::Call(off) => {
            match add_offset(vm.pc, off, plen) {
                Some(t) => {
                    vm.stack.push(StackFrame::Return(vm.pc + 1));
                    vm.pc = t;
                },
                None => {
                    vm.done = Some(Verdict::Reject);
                },
            }
        },
        Instruction::PrecedenceCall(off, k, is_left) => {
            match add_offset(vm.pc, off, plen) {
                Some(entry) => {
                    match find_memo_frame(&vm.stack, entry, vm.i) {
                        Some(f) => {
                            match f.last {
                                Some(jr) => {
                                    if k >= f.k {
                                        vm.pc = vm.pc + 1;
                                        vm.i = jr;
                                    } else {
                                        vm.fail = true;
                                    }
                                },
                                None => {
                                    vm.fail = true;
                                },
                            }
                        },
                        None => {
                            vm.stack.push(StackFrame::Precedence(PrecFrame {
                                ret: vm.pc,
                                entry,
                                start: vm.i,
                                last: None,
                                k,
                                failed: false,
                                is_left,
                            }));
                            vm.pc = entry;
                        },
                    }
                },
                None => {
                    vm.done = Some(Verdict::Reject);
                },
            }
        },
        Instruction::Return => {
            match vm.stack.pop() {
                None => {
                    vm.done = Some(Verdict::Reject);
                },
                Some(frame) => {
                    match frame {
                        StackFrame::Return(ret) => {
                            vm.pc = ret;
                        },
                        StackFrame::Backtrack(_, _) => {},
                        StackFrame::Precedence(f) => {
                            let grown = match f.last {
                                None => true,
                                Some(v) => vm.i > v,
                            };
                            if grown {
                                vm.stack.push(StackFrame::Precedence(PrecFrame {
                                    last: Some(vm.i),
                                    failed: false,
                                    ..f
                                }));
                                vm.pc = f.entry;
                                vm.i = f.start;
                            } else {
                                prec_exit_exec(m, input, vm, f, false);
                            }
                        },
                    }
                },
            }
        },
        Instruction::Commit(off) => {
            let n = vm.stack.len();
            let top_is_bt = n > 0 && match vm.stack[n - 1] {
                StackFrame::Backtrack(_, _) => true,
                _ => false,
            };
            if top_is_bt {
                match add_offset(vm.pc, off, plen) {
                    Some(t) => {
                        let _ = vm.stack.pop();
                        vm.pc = t;
                    },
                    None => {
                        vm.done = Some(Verdict::Reject);
                    },
                }
            } else {
                vm.done = Some(Verdict::Reject);
            }
        },
        Instruction::BackCommit(off) => {
            let n = vm.stack.len();
            if n > 0 {
                match vm.stack[n - 1] {
                    StackFrame::Backtrack(_, j) => {
                        match add_offset(vm.pc, off, plen) {
                            Some(t) => {
                                let _ = vm.stack.pop();
                                vm.pc = t;
                                vm.i = j;
                            },
                            None => {
                                vm.done = Some(Verdict::Reject);
                            },
                        }
                    },
                    _ => {
                        vm.done = Some(Verdict::Reject);
                    },
                }
            } else {
                vm.done = Some(Verdict::Reject);
            }
        },
        Instruction::PartialCommit(off) => {
            let n = vm.stack.len();
            if n > 0 {
                match vm.stack[n - 1] {
                    StackFrame::Backtrack(ret, _) => {
                        match add_offset(vm.pc, off, plen) {
                            Some(t) => {
                                vm.stack.set(n - 1, StackFrame::Backtrack(ret, vm.i));
                                vm.pc = t;
                            },
                            None => {
                                vm.done = Some(Verdict::Reject);
                            },
                        }
                    },
                    _ => {
                        vm.done = Some(Verdict::Reject);
                    },
                }
            } else {
                vm.done = Some(Verdict::Reject);
            }
        },
        Instruction::PushPos(id) => {
            vm.pos.push((id, vm.i));
            vm.pc = vm.pc + 1;
        },
        Instruction::SavePos => {
            match vm.pos.pop() {
                None => {
                    vm.pc = vm.pc + 1;
                },
                Some((id, j)) => {
                    if j == vm.i {
                        vm.pc = vm.pc + 1;
                    } else if j > vm.i {
                        vm.done = Some(Verdict::Reject);
                    } else if id >= m.rule_names.len() {
                        vm.done = Some(Verdict::MarkerReject(id));
                    } else {
                        let sp = (id, j, vm.i);
                        if !contains_span(&vm.out, sp) {
                            vm.out.push(sp);
                        }
                        vm.pc = vm.pc + 1;
                    }
                },
            }
        },
        Instruction::Fail => {
            vm.fail = true;
        },
        Instruction::FailTwice => {
            let _ = vm.stack.pop();
            vm.fail = true;
        },
        Instruction::Stop => {
            if vm.i == input.len() {
                vm.done = Some(Verdict::Accept);
            } else {
                vm.done = Some(Verdict::Reject);
            }
        },
        Instruction::ToggleSkip => {
            vm.skip_on = !vm.skip_on;
            vm.pc = vm.pc + 1;
        },
    }
}

/// One full interpreter cycle, as `step` of the semantics dictates.
fn step_once(m: &Machine, input: &Vec<u8>, vm: &mut Vm)
    requires
        old(vm)@.done is None,
    ensures
        final(vm)@ == step(m.ctx(input@), old(vm)@),
{
    if vm.skip_on {
        while vm.i < input.len() && byte_in_skip(&m.skip, input[vm.i])
            invariant
                skip_to(m.ctx(input@), old(vm)@.i as int) == skip_to(m.ctx(input@), vm.i as int),
                vm.pc == old(vm)@.pc,
                vm.fail == old(vm)@.fail,
                vm.skip_on == old(vm)@.skip_on,
                vm.stack@ == old(vm)@.stack,
                vm.pos@ == old(vm)@.pos,
                vm.out@ == old(vm)@.out,
                vm.done == old(vm)@.done,
                vm.i >= old(vm)@.i,
            decreases input@.len() - vm.i,
        {
            vm.i = vm.i + 1;
        }
        assert(skip_to(m.ctx(input@), vm.i as int) == vm.i as int);
    }
    if vm.fail {
        do_fail(m, input, vm);
    } else {
        do_exec(m, input, vm);
    }
}

impl Machine {
    /// The immutable context this machine provides to the semantics for a
    /// given input.
    pub open spec fn ctx(&self, input: Seq<u8>) -> VmCtx {
        VmCtx {
            program: self.program@,
            names_len: self.rule_names@.len() as int,
            skip: self.skip@,
            jump: self.jump_table@,
            input,
        }
    }

    /// True when byte `x` lies in one of this machine's skip ranges.
    pub fn skip_parser(&mut self, x: u8) -> (r: bool)
        ensures
            *final(self) == *old(self),
            r == in_skip(old(self).skip@, x),
    {
        let mut result = false;
        let mut t: usize = 0;
        while t < self.skip.len()
            invariant
                t <= self.skip.len(),
                *self == *old(self),
                result == exists|j: int|
                    0 <= j < t && self.skip@[j].0 <= x && x <= self.skip@[j].1,
            decreases self.skip.len() - t,
        {
            let (lo, hi) = self.skip[t];
            result = result || (x >= lo && x <= hi);
            t = t + 1;
        }
        result
    }

    /// Runs the program against `input` and returns the deduplicated spans
    /// `(rule id, start, end)` the match emitted, or where matching failed.
    ///
    /// The result is exactly what the small-step semantics dictates: some
    /// number of cycles from the initial state reaches a halted state whose
    /// verdict this function reports.  Together with `lemma_outcome_unique`
    /// this pins the result down completely.  Every returned span is
    /// non-empty, lies within the input, and occurs once.  A run that is
    /// still going after `STEP_BUDGET` cycles is reported as a match
    /// failure at the position reached.
    pub fn execute(&mut self, input: Vec<u8>) -> (r: Result<Vec<(usize, usize, usize)>, Error>)
        ensures
            final(self).program == old(self).program,
            final(self).rule_names == old(self).rule_names,
            final(self).skip == old(self).skip,
            final(self).jump_table == old(self).jump_table,
            (exists|n: nat|
                n <= STEP_BUDGET as nat && matches_outcome(
                    #[trigger] run(old(self).ctx(input@), old(self).skip_on, n),
                    r,
                    final(self).skip_on,
                )) || ({
                let s = run(old(self).ctx(input@), old(self).skip_on, STEP_BUDGET as nat);
                &&& s.done is None
                &&& r matches Err(e) && e == Error::MachineError(s.i)
                &&& final(self).skip_on == s.skip_on
            }),
            r matches Ok(v) ==> forall|t: int|
                0 <= t < v@.len() ==> (#[trigger] v@[t]).1 < v@[t].2 && v@[t].2 <= input@.len(),
            r matches Ok(v) ==> forall|a: int, b: int|
                #![trigger v@[a], v@[b]]
                0 <= a < b < v@.len() ==> v@[a] != v@[b],
    {
        let ghost c = self.ctx(input@);
        let ghost skip0 = self.skip_on;
        let mut vm = Vm {
            pc: 0,
            i: 0,
            fail: false,
            skip_on: self.skip_on,
            stack: Vec::new(),
            pos: Vec::new(),
            out: Vec::new(),
            done: None,
        };
        let ghost mut n: nat = 0;
        let mut fuel: u64 = STEP_BUDGET;
        assert(vm@ == run(c, skip0, n));
        while vm.done.is_none() && fuel > 0
            invariant
                c == self.ctx(input@),
                skip0 == self.skip_on,
                vm@ == run(c, skip0, n),
                n + fuel == STEP_BUDGET,
            decreases fuel,
        {
            step_once(self, &input, &mut vm);
            fuel = fuel - 1;
            proof {
                n = n + 1;
                assert(run(c, skip0, n) == step(c, run(c, skip0, (n - 1) as nat)));
            }
        }
        proof {
            lemma_run_wf(c, skip0, n);
            assert(state_wf(c, vm@));
        }
        self.skip_on = vm.skip_on;
        match vm.done {
            Some(Verdict::Accept) => {
                let result = vm.out;
                proof {
                    assert(matches_outcome(run(c, skip0, n), Ok(result), self.skip_on));
                }
                Ok(result)
            },
            Some(Verdict::Reject) => {
                let r = Err(Error::MachineError(vm.i));
                proof {
                    assert(matches_outcome(run(c, skip0, n), r, self.skip_on));
                }
                r
            },
            Some(Verdict::MarkerReject(id)) => {
                let r = Err(Error::MarkerError(id));
                proof {
                    assert(matches_outcome(run(c, skip0, n), r, self.skip_on));
                }
                r
            },
            None => {
                let r = Err(Error::MachineError(vm.i));
                proof {
                    assert(n == STEP_BUDGET as nat);
                }
                r
            },
        }
    }

    /// Compiles grammar text into a ready machine.  On failure the payload
    /// is the token index at which the grammar could not be parsed, or the
    /// token count when the grammar is too large for one program.
    ///
    /// On success the machine is pinned end to end: its rule names are
    /// exactly the name table the tokenizer builds, and its program is the
    /// compilation of the very grammar the text parses to, analysis
    /// included — see `compiled_from`.
    #[verifier::loop_isolation(false)]
    pub fn new(grammar: &str) -> (r: Result<Machine, usize>)
        requires
            grammar.spec_bytes().len() < 0x4000_0000,
        ensures
            r matches Ok(m) ==> wf_machine(m),
            r matches Ok(m) ==> compiled_from(grammar.spec_bytes(), m),
            r matches Err(e) ==> ({
                let scan = tk_run(grammar.spec_bytes(), grammar.spec_bytes().len() as int);
                ||| sp_parse(scan.tokens, scan.names.len() as int) == Err::<Seq<GPat>, int>(
                    e as int,
                )
                ||| (sp_parse(scan.tokens, scan.names.len() as int) matches Ok(shapes)
                    && g_program_size(shapes) > MAX_PROGRAM && e == scan.tokens.len())
            }),
            ({
                let scan = tk_run(grammar.spec_bytes(), grammar.spec_bytes().len() as int);
                sp_parse(scan.tokens, scan.names.len() as int) matches Ok(shapes)
                    && g_program_size(shapes) <= MAX_PROGRAM
            }) ==> r is Ok,
    {
        let bytes = grammar.as_bytes();
        let (tokens, rule_count, names) = parser::tokenize(bytes);
        let token_count = tokens.len();
        let mut g = match parser::parse(tokens, rule_count) {
            Ok(g) => g,
            Err(e) => {
                return Err(e);
            },
        };
        let ghost parsed = g;
        let mut total: usize = 2;
        let mut t: usize = 0;
        while t < g.rules.len()
            invariant
                g == parsed,
                t <= g.rules@.len(),
                total == 2 + blocks(g.rules@, t as int).len(),
                total <= MAX_PROGRAM,
            decreases g.rules@.len() - t,
        {
            match emission_size(&g.rules[t]) {
                Some(sz) => {
                    if sz + 3 <= MAX_PROGRAM - total {
                        total = total + 3 + sz;
                    } else {
                        proof {
                            crate::ast::lemma_program_size_lower(parsed.rules@, t as int);
                            lemma_g_program_size(parsed.rules@);
                        }
                        return Err(token_count);
                    }
                },
                None => {
                    proof {
                        crate::ast::lemma_program_size_lower(parsed.rules@, t as int);
                        lemma_g_program_size(parsed.rules@);
                    }
                    return Err(token_count);
                },
            }
            t = t + 1;
            proof {
                assert(blocks(g.rules@, t as int) == blocks(g.rules@, t as int - 1)
                    + rule_block(g.rules@[t as int - 1], (t - 1) as usize));
            }
        }
        proof {
            assert(program_size(parsed.rules@) <= MAX_PROGRAM);
        }
        let program = g.compile();
        let ghost compiled = g;
        let jump_table = Machine::get_jump_table(&program);
        let m = Machine {
            program,
            rule_names: names,
            skip: Vec::new(),
            skip_on: false,
            jump_table,
        };
        proof {
            assert(wf_grammar(compiled) && compiled.main == 0 && compiled.rules@.len()
                == m.rule_names@.len() && m.program@ == spec_compile(
                compiled.rules@,
                compiled.main,
            ));
            let named = choose|named: Seq<Pattern>|
                analyzed(
                    parsed.rules@,
                    named,
                    compiled.rules@,
                    sp_discover(
                        named,
                        count_vars_rules(parsed.rules@, parsed.rules@.len() as int) as int,
                    ),
                );
            assert(analyzed(
                parsed.rules@,
                named,
                compiled.rules@,
                sp_discover(
                    named,
                    count_vars_rules(parsed.rules@, parsed.rules@.len() as int) as int,
                ),
            ));
        }
        Ok(m)
    }

    /// For each program position, the address of the next `Return` at or
    /// after it (`-1` when none), computed in one right-to-left scan.
    pub fn get_jump_table(program: &Vec<Instruction>) -> (r: Vec<isize>)
        requires
            program@.len() <= MAX_PROGRAM,
        ensures
            r@.len() == program@.len(),
            forall|i: int| 0 <= i < r@.len() ==> r@[i] == next_return(program@, i),
    {
        let n = program.len();
        let mut result: Vec<isize> = Vec::new();
        let mut fill: usize = 0;
        while fill < n
            invariant
                fill <= n,
                result@.len() == fill,
            decreases n - fill,
        {
            result.push(-1);
            fill = fill + 1;
        }
        let mut current: isize = -1;
        let mut idx: usize = n;
        while idx > 0
            invariant
                idx <= n,
                n <= MAX_PROGRAM,
                n == program@.len(),
                result@.len() == n,
                current == next_return(program@, idx as int),
                forall|j: int| idx <= j < n ==> result@[j] == next_return(program@, j),
            decreases idx,
        {
            idx = idx - 1;
            match program[idx] {
                Instruction::Return => {
                    current = idx as isize;
                },
                _ => {},
            }
            result.set(idx, current);
        }
        result
    }
}

} // verus!
