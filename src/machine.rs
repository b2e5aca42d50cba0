//! Execution semantics: a tape of bytes, a cursor, and a program counter.
use vstd::prelude::*;
use crate::ir::{Op, target};

verus! {

/// Number of cells on the tape.
pub const TAPE_LEN: usize = 30000;

/// The state of a run.
pub struct MachineState {
    pub tape: Seq<u8>,
    pub ptr: int,
    pub pc: int,
}

/// What one step did.
#[derive(Debug, Clone, Copy, PartialEq, Eq, Structural)]
pub enum Step {
    /// An instruction ran and wrote nothing.
    Continue,
    /// An instruction ran and wrote this byte.
    Output(u8),
    /// The program counter is past the last instruction.
    Halted,
    /// The instruction addressed a cell outside the tape; nothing changed.
    Fault,
}

/// `x` reduced into the range of `usize`, for `x` less than one turn out.
pub open spec fn wrap_usize(x: int) -> int {
    if x < 0 {
        x + usize::MAX + 1
    } else if x > usize::MAX {
        x - (usize::MAX + 1)
    } else {
        x
    }
}

/// The nearest zero cell at or before `i`, or -1 where there is none.
pub open spec fn zero_at_or_before(tape: Seq<u8>, i: int) -> int
    decreases i + 1,
{
    if i < 0 {
        -1
    } else if i < tape.len() && tape[i] == 0 {
        i
    } else {
        zero_at_or_before(tape, i - 1)
    }
}

/// The nearest zero cell at or after `i`, or `tape.len()` where there is none.
pub open spec fn zero_at_or_after(tape: Seq<u8>, i: int) -> int
    decreases tape.len() - i,
{
    if i >= tape.len() {
        tape.len() as int
    } else if 0 <= i && tape[i] == 0 {
        i
    } else {
        zero_at_or_after(tape, i + 1)
    }
}

pub open spec fn in_tape(s: MachineState, a: int) -> bool {
    0 <= a < s.tape.len()
}

pub open spec fn with_cell(s: MachineState, a: int, v: int) -> MachineState {
    MachineState { tape: s.tape.update(a, v as u8), ptr: s.ptr, pc: s.pc + 1 }
}

pub open spec fn moved(s: MachineState, ptr: int) -> MachineState {
    MachineState { tape: s.tape, ptr, pc: s.pc + 1 }
}

pub open spec fn jumped(s: MachineState, pc: int) -> MachineState {
    MachineState { tape: s.tape, ptr: s.ptr, pc }
}

/// One step of `ops` from `s`; `input` is the byte an `Input` instruction
/// reads (`None` at the end of the input, which leaves the cell as it is).
/// A taken jump lands on its counterpart, which then falls through.
pub open spec fn step_spec(ops: Seq<Op>, s: MachineState, input: Option<u8>) -> (
    Step,
    MachineState,
) {
    if s.pc < 0 || s.pc >= ops.len() {
        (Step::Halted, s)
    } else {
        let op = ops[s.pc];
        match op {
            Op::PtrAdd(n) => (Step::Continue, moved(s, wrap_usize(s.ptr + n))),
            Op::PtrSub(n) => (Step::Continue, moved(s, wrap_usize(s.ptr - n))),
            _ => if !in_tape(s, s.ptr) {
                (Step::Fault, s)
            } else {
                let c = s.tape[s.ptr] as int;
                match op {
                    Op::ValAdd(n) => (Step::Continue, with_cell(s, s.ptr, (c + n) % 256)),
                    Op::ValSub(n) => (Step::Continue, with_cell(s, s.ptr, (c - n) % 256)),
                    Op::Output => (Step::Output(c as u8), moved(s, s.ptr)),
                    Op::Input => match input {
                        Some(b) => (Step::Continue, with_cell(s, s.ptr, b as int)),
                        None => (Step::Continue, moved(s, s.ptr)),
                    },
                    Op::Jz(t) => if c == 0 {
                        (Step::Continue, jumped(s, t as int))
                    } else {
                        (Step::Continue, moved(s, s.ptr))
                    },
                    Op::Jnz(t) => if c != 0 {
                        (Step::Continue, jumped(s, t as int))
                    } else {
                        (Step::Continue, moved(s, s.ptr))
                    },
                    Op::Clear => (Step::Continue, with_cell(s, s.ptr, 0)),
                    Op::MulAdd(o, f) => if c == 0 {
                        (Step::Continue, moved(s, s.ptr))
                    } else {
                        let a = wrap_usize(s.ptr + o);
                        if in_tape(s, a) {
                            (Step::Continue, with_cell(s, a, (s.tape[a] + c * f) % 256))
                        } else {
                            (Step::Fault, s)
                        }
                    },
                    Op::ScanLeft => {
                        let z = zero_at_or_before(s.tape, s.ptr);
                        if z >= 0 {
                            (Step::Continue, moved(s, z))
                        } else {
                            (Step::Fault, s)
                        }
                    },
                    _ => {
                        let z = zero_at_or_after(s.tape, s.ptr);
                        if z < s.tape.len() {
                            (Step::Continue, moved(s, z))
                        } else {
                            (Step::Fault, s)
                        }
                    },
                }
            }
        }
    }
}

/// The nearest zero cell at or before `ptr`, if any.
fn zero_before(tape: &Vec<u8>, ptr: usize) -> (r: Option<usize>)
    requires
        ptr < tape@.len(),
    ensures
        r is None <==> zero_at_or_before(tape@, ptr as int) == -1,
        r is Some ==> r->0 == zero_at_or_before(tape@, ptr as int),
{
    let mut k = ptr;
    loop
        invariant
            k <= ptr < tape@.len(),
            zero_at_or_before(tape@, ptr as int) == zero_at_or_before(tape@, k as int),
        decreases k,
    {
        if tape[k] == 0 {
            return Some(k);
        }
        if k == 0 {
            proof {
                assert(zero_at_or_before(tape@, -1) == -1);
            }
            return None;
        }
        k = k - 1;
    }
}

/// The nearest zero cell at or after `ptr`, or `tape.len()` where there is none.
fn zero_after(tape: &Vec<u8>, ptr: usize) -> (r: usize)
    requires
        ptr < tape@.len(),
    ensures
        r == zero_at_or_after(tape@, ptr as int),
{
    let mut k = ptr;
    while k < tape.len()
        invariant
            ptr <= k <= tape@.len(),
            zero_at_or_after(tape@, ptr as int) == zero_at_or_after(tape@, k as int),
        decreases tape@.len() - k,
    {
        if tape[k] == 0 {
            return k;
        }
        k = k + 1;
    }
    k
}

/// An instruction that reads or writes the cell under a cursor that is off
/// the tape faults, and the state stays as it was.
pub proof fn lemma_off_tape_faults(ops: Seq<Op>, s: MachineState, input: Option<u8>)
    requires
        0 <= s.pc < ops.len(),
        !(ops[s.pc] is PtrAdd || ops[s.pc] is PtrSub),
        !in_tape(s, s.ptr),
    ensures
        step_spec(ops, s, input) == (Step::Fault, s),
{
}

/// Moving left past the first cell wraps the cursor to the top of its range,
/// far off the tape, so that the next instruction that touches a cell ends
/// the run with a fault instead of reaching a cell of the tape.
pub proof fn lemma_moving_off_the_left_end_faults(
    ops: Seq<Op>,
    s: MachineState,
    input: Seq<u8>,
    fuel: nat,
)
    requires
        0 <= s.pc,
        s.pc + 1 < ops.len(),
        s.tape.len() == TAPE_LEN,
        0 <= s.ptr <= usize::MAX,
        ops[s.pc] matches Op::PtrSub(n) && s.ptr < n <= usize::MAX + 1 - TAPE_LEN,
        !(ops[s.pc + 1] is PtrAdd || ops[s.pc + 1] is PtrSub),
        fuel >= 2,
    ensures
        run_from(ops, s, input, fuel).0 == Status::Fault,
{
    let next = step_spec(ops, s, None).1;
    assert(!in_tape(next, next.ptr));
    assert(run_from(ops, next, input, (fuel - 1) as nat).0 == Status::Fault);
}

/// A tape, a cursor and a program counter.
pub struct Machine {
    tape: Vec<u8>,
    ptr: usize,
    pc: usize,
}

impl View for Machine {
    type V = MachineState;

    closed spec fn view(&self) -> MachineState {
        MachineState { tape: self.tape@, ptr: self.ptr as int, pc: self.pc as int }
    }
}

impl Machine {
    /// A fresh machine: every cell zero, cursor and program counter at zero.
    pub fn new() -> (m: Machine)
        ensures
            m@.tape == Seq::new(TAPE_LEN as nat, |i: int| 0u8),
            m@.ptr == 0,
            m@.pc == 0,
    {
        let mut tape: Vec<u8> = Vec::new();
        let mut k: usize = 0;
        while k < TAPE_LEN
            invariant
                k <= TAPE_LEN,
                tape@ == Seq::new(k as nat, |i: int| 0u8),
            decreases TAPE_LEN - k,
        {
            tape.push(0);
            k = k + 1;
            proof {
                assert(tape@ =~= Seq::new(k as nat, |i: int| 0u8));
            }
        }
        Machine { tape, ptr: 0, pc: 0 }
    }

    /// The cursor.
    pub fn cursor(&self) -> (r: usize)
        ensures
            r == self@.ptr,
    {
        self.ptr
    }

    /// The program counter.
    pub fn counter(&self) -> (r: usize)
        ensures
            r == self@.pc,
    {
        self.pc
    }

    /// The cell at `i`.
    pub fn cell(&self, i: usize) -> (r: u8)
        requires
            i < self@.tape.len(),
        ensures
            r == self@.tape[i as int],
    {
        self.tape[i]
    }

    /// Tells whether the next step is an `Input` instruction, which takes a byte.
    pub fn wants_input(&self, ops: &Vec<Op>) -> (r: bool)
        ensures
            r == (0 <= self@.pc < ops@.len() && ops@[self@.pc] is Input),
    {
        self.pc < ops.len() && matches!(ops[self.pc], Op::Input)
    }

    /// Runs one instruction of `ops`.
    pub fn step(&mut self, ops: &Vec<Op>, input: Option<u8>) -> (r: Step)
        ensures
            (r, final(self)@) == step_spec(ops@, old(self)@, input),
    {
        if self.pc >= ops.len() {
            return Step::Halted;
        }
        let op = ops[self.pc];
        let ptr = self.ptr;
        match op {
            Op::PtrAdd(n) => {
                self.ptr = ptr.wrapping_add(n);
                self.pc = self.pc + 1;
                return Step::Continue;
            },
            Op::PtrSub(n) => {
                self.ptr = ptr.wrapping_sub(n);
                self.pc = self.pc + 1;
                return Step::Continue;
            },
            _ => {},
        }
        if ptr >= self.tape.len() {
            return Step::Fault;
        }
        let c = self.tape[ptr];
        match op {
            Op::ValAdd(n) => {
                self.tape.set(ptr, c.wrapping_add(n));
            },
            Op::ValSub(n) => {
                self.tape.set(ptr, c.wrapping_sub(n));
            },
            Op::Output => {
                self.pc = self.pc + 1;
                return Step::Output(c);
            },
            Op::Input => {
                if let Some(b) = input {
                    self.tape.set(ptr, b);
                }
            },
            Op::Jz(t) => {
                if c == 0 {
                    self.pc = t;
                    return Step::Continue;
                }
            },
            Op::Jnz(t) => {
                if c != 0 {
                    self.pc = t;
                    return Step::Continue;
                }
            },
            Op::Clear => {
                self.tape.set(ptr, 0);
            },
            Op::MulAdd(o, f) => {
                if c != 0 {
                    let a = if o >= 0 {
                        ptr.wrapping_add(o as usize)
                    } else {
                        ptr.wrapping_sub(((-(o + 1)) as usize) + 1)
                    };
                    if a >= self.tape.len() {
                        return Step::Fault;
                    }
                    let v = self.tape[a];
                    self.tape.set(a, v.wrapping_add(c.wrapping_mul(f)));
                    proof {
                        assert((v + c * f) % 256 == (v + (c * f) % 256) % 256) by (nonlinear_arith);
                    }
                }
            },
            Op::ScanLeft => {
                match zero_before(&self.tape, ptr) {
                    Some(z) => {
                        self.ptr = z;
                    },
                    None => {
                        return Step::Fault;
                    },
                }
            },
            _ => {
                let z = zero_after(&self.tape, ptr);
                if z >= self.tape.len() {
                    return Step::Fault;
                }
                self.ptr = z;
            },
        }
        self.pc = self.pc + 1;
        Step::Continue
    }
}

/// How a run ended.
#[derive(Debug, Clone, Copy, PartialEq, Eq, Structural)]
pub enum Status {
    /// The program counter ran past the last instruction.
    Halted,
    /// An instruction addressed a cell outside the tape.
    Fault,
    /// The step budget ran out first.
    OutOfSteps,
}

/// The state of a fresh run.
pub open spec fn fresh_state() -> MachineState {
    MachineState { tape: Seq::new(TAPE_LEN as nat, |i: int| 0u8), ptr: 0, pc: 0 }
}

/// Running `ops` from `s` for at most `fuel` steps, reading `input` a byte at
/// a time: how the run ended, the bytes written, and the final state.
pub open spec fn run_from(ops: Seq<Op>, s: MachineState, input: Seq<u8>, fuel: nat) -> (
    Status,
    Seq<u8>,
    MachineState,
)
    decreases fuel,
{
    if fuel == 0 {
        (Status::OutOfSteps, Seq::empty(), s)
    } else {
        let takes = 0 <= s.pc < ops.len() && ops[s.pc] is Input && input.len() > 0;
        let byte = if takes {
            Some(input[0])
        } else {
            None
        };
        let rest = if takes {
            input.drop_first()
        } else {
            input
        };
        let (done, next) = step_spec(ops, s, byte);
        match done {
            Step::Halted => (Status::Halted, Seq::empty(), s),
            Step::Fault => (Status::Fault, Seq::empty(), s),
            Step::Continue => run_from(ops, next, rest, (fuel - 1) as nat),
            Step::Output(b) => {
                let (status, out, last) = run_from(ops, next, rest, (fuel - 1) as nat);
                (status, seq![b] + out, last)
            },
        }
    }
}

/// The end of a run.
pub struct Run {
    pub machine: Machine,
    pub output: Vec<u8>,
    pub status: Status,
}

/// Runs `ops` on a fresh machine for at most `max_steps` steps, reading
/// `input` a byte at a time and collecting what is written.
pub fn execute(ops: &Vec<Op>, input: &Vec<u8>, max_steps: usize) -> (r: Run)
    ensures
        (r.status, r.output@, r.machine@) == run_from(
            ops@,
            fresh_state(),
            input@,
            max_steps as nat,
        ),
{
    let mut machine = Machine::new();
    let mut output: Vec<u8> = Vec::new();
    let mut k: usize = 0;
    let mut left = max_steps;
    proof {
        assert(input@.skip(0) =~= input@);
    }
    while left > 0
        invariant
            k <= input@.len(),
            ({
                let (status, out, last) = run_from(ops@, machine@, input@.skip(k as int), left as nat);
                run_from(ops@, fresh_state(), input@, max_steps as nat) == (status, output@ + out, last)
            }),
        decreases left,
    {
        let takes = machine.wants_input(ops) && k < input.len();
        let byte = if takes {
            Some(input[k])
        } else {
            None
        };
        let ghost before = machine@;
        proof {
            if takes {
                assert(input@.skip(k as int).drop_first() =~= input@.skip(k + 1));
            }
        }
        let done = machine.step(ops, byte);
        match done {
            Step::Halted => {
                proof {
                    assert(output@ + Seq::<u8>::empty() =~= output@);
                }
                return Run { machine, output, status: Status::Halted };
            },
            Step::Fault => {
                proof {
                    assert(output@ + Seq::<u8>::empty() =~= output@);
                }
                return Run { machine, output, status: Status::Fault };
            },
            Step::Continue => {},
            Step::Output(b) => {
                let ghost prior = output@;
                output.push(b);
                proof {
                    let (status, out, last) = run_from(
                        ops@,
                        machine@,
                        if takes { input@.skip(k + 1) } else { input@.skip(k as int) },
                        (left - 1) as nat,
                    );
                    assert(prior + (seq![b] + out) =~= output@ + out);
                }
            },
        }
        if takes {
            k = k + 1;
        }
        left = left - 1;
    }
    proof {
        assert(output@ + Seq::<u8>::empty() =~= output@);
    }
    Run { machine, output, status: Status::OutOfSteps }
}

/// A run that reaches an instruction touching a cell off the tape (the cell
/// under the cursor, or the target of a `MulAdd` from a cell that is not zero)
/// ends there with a fault: no later instruction runs, no further byte is
/// written, and no cell is touched.
pub proof fn lemma_off_tape_ends_run(ops: Seq<Op>, s: MachineState, input: Seq<u8>, fuel: nat)
    requires
        fuel >= 1,
        0 <= s.pc < ops.len(),
        !(ops[s.pc] is PtrAdd || ops[s.pc] is PtrSub),
        !in_tape(s, s.ptr) || (ops[s.pc] matches Op::MulAdd(o, _) && s.tape[s.ptr] != 0
            && !in_tape(s, wrap_usize(s.ptr + o))),
    ensures
        run_from(ops, s, input, fuel) == (Status::Fault, Seq::<u8>::empty(), s),
{
}

/// A step that reads no input and goes on hands the rest of the run to the
/// state it reaches.
pub(crate) proof fn lemma_run_continues(
    ops: Seq<Op>,
    s: MachineState,
    next: MachineState,
    input: Seq<u8>,
    fuel: nat,
)
    requires
        fuel >= 1,
        0 <= s.pc < ops.len(),
        !(ops[s.pc] is Input),
        step_spec(ops, s, None) == (Step::Continue, next),
    ensures
        run_from(ops, s, input, fuel) == run_from(ops, next, input, (fuel - 1) as nat),
{
}

/// Moving a cursor that stands at `x` reduced modulo its range is reducing
/// the moved position.
pub(crate) proof fn lemma_wrap_step(x: int, k: int)
    requires
        0 <= k <= usize::MAX,
    ensures
        wrap_usize(x % (usize::MAX + 1) + k) == (x + k) % (usize::MAX + 1),
        wrap_usize(x % (usize::MAX + 1) - k) == (x - k) % (usize::MAX + 1),
{
    let m = usize::MAX + 1;
    vstd::arithmetic::div_mod::lemma_mod_bound(x, m);
    let r = x % m;
    vstd::arithmetic::div_mod::lemma_add_mod_noop_right(k, x, m);
    vstd::arithmetic::div_mod::lemma_add_mod_noop_right(-k, x, m);
    if r + k < m {
        vstd::arithmetic::div_mod::lemma_small_mod((r + k) as nat, m as nat);
    } else {
        vstd::arithmetic::div_mod::lemma_mod_sub_multiples_vanish(r + k, m);
        vstd::arithmetic::div_mod::lemma_small_mod((r + k - m) as nat, m as nat);
    }
    if r - k >= 0 {
        vstd::arithmetic::div_mod::lemma_small_mod((r - k) as nat, m as nat);
    } else {
        vstd::arithmetic::div_mod::lemma_mod_add_multiples_vanish(r - k, m);
        vstd::arithmetic::div_mod::lemma_small_mod((m + r - k) as nat, m as nat);
    }
}

/// The instruction at `s` reaches for a cell off the tape: the cell under the
/// cursor, the target of a `MulAdd` from a cell that is not zero, or, for a
/// scan, a zero cell that the tape does not have.
pub open spec fn reaches_off_tape(ops: Seq<Op>, s: MachineState) -> bool {
    &&& 0 <= s.pc < ops.len()
    &&& !(ops[s.pc] is PtrAdd || ops[s.pc] is PtrSub)
    &&& {
        ||| !in_tape(s, s.ptr)
        ||| ops[s.pc] matches Op::MulAdd(o, _) && s.tape[s.ptr] != 0 && !in_tape(
            s,
            wrap_usize(s.ptr + o),
        )
        ||| ops[s.pc] is ScanLeft && zero_at_or_before(s.tape, s.ptr) < 0
        ||| ops[s.pc] is ScanRight && zero_at_or_after(s.tape, s.ptr) >= s.tape.len()
    }
}

/// A run ends with a fault only at an instruction that reaches for a cell off
/// the tape, and the state it ends in is the one before that instruction:
/// a faulting access never lands on a cell of the tape instead.
pub proof fn lemma_fault_only_off_tape(ops: Seq<Op>, s: MachineState, input: Seq<u8>, fuel: nat)
    ensures
        run_from(ops, s, input, fuel).0 == Status::Fault ==> reaches_off_tape(
            ops,
            run_from(ops, s, input, fuel).2,
        ),
    decreases fuel,
{
    if fuel > 0 {
        let takes = 0 <= s.pc < ops.len() && ops[s.pc] is Input && input.len() > 0;
        let byte = if takes {
            Some(input[0])
        } else {
            None
        };
        let rest = if takes {
            input.drop_first()
        } else {
            input
        };
        let next = step_spec(ops, s, byte).1;
        lemma_fault_only_off_tape(ops, next, rest, (fuel - 1) as nat);
    }
}

} // verus!
