//! The virtual machine: a tape of wraparound cells, a cell pointer, a
//! program counter, and a fetch-dispatch-advance loop over a resolved
//! program, against one readable and one writable byte stream.
//!
//! The machine's behaviour is stated against an abstract small-step
//! model: `step` gives the effect of one instruction on an abstract
//! state, `run_steps` iterates it, and the execution entry point is
//! proved to land exactly where the model says.

use vstd::prelude::*;

use crate::cell::byte_of;
use crate::cell::CellKind;
use crate::stream::write_all;
use crate::stream::write_one;
use crate::stream::InputStream;
use crate::stream::OutputStream;
use crate::stream::StreamError;
use crate::types::Instruction;
use crate::types::Program;
use crate::types::RawInstruction;

verus! {

/// A runtime failure of the machine, carrying the offending instruction
/// for diagnostics.
#[derive(Debug, PartialEq, Eq, Structural, Copy, Clone)]
pub enum VMError {
    /// The pointer moved below cell zero, or past the fixed end of a
    /// non-elastic tape.
    HeadOutOfMemory(Instruction),
    /// The pointer was observed outside the tape during a cell mutation.
    /// A defensive check: the pointer invariant keeps it unreachable.
    BrokenHead(Instruction),
    /// A bracket instruction has no recorded partner: resolution was
    /// skipped, or is inconsistent with the instruction sequence.
    BrokenLoop(Instruction),
    /// A byte stream operation failed, wrapping the stream's own failure.
    IOError(StreamError, Instruction),
}

/// What a bounded run reports when no failure occurred.
#[derive(Debug, PartialEq, Eq, Structural, Copy, Clone)]
pub enum RunStatus {
    /// The program counter reached the end of the instruction sequence.
    Halted,
    /// The step budget ran out first; calling again continues the run.
    Running,
}

/// The abstract machine state: program counter, cell pointer, the cell
/// values of the tape, the position of the next input byte, and the
/// bytes written so far.
pub ghost struct ExecState {
    /// Program counter.
    pub pc: int,
    /// Cell pointer.
    pub head: int,
    /// The value of every tape cell.
    pub cells: Seq<int>,
    /// Position of the next byte to read from the input.
    pub in_pos: int,
    /// Bytes written to the output so far in this run.
    pub out: Seq<u8>,
}

/// Everything that stays fixed during a run: the instruction sequence,
/// the bracket jump table, the input bytes, the cell modulus, and the
/// memory policy.
pub ghost struct ExecEnv {
    /// The resolved instruction sequence.
    pub instrs: Seq<Instruction>,
    /// The bracket jump table: partner index for each bracket index.
    pub jumps: Map<int, int>,
    /// The bytes the input stream holds.
    pub input: Seq<u8>,
    /// The cell modulus: increments and decrements wrap modulo this.
    pub modulus: int,
    /// Whether moving right past the end grows the tape.
    pub elastic: bool,
}

/// An abstract runtime failure; `error_for` maps it to the error the
/// machine returns.
pub ghost enum Fault {
    /// See `VMError::HeadOutOfMemory`.
    HeadOutOfMemory,
    /// See `VMError::BrokenHead`.
    BrokenHead,
    /// See `VMError::BrokenLoop`.
    BrokenLoop,
    /// The input stream was exhausted.
    EndOfInput,
}

/// The error the machine returns for an abstract fault at the given
/// instruction.
pub open spec fn error_for(f: Fault, inst: Instruction) -> VMError {
    match f {
        Fault::HeadOutOfMemory => VMError::HeadOutOfMemory(inst),
        Fault::BrokenHead => VMError::BrokenHead(inst),
        Fault::BrokenLoop => VMError::BrokenLoop(inst),
        Fault::EndOfInput => VMError::IOError(StreamError::EndOfStream, inst),
    }
}

/// The effect of the instruction at `s.pc` on the abstract state, for a
/// state whose program counter is a valid instruction index.
///
/// A loop start on a zero cell transfers control just past its matching
/// loop end; a loop end always returns to its matching loop start,
/// which re-tests the cell. The out-of-range-pointer branches of the
/// cell instructions mirror the machine's defensive checks and are
/// unreachable while the pointer invariant holds.
pub open spec fn step(env: ExecEnv, s: ExecState) -> Result<ExecState, Fault> {
    match env.instrs[s.pc].instruction {
        RawInstruction::MoveLeft => {
            if s.head == 0 {
                Err(Fault::HeadOutOfMemory)
            } else {
                Ok(ExecState { pc: s.pc + 1, head: s.head - 1, ..s })
            }
        },
        RawInstruction::MoveRight => {
            if s.head == s.cells.len() - 1 {
                if env.elastic {
                    Ok(ExecState { pc: s.pc + 1, head: s.head + 1, cells: s.cells.push(0), ..s })
                } else {
                    Err(Fault::HeadOutOfMemory)
                }
            } else {
                Ok(ExecState { pc: s.pc + 1, head: s.head + 1, ..s })
            }
        },
        RawInstruction::Increment => {
            if 0 <= s.head < s.cells.len() {
                Ok(
                    ExecState {
                        pc: s.pc + 1,
                        cells: s.cells.update(s.head, (s.cells[s.head] + 1) % env.modulus),
                        ..s
                    },
                )
            } else {
                Err(Fault::BrokenHead)
            }
        },
        RawInstruction::Decrement => {
            if 0 <= s.head < s.cells.len() {
                Ok(
                    ExecState {
                        pc: s.pc + 1,
                        cells: s.cells.update(
                            s.head,
                            (s.cells[s.head] - 1 + env.modulus) % env.modulus,
                        ),
                        ..s
                    },
                )
            } else {
                Err(Fault::BrokenHead)
            }
        },
        RawInstruction::Input => {
            if 0 <= s.head < s.cells.len() {
                if s.in_pos < env.input.len() {
                    Ok(
                        ExecState {
                            pc: s.pc + 1,
                            cells: s.cells.update(
                                s.head,
                                (env.input[s.in_pos] as int) % env.modulus,
                            ),
                            in_pos: s.in_pos + 1,
                            ..s
                        },
                    )
                } else {
                    Err(Fault::EndOfInput)
                }
            } else {
                Ok(ExecState { pc: s.pc + 1, ..s })
            }
        },
        RawInstruction::Output => {
            if 0 <= s.head < s.cells.len() {
                Ok(ExecState { pc: s.pc + 1, out: s.out.push(byte_of(s.cells[s.head])), ..s })
            } else {
                Ok(ExecState { pc: s.pc + 1, ..s })
            }
        },
        RawInstruction::BeginLoop => {
            if env.jumps.contains_key(s.pc) {
                if s.cells[s.head] == 0 {
                    Ok(ExecState { pc: env.jumps[s.pc] + 1, ..s })
                } else {
                    Ok(ExecState { pc: s.pc + 1, ..s })
                }
            } else {
                Err(Fault::BrokenLoop)
            }
        },
        RawInstruction::EndLoop => {
            if env.jumps.contains_key(s.pc) {
                Ok(ExecState { pc: env.jumps[s.pc], ..s })
            } else {
                Err(Fault::BrokenLoop)
            }
        },
    }
}

/// The outcome of iterating the model: still running (which includes
/// having halted, program counter at the end), or failed at some state.
pub ghost enum RunOutcome {
    /// No failure so far; `state` is the machine state.
    Running {
        /// The machine state reached.
        state: ExecState,
    },
    /// The instruction at `state.pc` failed with `fault`.
    Failed {
        /// The machine state at the failure.
        state: ExecState,
        /// The failure itself.
        fault: Fault,
    },
}

/// The state of an outcome.
pub open spec fn outcome_state(o: RunOutcome) -> ExecState {
    match o {
        RunOutcome::Running { state } => state,
        RunOutcome::Failed { state, .. } => state,
    }
}

/// The fault of a failed outcome.
pub open spec fn outcome_fault(o: RunOutcome) -> Option<Fault> {
    match o {
        RunOutcome::Running { .. } => None,
        RunOutcome::Failed { fault, .. } => Some(fault),
    }
}

/// The outcome after at most `n` steps of the model from `init`: a
/// failure is final, a program counter outside the instruction sequence
/// stays put, and otherwise one more instruction runs.
pub open spec fn run_steps(env: ExecEnv, init: ExecState, n: nat) -> RunOutcome
    decreases n,
{
    if n == 0 {
        RunOutcome::Running { state: init }
    } else {
        let prev = run_steps(env, init, (n - 1) as nat);
        match prev {
            RunOutcome::Failed { .. } => prev,
            RunOutcome::Running { state } => {
                if !(0 <= state.pc < env.instrs.len()) {
                    prev
                } else {
                    match step(env, state) {
                        Ok(next) => RunOutcome::Running { state: next },
                        Err(fault) => RunOutcome::Failed { state, fault },
                    }
                }
            },
        }
    }
}

/// Once the model is still running after `a` steps, running `a + b`
/// steps from the start is running `b` steps from where it stood.
pub proof fn lemma_run_steps_compose(env: ExecEnv, init: ExecState, a: nat, b: nat)
    requires
        run_steps(env, init, a) is Running,
    ensures
        run_steps(env, init, a + b) == run_steps(env, outcome_state(run_steps(env, init, a)), b),
    decreases b,
{
    if b > 0 {
        lemma_run_steps_compose(env, init, a, (b - 1) as nat);
        assert(a + b - 1 == a + (b - 1));
    }
}

/// The instruction sequence that drains the current cell: one loop
/// whose body is a single decrement.
pub open spec fn is_clear_loop_program(env: ExecEnv) -> bool {
    &&& env.instrs.len() == 3
    &&& env.instrs[0].instruction is BeginLoop
    &&& env.instrs[1].instruction is Decrement
    &&& env.instrs[2].instruction is EndLoop
    &&& env.jumps.contains_key(0) && env.jumps[0] == 2
    &&& env.jumps.contains_key(2) && env.jumps[2] == 0
}

/// Law: the clear loop terminates — started on a cell holding any value,
/// it decrements the cell to exactly zero and then exits the loop, in
/// some finite number of steps, touching nothing else.
pub proof fn lemma_clear_loop_drains(env: ExecEnv, init: ExecState)
    requires
        is_clear_loop_program(env),
        env.modulus >= 2,
        init.pc == 0,
        0 <= init.head < init.cells.len(),
        0 <= init.cells[init.head] < env.modulus,
    ensures
        exists|n: nat|
            #![trigger run_steps(env, init, n)]
            {
                let o = run_steps(env, init, n);
                &&& o is Running
                &&& outcome_state(o).pc == 3
                &&& outcome_state(o).head == init.head
                &&& outcome_state(o).cells == init.cells.update(init.head, 0)
                &&& outcome_state(o).in_pos == init.in_pos
                &&& outcome_state(o).out == init.out
            },
    decreases init.cells[init.head],
{
    let v = init.cells[init.head];
    if v == 0 {
        let s1 = ExecState { pc: env.jumps[0] + 1, ..init };
        assert(step(env, init) == Ok::<ExecState, Fault>(s1));
        assert(run_steps(env, init, 1nat) == (RunOutcome::Running { state: s1 }));
        assert(init.cells.update(init.head, 0) =~= init.cells);
        assert({
            let o = run_steps(env, init, 1nat);
            &&& o is Running
            &&& outcome_state(o).pc == 3
            &&& outcome_state(o).head == init.head
            &&& outcome_state(o).cells == init.cells.update(init.head, 0)
            &&& outcome_state(o).in_pos == init.in_pos
            &&& outcome_state(o).out == init.out
        });
    } else {
        let s1 = ExecState { pc: 1, ..init };
        assert(step(env, init) == Ok::<ExecState, Fault>(s1));
        let w = (v - 1 + env.modulus) % env.modulus;
        assert(w == v - 1) by {
            vstd::arithmetic::div_mod::lemma_mod_add_multiples_vanish(v - 1, env.modulus);
            vstd::arithmetic::div_mod::lemma_small_mod((v - 1) as nat, env.modulus as nat);
        }
        let s2 = ExecState { pc: 2, cells: init.cells.update(init.head, v - 1), ..init };
        assert(step(env, s1) == Ok::<ExecState, Fault>(s2));
        let s3 = ExecState { pc: 0, ..s2 };
        assert(step(env, s2) == Ok::<ExecState, Fault>(s3));
        assert(run_steps(env, init, 1nat) == (RunOutcome::Running { state: s1 }));
        assert(run_steps(env, init, 2nat) == (RunOutcome::Running { state: s2 }));
        assert(run_steps(env, init, 3nat) == (RunOutcome::Running { state: s3 }));
        assert(s3.cells[s3.head] == v - 1);
        lemma_clear_loop_drains(env, s3);
        let n2 = choose|n2: nat|
            #![trigger run_steps(env, s3, n2)]
            {
                let o = run_steps(env, s3, n2);
                &&& o is Running
                &&& outcome_state(o).pc == 3
                &&& outcome_state(o).head == s3.head
                &&& outcome_state(o).cells == s3.cells.update(s3.head, 0)
                &&& outcome_state(o).in_pos == s3.in_pos
                &&& outcome_state(o).out == s3.out
            };
        lemma_run_steps_compose(env, init, 3nat, n2);
        assert(s3.cells.update(s3.head, 0) =~= init.cells.update(init.head, 0));
        assert({
            let o = run_steps(env, init, (3 + n2) as nat);
            &&& o is Running
            &&& outcome_state(o).pc == 3
            &&& outcome_state(o).head == init.head
            &&& outcome_state(o).cells == init.cells.update(init.head, 0)
            &&& outcome_state(o).in_pos == init.in_pos
            &&& outcome_state(o).out == init.out
        });
    }
}

/// The instruction sequence of `n` consecutive read-then-write pairs:
/// each even index reads a byte, each odd index writes it back out.
pub open spec fn is_echo_program(ins: Seq<Instruction>, n: nat) -> bool {
    &&& ins.len() == 2 * n
    &&& forall|k: int|
        0 <= k < ins.len() ==> (#[trigger] ins[k].instruction) == (if k % 2 == 0 {
            RawInstruction::Input
        } else {
            RawInstruction::Output
        })
}

/// The state after `k` echo pairs: the counters have advanced in step,
/// the output is the input prefix read so far, and only the current
/// cell has been touched.
spec fn echo_state(env: ExecEnv, init: ExecState, k: nat) -> ExecState {
    ExecState {
        pc: 2 * k as int,
        head: init.head,
        cells: if k == 0 {
            init.cells
        } else {
            init.cells.update(init.head, (env.input[k - 1] as int) % env.modulus)
        },
        in_pos: k as int,
        out: env.input.take(k as int),
    }
}

/// After `k` echo pairs the model stands exactly at the `k`-th echo
/// state.
proof fn lemma_echo_prefix(env: ExecEnv, init: ExecState, n: nat, k: nat)
    requires
        is_echo_program(env.instrs, n),
        env.input.len() == n,
        env.modulus >= 256,
        init.pc == 0,
        init.in_pos == 0,
        init.out == Seq::<u8>::empty(),
        0 <= init.head < init.cells.len(),
        k <= n,
    ensures
        run_steps(env, init, 2 * k) == (RunOutcome::Running { state: echo_state(env, init, k) }),
    decreases k,
{
    if k == 0 {
        assert(env.input.take(0) =~= Seq::<u8>::empty());
        assert(echo_state(env, init, 0) == init);
    } else {
        lemma_echo_prefix(env, init, n, (k - 1) as nat);
        let s0 = echo_state(env, init, (k - 1) as nat);
        let b = env.input[k - 1];
        assert(env.instrs[s0.pc].instruction is Input);
        assert(s0.in_pos < env.input.len());
        let s1 = ExecState {
            pc: s0.pc + 1,
            cells: s0.cells.update(init.head, (b as int) % env.modulus),
            in_pos: s0.in_pos + 1,
            ..s0
        };
        assert(step(env, s0) == Ok::<ExecState, Fault>(s1));
        assert(env.instrs[s1.pc].instruction is Output) by {
            assert((2 * k - 1) % 2 == 1);
        }
        assert((b as int) % env.modulus == b as int) by {
            vstd::arithmetic::div_mod::lemma_small_mod(b as nat, env.modulus as nat);
        }
        assert(byte_of(s1.cells[s1.head]) == b) by {
            vstd::arithmetic::div_mod::lemma_small_mod(b as nat, 256nat);
        }
        let s2 = ExecState { pc: s1.pc + 1, out: s1.out.push(b), ..s1 };
        assert(step(env, s1) == Ok::<ExecState, Fault>(s2));
        assert(run_steps(env, init, (2 * k - 1) as nat) == (RunOutcome::Running { state: s1 }));
        assert(run_steps(env, init, 2 * k) == (RunOutcome::Running { state: s2 }));
        assert(s2.cells =~= echo_state(env, init, k).cells);
        assert(s2.out =~= env.input.take(k as int)) by {
            assert(env.input.take(k - 1).push(b) =~= env.input.take(k as int));
        }
        assert(s2 == echo_state(env, init, k));
    }
}

/// Law: round trip — feeding any input byte sequence of length `n`
/// through `n` consecutive read-then-write pairs halts with the output
/// byte sequence equal to the input byte sequence.
pub proof fn lemma_echo_round_trip(env: ExecEnv, init: ExecState, n: nat)
    requires
        is_echo_program(env.instrs, n),
        env.input.len() == n,
        env.modulus >= 256,
        init.pc == 0,
        init.in_pos == 0,
        init.out == Seq::<u8>::empty(),
        0 <= init.head < init.cells.len(),
    ensures
        run_steps(env, init, 2 * n) is Running,
        outcome_state(run_steps(env, init, 2 * n)).pc == env.instrs.len(),
        outcome_state(run_steps(env, init, 2 * n)).out == env.input,
{
    lemma_echo_prefix(env, init, n, n);
    assert(env.input.take(n as int) =~= env.input);
}

/// The tape length a requested size stands for: zero or absent means
/// the default of 30000 cells.
pub open spec fn requested_tape_len(size: Option<usize>) -> int {
    match size {
        Some(n) => if n == 0 {
            30000
        } else {
            n as int
        },
        None => 30000,
    }
}

/// The virtual machine: a tape of cells, a cell pointer, a program
/// counter, a memory policy, and a shared read-only borrow of the
/// program it executes. The machine never outlives the program, and a
/// program may drive any number of machines.
#[derive(Debug)]
pub struct VirtualMachine<'a, Number> {
    memory: Vec<Number>,
    head: usize,
    elastic: bool,
    program_counter: usize,
    program: &'a Program,
}

impl<'a, Number: CellKind> VirtualMachine<'a, Number> {
    /// The value of every tape cell.
    pub closed spec fn cells(&self) -> Seq<int> {
        self.memory@.map(|k: int, c: Number| c.cell_val())
    }

    /// The cell pointer.
    pub closed spec fn head_spec(&self) -> int {
        self.head as int
    }

    /// The program counter.
    pub closed spec fn pc_spec(&self) -> int {
        self.program_counter as int
    }

    /// Whether moving right past the end grows the tape.
    pub closed spec fn elastic_spec(&self) -> bool {
        self.elastic
    }

    /// The program the machine executes.
    pub closed spec fn prog(&self) -> Program {
        *self.program
    }

    /// The machine's invariant: a non-empty tape, the pointer a valid
    /// tape index, a well-formed program, and the program counter at
    /// most one past the last instruction.
    pub open spec fn wf(&self) -> bool {
        &&& self.cells().len() >= 1
        &&& 0 <= self.head_spec() < self.cells().len()
        &&& self.prog().wf()
        &&& 0 <= self.pc_spec() <= self.prog().instrs().len()
    }

    /// The fixed part of the abstract model for a run against the given
    /// input bytes.
    pub open spec fn env(&self, input: Seq<u8>) -> ExecEnv {
        ExecEnv {
            instrs: self.prog().instrs(),
            jumps: self.prog().jumps(),
            input,
            modulus: Number::modulus(),
            elastic: self.elastic_spec(),
        }
    }

    /// The abstract state the machine currently stands in, for a run
    /// whose next input byte is at `in_pos` and that has written `out`.
    pub open spec fn state(&self, in_pos: int, out: Seq<u8>) -> ExecState {
        ExecState {
            pc: self.pc_spec(),
            head: self.head_spec(),
            cells: self.cells(),
            in_pos,
            out,
        }
    }

    /// The machine and the two streams stand exactly where the abstract
    /// state `s` says, with the output's buffer and cursor reached from
    /// `out_buf` and `out_pos` by writing `s.out`.
    pub open spec fn matches_state(
        &self,
        input: InputStream,
        output: OutputStream,
        out_buf: Seq<u8>,
        out_pos: int,
        s: ExecState,
    ) -> bool {
        &&& self.cells() == s.cells
        &&& self.head_spec() == s.head
        &&& self.pc_spec() == s.pc
        &&& input.position() == s.in_pos
        &&& (output.contents(), output.position()) == write_all(out_buf, out_pos, s.out)
    }

    /// Build a machine over `program` with a fresh zeroed tape of the
    /// requested size (0 or absent meaning 30000 cells), the pointer and
    /// program counter at zero, and the given memory policy.
    pub fn new(program: &'a Program, size: Option<usize>, elastic: bool) -> (vm: Self)
        requires
            program.wf(),
        ensures
            vm.prog() == *program,
            vm.pc_spec() == 0,
            vm.head_spec() == 0,
            vm.elastic_spec() == elastic,
            vm.cells().len() == requested_tape_len(size),
            forall|k: int| 0 <= k < vm.cells().len() ==> vm.cells()[k] == 0,
            vm.wf(),
    {
        let size: usize = match size {
            Some(0) => 30000,
            Some(n) => n,
            None => 30000,
        };
        let mut memory: Vec<Number> = Vec::new();
        while memory.len() < size
            invariant
                memory@.len() <= size,
                forall|k: int| 0 <= k < memory@.len() ==> #[trigger] memory@[k].cell_val() == 0,
            decreases size - memory@.len(),
        {
            memory.push(Number::zero());
        }
        let vm = VirtualMachine { program, memory, head: 0, elastic, program_counter: 0 };
        proof {
            assert(forall|k: int|
                0 <= k < vm.cells().len() ==> vm.cells()[k] == #[trigger] vm.memory@[k].cell_val());
        }
        vm
    }

    /// How many cells the tape currently has.
    pub fn memory_len(&self) -> (r: usize)
        ensures
            r == self.cells().len(),
    {
        self.memory.len()
    }

    /// The current cell pointer.
    pub fn head_index(&self) -> (r: usize)
        ensures
            r == self.head_spec(),
    {
        self.head
    }

    /// Move the pointer one cell to the left; fail at the tape's fixed
    /// left boundary.
    pub fn move_head_left(&mut self) -> (r: Result<(), VMError>)
        requires
            old(self).wf(),
            old(self).pc_spec() < old(self).prog().instrs().len(),
        ensures
            final(self).wf(),
            final(self).prog() == old(self).prog(),
            final(self).elastic_spec() == old(self).elastic_spec(),
            final(self).pc_spec() == old(self).pc_spec(),
            final(self).cells() == old(self).cells(),
            old(self).head_spec() == 0 ==> r == Err::<(), VMError>(
                VMError::HeadOutOfMemory(old(self).prog().instrs()[old(self).pc_spec()]),
            ) && final(self).head_spec() == old(self).head_spec(),
            old(self).head_spec() > 0 ==> r == Ok::<(), VMError>(()) && final(self).head_spec()
                == old(self).head_spec() - 1,
    {
        if self.head == 0 {
            Err(VMError::HeadOutOfMemory(self.program.instructions()[self.program_counter]))
        } else {
            self.head = self.head - 1;
            Ok(())
        }
    }

    /// Move the pointer one cell to the right. At the last cell of an
    /// elastic tape, append one zero-valued cell and advance; at the
    /// last cell of a fixed tape, fail.
    pub fn move_head_right(&mut self) -> (r: Result<(), VMError>)
        requires
            old(self).wf(),
            old(self).pc_spec() < old(self).prog().instrs().len(),
        ensures
            final(self).wf(),
            final(self).prog() == old(self).prog(),
            final(self).elastic_spec() == old(self).elastic_spec(),
            final(self).pc_spec() == old(self).pc_spec(),
            old(self).head_spec() < old(self).cells().len() - 1 ==> r == Ok::<(), VMError>(())
                && final(self).head_spec() == old(self).head_spec() + 1 && final(self).cells()
                == old(self).cells(),
            old(self).head_spec() == old(self).cells().len() - 1 && old(self).elastic_spec()
                ==> r == Ok::<(), VMError>(()) && final(self).head_spec() == old(self).head_spec()
                + 1 && final(self).cells() == old(self).cells().push(0),
            old(self).head_spec() == old(self).cells().len() - 1 && !old(self).elastic_spec()
                ==> r == Err::<(), VMError>(
                VMError::HeadOutOfMemory(old(self).prog().instrs()[old(self).pc_spec()]),
            ) && final(self).head_spec() == old(self).head_spec() && final(self).cells() == old(
                self,
            ).cells(),
    {
        if self.elastic || self.head != self.memory.len() - 1 {
            if self.head == self.memory.len() - 1 {
                let ghost before = self.memory@;
                self.memory.push(Number::zero());
                proof {
                    assert(self.cells() =~= before.map(|k: int, c: Number| c.cell_val()).push(0));
                }
            }
            self.head = self.head + 1;
            Ok(())
        } else {
            Err(VMError::HeadOutOfMemory(self.program.instructions()[self.program_counter]))
        }
    }

    /// Wraparound-increment the cell at the pointer. The out-of-bounds
    /// check is defensive: the pointer invariant makes it unreachable,
    /// so the contract owes success.
    pub fn increment_head(&mut self) -> (r: Result<(), VMError>)
        requires
            old(self).wf(),
            old(self).pc_spec() < old(self).prog().instrs().len(),
        ensures
            final(self).wf(),
            final(self).prog() == old(self).prog(),
            final(self).elastic_spec() == old(self).elastic_spec(),
            final(self).pc_spec() == old(self).pc_spec(),
            final(self).head_spec() == old(self).head_spec(),
            r == Ok::<(), VMError>(()),
            final(self).cells() == old(self).cells().update(
                old(self).head_spec(),
                (old(self).cells()[old(self).head_spec()] + 1) % Number::modulus(),
            ),
    {
        if self.head < self.memory.len() {
            let cell = &mut self.memory[self.head];
            cell.wrapping_increment();
            proof {
                assert(self.cells() =~= old(self).cells().update(
                    old(self).head_spec(),
                    (old(self).cells()[old(self).head_spec()] + 1) % Number::modulus(),
                ));
            }
            Ok(())
        } else {
            Err(VMError::BrokenHead(self.program.instructions()[self.program_counter]))
        }
    }

    /// Wraparound-decrement the cell at the pointer. The out-of-bounds
    /// check is defensive, as for `increment_head`.
    pub fn decrement_head(&mut self) -> (r: Result<(), VMError>)
        requires
            old(self).wf(),
            old(self).pc_spec() < old(self).prog().instrs().len(),
        ensures
            final(self).wf(),
            final(self).prog() == old(self).prog(),
            final(self).elastic_spec() == old(self).elastic_spec(),
            final(self).pc_spec() == old(self).pc_spec(),
            final(self).head_spec() == old(self).head_spec(),
            r == Ok::<(), VMError>(()),
            final(self).cells() == old(self).cells().update(
                old(self).head_spec(),
                (old(self).cells()[old(self).head_spec()] - 1 + Number::modulus())
                    % Number::modulus(),
            ),
    {
        if self.head < self.memory.len() {
            let cell = &mut self.memory[self.head];
            cell.wrapping_decrement();
            proof {
                assert(self.cells() =~= old(self).cells().update(
                    old(self).head_spec(),
                    (old(self).cells()[old(self).head_spec()] - 1 + Number::modulus())
                        % Number::modulus(),
                ));
            }
            Ok(())
        } else {
            Err(VMError::BrokenHead(self.program.instructions()[self.program_counter]))
        }
    }

    /// Read exactly one byte from the source into the cell at the
    /// pointer; fail with an I/O error, leaving everything unchanged,
    /// once the source is exhausted.
    pub fn read_into_head(&mut self, reader: &mut InputStream) -> (r: Result<(), VMError>)
        requires
            old(self).wf(),
            old(self).pc_spec() < old(self).prog().instrs().len(),
            old(reader).wf(),
        ensures
            final(self).wf(),
            final(reader).wf(),
            final(reader).contents() == old(reader).contents(),
            final(self).prog() == old(self).prog(),
            final(self).elastic_spec() == old(self).elastic_spec(),
            final(self).pc_spec() == old(self).pc_spec(),
            final(self).head_spec() == old(self).head_spec(),
            old(reader).position() < old(reader).contents().len() ==> r == Ok::<(), VMError>(())
                && final(self).cells() == old(self).cells().update(
                old(self).head_spec(),
                (old(reader).contents()[old(reader).position()] as int) % Number::modulus(),
            ) && final(reader).position() == old(reader).position() + 1,
            old(reader).position() >= old(reader).contents().len() ==> r == Err::<(), VMError>(
                VMError::IOError(
                    StreamError::EndOfStream,
                    old(self).prog().instrs()[old(self).pc_spec()],
                ),
            ) && final(self).cells() == old(self).cells() && final(reader).position() == old(
                reader,
            ).position(),
    {
        if self.head < self.memory.len() {
            let ghost pre = *self;
            let cell = &mut self.memory[self.head];
            let result = cell.from_reader(reader);
            proof {
                if old(reader).position() < old(reader).contents().len() {
                    assert(self.cells() =~= pre.cells().update(
                        pre.head_spec(),
                        (old(reader).contents()[old(reader).position()] as int)
                            % Number::modulus(),
                    ));
                } else {
                    assert(self.cells() =~= pre.cells());
                }
            }
            match result {
                Ok(_) => Ok(()),
                Err(e) => Err(
                    VMError::IOError(e, self.program.instructions()[self.program_counter]),
                ),
            }
        } else {
            Ok(())
        }
    }

    /// Write the cell at the pointer as exactly one byte at the sink's
    /// cursor; with a buffer sink this always succeeds.
    pub fn write_from_head(&self, writer: &mut OutputStream) -> (r: Result<(), VMError>)
        requires
            self.wf(),
            old(writer).wf(),
        ensures
            final(writer).wf(),
            r == Ok::<(), VMError>(()),
            (final(writer).contents(), final(writer).position()) == write_one(
                old(writer).contents(),
                old(writer).position(),
                byte_of(self.cells()[self.head_spec()]),
            ),
    {
        if self.head < self.memory.len() {
            let cell = &self.memory[self.head];
            match cell.to_writer(writer) {
                Ok(_) => Ok(()),
                Err(e) => Err(
                    VMError::IOError(e, self.program.instructions()[self.program_counter]),
                ),
            }
        } else {
            Ok(())
        }
    }

    /// Run the fetch-dispatch-advance loop for at most `max_steps`
    /// instructions against the given streams. The result and the final
    /// machine and stream states are exactly what the abstract model
    /// reaches from the current state: `Ok(Halted)` when the program
    /// counter reaches the end of the instruction sequence within the
    /// budget, `Ok(Running)` when the budget runs out first, and the
    /// model's failure, at the offending instruction, when a step
    /// fails. A run that neither halts nor fails can be continued by
    /// calling again.
    pub fn interpret(
        &mut self,
        input: &mut InputStream,
        output: &mut OutputStream,
        max_steps: usize,
    ) -> (r: Result<RunStatus, VMError>)
        requires
            old(self).wf(),
            old(input).wf(),
            old(output).wf(),
        ensures
            final(self).wf(),
            final(input).wf(),
            final(output).wf(),
            final(self).prog() == old(self).prog(),
            final(self).elastic_spec() == old(self).elastic_spec(),
            final(input).contents() == old(input).contents(),
            ({
                let env = old(self).env(old(input).contents());
                let init = old(self).state(old(input).position(), Seq::empty());
                &&& (r == Ok::<RunStatus, VMError>(RunStatus::Halted) ==> exists|n: nat|
                    #![trigger run_steps(env, init, n)]
                    {
                        let o = run_steps(env, init, n);
                        &&& n <= max_steps
                        &&& o is Running
                        &&& outcome_state(o).pc == env.instrs.len()
                        &&& final(self).matches_state(
                            *final(input),
                            *final(output),
                            old(output).contents(),
                            old(output).position(),
                            outcome_state(o),
                        )
                    })
                &&& (r == Ok::<RunStatus, VMError>(RunStatus::Running) ==> {
                    let o = run_steps(env, init, max_steps as nat);
                    &&& o is Running
                    &&& outcome_state(o).pc < env.instrs.len()
                    &&& final(self).matches_state(
                        *final(input),
                        *final(output),
                        old(output).contents(),
                        old(output).position(),
                        outcome_state(o),
                    )
                })
                &&& (r is Err ==> exists|n: nat|
                    #![trigger run_steps(env, init, n)]
                    {
                        let o = run_steps(env, init, n);
                        &&& n <= max_steps
                        &&& o is Failed
                        &&& r == Err::<RunStatus, VMError>(
                            error_for(
                                outcome_fault(o)->Some_0,
                                env.instrs[outcome_state(o).pc],
                            ),
                        )
                        &&& final(self).matches_state(
                            *final(input),
                            *final(output),
                            old(output).contents(),
                            old(output).position(),
                            outcome_state(o),
                        )
                    })
            }),
    {
        let ghost env = self.env(input.contents());
        let ghost init = self.state(input.position(), Seq::empty());
        let ghost out_buf = output.contents();
        let ghost out_pos = output.position();
        let n_instr = self.program.instructions().len();
        let mut steps: usize = 0;
        let ghost mut cur = init;
        while steps < max_steps && self.program_counter < n_instr
            invariant
                self.wf(),
                input.wf(),
                output.wf(),
                self.prog() == old(self).prog(),
                self.elastic_spec() == old(self).elastic_spec(),
                input.contents() == old(input).contents(),
                env == old(self).env(old(input).contents()),
                init == old(self).state(old(input).position(), Seq::<u8>::empty()),
                out_buf == old(output).contents(),
                out_pos == old(output).position(),
                self.prog().instrs() == env.instrs,
                self.prog().jumps() == env.jumps,
                self.elastic_spec() == env.elastic,
                Number::modulus() == env.modulus,
                input.contents() == env.input,
                n_instr == env.instrs.len(),
                steps <= max_steps,
                run_steps(env, init, steps as nat) == (RunOutcome::Running { state: cur }),
                self.matches_state(*input, *output, out_buf, out_pos, cur),
            decreases max_steps - steps,
        {
            let inst = self.program.instructions()[self.program_counter];
            let ghost pre = cur;
            match inst.instruction {
                RawInstruction::MoveLeft => {
                    match self.move_head_left() {
                        Ok(_) => {
                            self.program_counter = self.program_counter + 1;
                            proof {
                                cur = ExecState { pc: pre.pc + 1, head: pre.head - 1, ..pre };
                                assert(step(env, pre) == Ok::<ExecState, Fault>(cur));
                            }
                        },
                        Err(e) => {
                            proof {
                                assert(step(env, pre) == Err::<ExecState, Fault>(
                                    Fault::HeadOutOfMemory,
                                ));
                                assert(run_steps(env, init, (steps + 1) as nat)
                                    == (RunOutcome::Failed {
                                    state: pre,
                                    fault: Fault::HeadOutOfMemory,
                                }));
                            }
                            return Err(e);
                        },
                    }
                },
                RawInstruction::MoveRight => {
                    match self.move_head_right() {
                        Ok(_) => {
                            self.program_counter = self.program_counter + 1;
                            proof {
                                if pre.head == pre.cells.len() - 1 {
                                    cur = ExecState {
                                        pc: pre.pc + 1,
                                        head: pre.head + 1,
                                        cells: pre.cells.push(0),
                                        ..pre
                                    };
                                } else {
                                    cur = ExecState { pc: pre.pc + 1, head: pre.head + 1, ..pre };
                                }
                                assert(step(env, pre) == Ok::<ExecState, Fault>(cur));
                            }
                        },
                        Err(e) => {
                            proof {
                                assert(step(env, pre) == Err::<ExecState, Fault>(
                                    Fault::HeadOutOfMemory,
                                ));
                                assert(run_steps(env, init, (steps + 1) as nat)
                                    == (RunOutcome::Failed {
                                    state: pre,
                                    fault: Fault::HeadOutOfMemory,
                                }));
                            }
                            return Err(e);
                        },
                    }
                },
                RawInstruction::Increment => {
                    match self.increment_head() {
                        Ok(_) => {
                            self.program_counter = self.program_counter + 1;
                            proof {
                                cur = ExecState {
                                    pc: pre.pc + 1,
                                    cells: pre.cells.update(
                                        pre.head,
                                        (pre.cells[pre.head] + 1) % env.modulus,
                                    ),
                                    ..pre
                                };
                                assert(step(env, pre) == Ok::<ExecState, Fault>(cur));
                            }
                        },
                        Err(e) => {
                            return Err(e);
                        },
                    }
                },
                RawInstruction::Decrement => {
                    match self.decrement_head() {
                        Ok(_) => {
                            self.program_counter = self.program_counter + 1;
                            proof {
                                cur = ExecState {
                                    pc: pre.pc + 1,
                                    cells: pre.cells.update(
                                        pre.head,
                                        (pre.cells[pre.head] - 1 + env.modulus) % env.modulus,
                                    ),
                                    ..pre
                                };
                                assert(step(env, pre) == Ok::<ExecState, Fault>(cur));
                            }
                        },
                        Err(e) => {
                            return Err(e);
                        },
                    }
                },
                RawInstruction::Input => {
                    match self.read_into_head(input) {
                        Ok(_) => {
                            self.program_counter = self.program_counter + 1;
                            proof {
                                cur = ExecState {
                                    pc: pre.pc + 1,
                                    cells: pre.cells.update(
                                        pre.head,
                                        (env.input[pre.in_pos] as int) % env.modulus,
                                    ),
                                    in_pos: pre.in_pos + 1,
                                    ..pre
                                };
                                assert(step(env, pre) == Ok::<ExecState, Fault>(cur));
                            }
                        },
                        Err(e) => {
                            proof {
                                assert(step(env, pre) == Err::<ExecState, Fault>(
                                    Fault::EndOfInput,
                                ));
                                assert(run_steps(env, init, (steps + 1) as nat)
                                    == (RunOutcome::Failed {
                                    state: pre,
                                    fault: Fault::EndOfInput,
                                }));
                            }
                            return Err(e);
                        },
                    }
                },
                RawInstruction::Output => {
                    match self.write_from_head(output) {
                        Ok(_) => {
                            self.program_counter = self.program_counter + 1;
                            proof {
                                let b = byte_of(pre.cells[pre.head]);
                                crate::stream::lemma_write_all_push(out_buf, out_pos, pre.out, b);
                                cur = ExecState { pc: pre.pc + 1, out: pre.out.push(b), ..pre };
                                assert(step(env, pre) == Ok::<ExecState, Fault>(cur));
                            }
                        },
                        Err(e) => {
                            return Err(e);
                        },
                    }
                },
                RawInstruction::BeginLoop => {
                    let z = self.memory[self.head].is_zero();
                    proof {
                        assert(z == (pre.cells[pre.head] == 0));
                    }
                    match self.program.get_matching_bracket(self.program_counter) {
                        Some(j) => {
                            proof {
                                assert(env.jumps.contains_key(pre.pc));
                                assert(env.jumps[pre.pc] == j as int);
                                assert(j < n_instr);
                            }
                            if z {
                                self.program_counter = j + 1;
                            } else {
                                self.program_counter = self.program_counter + 1;
                            }
                            proof {
                                if z {
                                    cur = ExecState { pc: j as int + 1, ..pre };
                                } else {
                                    cur = ExecState { pc: pre.pc + 1, ..pre };
                                }
                                assert(step(env, pre) == Ok::<ExecState, Fault>(cur));
                            }
                        },
                        None => {
                            proof {
                                assert(!env.jumps.contains_key(pre.pc));
                                assert(step(env, pre) == Err::<ExecState, Fault>(
                                    Fault::BrokenLoop,
                                ));
                                assert(run_steps(env, init, (steps + 1) as nat)
                                    == (RunOutcome::Failed {
                                    state: pre,
                                    fault: Fault::BrokenLoop,
                                }));
                            }
                            return Err(VMError::BrokenLoop(inst));
                        },
                    }
                },
                RawInstruction::EndLoop => {
                    match self.program.get_matching_bracket(self.program_counter) {
                        Some(j) => {
                            proof {
                                assert(env.jumps.contains_key(pre.pc));
                                assert(env.jumps[pre.pc] == j as int);
                                assert(j < n_instr);
                            }
                            self.program_counter = j;
                            proof {
                                cur = ExecState { pc: j as int, ..pre };
                                assert(step(env, pre) == Ok::<ExecState, Fault>(cur));
                            }
                        },
                        None => {
                            proof {
                                assert(!env.jumps.contains_key(pre.pc));
                                assert(step(env, pre) == Err::<ExecState, Fault>(
                                    Fault::BrokenLoop,
                                ));
                                assert(run_steps(env, init, (steps + 1) as nat)
                                    == (RunOutcome::Failed {
                                    state: pre,
                                    fault: Fault::BrokenLoop,
                                }));
                            }
                            return Err(VMError::BrokenLoop(inst));
                        },
                    }
                },
            }
            steps = steps + 1;
            proof {
                assert(run_steps(env, init, steps as nat) == (RunOutcome::Running { state: cur }));
            }
        }
        if self.program_counter >= n_instr {
            proof {
                assert(run_steps(env, init, steps as nat) == (RunOutcome::Running { state: cur }));
                assert(cur.pc == env.instrs.len());
            }
            Ok(RunStatus::Halted)
        } else {
            proof {
                assert(steps == max_steps);
            }
            Ok(RunStatus::Running)
        }
    }
}

} // verus!
