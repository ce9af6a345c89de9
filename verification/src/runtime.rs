use vstd::prelude::*;

use crate::device::secdcp_memory::SecurityClass;
use crate::machine::riscv32_integer::MEMORY_SIZE;
use crate::machine::riscv32_integer::execute::EXIT_SEGMENTATION_FAULT;
use crate::machine::riscv32_integer::step::{halted_at, lemma_halt_point, loaded, rejects, step_effect, stepped, uncached};
use crate::machine::{
    is_run, runs_to, stopped_with,
    EXIT_CYCLE_LIMIT, EXIT_ILLEGAL_INSTRUCTION, Machine, MemorySegment, Registers,
    RiscV32IntegerMachine, StepResult,
};

verus! {

broadcast use {
    RiscV32IntegerMachine::lemma_same_periphery,
    RiscV32IntegerMachine::lemma_same_config,
    RiscV32IntegerMachine::lemma_same_memory,
    RiscV32IntegerMachine::lemma_wf_kind,
};

/// Cycles a program runs before a builtin call lets the other program in.
pub const CTX_SWITCH_AFTER_CYCLE_COUNT: u64 = 1_000_000_000;

/// The saved state of one of the programs that share a machine.
#[derive(Clone, Copy)]
struct ExecutionContext {
    registers: Registers,
    memory_segment: MemorySegment,
    security_class: SecurityClass,
    exited: bool,
    exit_code: i32,
}

impl ExecutionContext {
    fn new(entry_pc: u32, memory_segment: MemorySegment, security_class: SecurityClass) -> (c: Self)
        ensures
            c.registers.pc == entry_pc,
            c.memory_segment == memory_segment,
            c.security_class == security_class,
            !c.exited,
            c.exit_code == 0,
    {
        let mut registers = Registers::new();
        registers.pc = entry_pc;
        ExecutionContext { registers, memory_segment, security_class, exited: false, exit_code: 0 }
    }
}

/// Where a program's image goes in memory and where it starts.
#[derive(Debug, Clone, Copy)]
pub struct ProgramLayout {
    pub load_base: u32,
    pub entry_pc: u32,
}

/// Layouts of two programs that share a machine: the first in the lower
/// half of memory, the second in the upper half.
#[derive(Debug, Clone, Copy)]
pub struct DualProgramLayout {
    pub program_a: ProgramLayout,
    pub program_b: ProgramLayout,
}

/// Why two programs cannot share a machine in a given layout.
#[derive(Debug, Clone, Copy, PartialEq, Eq)]
pub enum LayoutError {
    ProgramAOutsideLowerHalf,
    ProgramBOutsideUpperHalf,
    ProgramATooLarge,
    ProgramBTooLarge,
}

impl LayoutError {
    /// What went wrong, in words.
    pub fn message(&self) -> (m: &'static str)
        ensures
            m@ == match self {
                LayoutError::ProgramAOutsideLowerHalf => "program A layout must stay within the first half of memory"@,
                LayoutError::ProgramBOutsideUpperHalf => "program B layout must stay within the second half of memory"@,
                LayoutError::ProgramATooLarge => "program A binary does not fit within the first half of memory"@,
                LayoutError::ProgramBTooLarge => "program B binary does not fit within the second half of memory"@,
            },
    {
        match self {
            LayoutError::ProgramAOutsideLowerHalf => "program A layout must stay within the first half of memory",
            LayoutError::ProgramBOutsideUpperHalf => "program B layout must stay within the second half of memory",
            LayoutError::ProgramATooLarge => "program A binary does not fit within the first half of memory",
            LayoutError::ProgramBTooLarge => "program B binary does not fit within the second half of memory",
        }
    }
}

/// Half the memory: where the second program's segment begins.
pub open spec fn midpoint() -> int {
    MEMORY_SIZE as int / 2
}

/// The first failing requirement of a dual layout for images of
/// `a_len` and `b_len` bytes, if any.
pub open spec fn layout_error(layout: DualProgramLayout, a_len: int, b_len: int) -> Option<LayoutError> {
    if !(layout.program_a.load_base < midpoint() && layout.program_a.entry_pc < midpoint()) {
        Some(LayoutError::ProgramAOutsideLowerHalf)
    } else if !(midpoint() <= layout.program_b.load_base && midpoint() <= layout.program_b.entry_pc) {
        Some(LayoutError::ProgramBOutsideUpperHalf)
    } else if layout.program_a.load_base + a_len > midpoint() {
        Some(LayoutError::ProgramATooLarge)
    } else if layout.program_b.load_base + b_len > MEMORY_SIZE {
        Some(LayoutError::ProgramBTooLarge)
    } else {
        None
    }
}

/// Checks that both programs start and fit in their halves of memory.
pub fn check_dual_layout(layout: DualProgramLayout, a_len: usize, b_len: usize) -> (r: Result<(), LayoutError>)
    ensures
        match layout_error(layout, a_len as int, b_len as int) {
            Some(e) => r == Err::<(), LayoutError>(e),
            None => r is Ok,
        },
{
    let mid: u64 = MEMORY_SIZE / 2;
    if !((layout.program_a.load_base as u64) < mid && (layout.program_a.entry_pc as u64) < mid) {
        Err(LayoutError::ProgramAOutsideLowerHalf)
    } else if !(mid <= layout.program_b.load_base as u64 && mid <= layout.program_b.entry_pc as u64) {
        Err(LayoutError::ProgramBOutsideUpperHalf)
    } else if a_len as u64 > mid - layout.program_a.load_base as u64 {
        Err(LayoutError::ProgramATooLarge)
    } else if b_len as u64 > MEMORY_SIZE - layout.program_b.load_base as u64 {
        Err(LayoutError::ProgramBTooLarge)
    } else {
        Ok(())
    }
}

/// Loads `bytes` at address 0 and runs the program until it halts.
pub fn run_flat_binary_bytes<M: Machine>(machine: &mut M, bytes: &[u8]) -> (code: i32)
    requires
        old(machine).machine_wf(),
        bytes@.len() <= old(machine).capacity(),
    ensures
        final(machine).machine_wf(),
        old(machine).trusted() && old(machine).can_load(bytes@.len()) ==> final(machine).trusted()
            && stopped_with(*final(machine), code),
        old(machine).trusted() && old(machine).can_load(bytes@.len()) ==> exists|start: M|
            #![trigger start.loaded_from(*old(machine), bytes@)]
            start.loaded_from(*old(machine), bytes@) && start.tick_count() == 0 && runs_to(start, *final(machine), code),
{
    machine.load_binary(bytes);
    let ghost start = *machine;
    let code = machine.run_until_halt();
    proof {
        if old(machine).trusted() && old(machine).can_load(bytes@.len()) {
            let (st, rs) = choose|st: Seq<M>, rs: Seq<StepResult>|
                #![trigger st.len(), rs.len()]
                {
                    &&& st.len() == rs.len() + 1
                    &&& st[0] == start
                    &&& st.last() == *machine
                    &&& forall|i: int| 0 <= i < rs.len() ==> st[i].steps_to(st[i + 1], #[trigger] rs[i])
                    &&& forall|i: int| 0 <= i < rs.len() - 1 ==> !(#[trigger] rs[i] is Halt) && !(rs[i] is Unimplemented)
                    &&& if rs.len() > 0 && rs.last() is Halt {
                        code == rs.last()->Halt_0
                    } else if rs.len() > 0 && rs.last() is Unimplemented {
                        code == EXIT_ILLEGAL_INSTRUCTION
                    } else {
                        code == EXIT_CYCLE_LIMIT && machine.tick_count() == u64::MAX
                    }
                };
            assert(is_run(st, rs, code));
            assert(runs_to(start, *machine, code));
        }
    }
    code
}

/// What the run of a single program stopped for.
#[derive(Debug, Clone, Copy, PartialEq, Eq)]
pub enum RunEvent {
    /// The program stopped with this exit code.
    Exited(i32),
    /// The program called a builtin that the host performs; the run goes on
    /// with the next instruction once the host has done so.
    HostRequest(u32),
}

/// Runs the loaded program until it stops, as [`Machine::run_until_halt`]
/// does, or until it asks the host to perform a builtin.
pub fn run_until_host(machine: &mut RiscV32IntegerMachine) -> (e: RunEvent)
    requires
        old(machine).wf(),
    ensures
        final(machine).wf(),
        final(machine).model_spec() == old(machine).model_spec(),
        old(machine).consistent() ==> final(machine).consistent(),
        e is HostRequest ==> final(machine).ticks() > old(machine).ticks(),
        old(machine).consistent() ==> match e {
            RunEvent::Exited(code) => stopped_with(*final(machine), code),
            RunEvent::HostRequest(_) => true,
        },
{
    let ghost m0 = *machine;
    loop
        invariant
            machine.wf(),
            machine.model_spec() == m0.model_spec(),
            m0 == *old(machine),
            m0.consistent() ==> machine.consistent(),
            machine.ticks() >= m0.ticks(),
        decreases u64::MAX - machine.ticks(),
    {
        if machine.cycle_count() == u64::MAX {
            return RunEvent::Exited(EXIT_CYCLE_LIMIT);
        }
        let ghost before = machine.ticks();
        let ghost prior = *machine;
        let r = machine.step();
        proof {
            assert(machine.ticks() > before);
        }
        match r {
            StepResult::Halt(code) => {
                proof {
                    if m0.consistent() {
                        lemma_halt_point(prior, *machine, code);
                    }
                }
                return RunEvent::Exited(code);
            },
            StepResult::Unimplemented(_) => {
                return RunEvent::Exited(EXIT_ILLEGAL_INSTRUCTION);
            },
            _ => {},
        }
        match machine.take_host_request() {
            Some(n) => {
                return RunEvent::HostRequest(n);
            },
            None => {},
        }
    }
}

/// Points the machine at a program: its segment, its class and its registers.
fn enter_context(machine: &mut RiscV32IntegerMachine, context: &ExecutionContext)
    requires
        old(machine).wf(),
    ensures
        final(machine).wf(),
        final(machine).model_spec() == old(machine).model_spec(),
        old(machine).memory_spec().single_domain() ==> final(machine).memory_spec() == old(machine).memory_spec(),
        final(machine).regs() == context.registers,
        final(machine).segment_spec() == context.memory_segment,
        final(machine).ticks() == old(machine).ticks(),
        old(machine).memory_spec().single_domain() && old(machine).consistent() ==> final(machine).consistent(),
        old(machine).memory_spec().single_domain() ==> final(machine).mem() == old(machine).mem(),
{
    machine.set_memory_segment(context.memory_segment);
    machine.set_security_class(context.security_class);
    machine.restore_registers(&context.registers);
}

/// What a run of two programs stopped for.
#[derive(Debug, Clone, Copy, PartialEq, Eq)]
pub enum DualEvent {
    /// Both programs have stopped, with these exit codes.
    Exited(i32, i32),
    /// The running program called a builtin that the host performs; the
    /// run goes on where it stopped once the host has done so.
    HostRequest(u32),
}

/// Whether `m` stands where the step that returned `r` stopped its
/// program, for a step that stopped it.
pub open spec fn step_explained(r: StepResult, m: RiscV32IntegerMachine) -> bool {
    match r {
        StepResult::Halt(code) => halted_at(m, code),
        StepResult::Unimplemented(_) => rejects(m),
        _ => true,
    }
}

/// The lower half of memory, where program A of a dual run is confined.
pub open spec fn program_a_segment() -> MemorySegment {
    MemorySegment { start: 0, end_exclusive: MEMORY_SIZE / 2 }
}

/// The upper half of memory, where program B of a dual run is confined.
pub open spec fn program_b_segment() -> MemorySegment {
    MemorySegment { start: (MEMORY_SIZE / 2) as u32, end_exclusive: MEMORY_SIZE }
}

/// Whether one step from `s` to `t`, in segment `seg`, reporting `r`, is
/// where a program stopped with `code`: `code` is the exit code of a halt,
/// or [`EXIT_ILLEGAL_INSTRUCTION`] for an instruction the machine does not
/// execute; and when the machine's memory was exact before the step, the
/// step is one of the machine's and leaves it where `code` is explained.
pub open spec fn stop_step_fits(
    s: RiscV32IntegerMachine,
    t: RiscV32IntegerMachine,
    r: StepResult,
    seg: MemorySegment,
    code: i32,
) -> bool {
    &&& s.segment_spec() == seg
    &&& t.segment_spec() == seg
    &&& match r {
        StepResult::Halt(h) => code == h,
        StepResult::Unimplemented(_) => code == EXIT_ILLEGAL_INSTRUCTION,
        _ => false,
    }
    &&& s.consistent() ==> stepped(s, t, r) && t.consistent() && stopped_with(t, code)
}

/// Whether `code` is an exit code that a program can stop with by itself:
/// 0 at a breakpoint, a segmentation fault, or an illegal instruction.
pub open spec fn program_exit(code: i32) -> bool {
    code == 0 || code == EXIT_SEGMENTATION_FAULT || code == EXIT_ILLEGAL_INSTRUCTION
}

/// What explains a step's result at `t` still does at `u`, which has the
/// same registers, memory, segment, builtins and control registers.
proof fn lemma_explained_frame(r: StepResult, t: RiscV32IntegerMachine, u: RiscV32IntegerMachine)
    requires
        step_explained(r, t),
        u.regs() == t.regs(),
        u.mem() == t.mem(),
        u.segment_spec() == t.segment_spec(),
        u.builtin_map() == t.builtin_map(),
        u.csr_spec() == t.csr_spec(),
    ensures
        step_explained(r, u),
{
    if r is Unimplemented {
        let x = choose|x: &'static str| #[trigger] step_effect(t, t, StepResult::Unimplemented(x));
        assert(step_effect(u, u, StepResult::Unimplemented(x)));
    }
}

/// Two programs sharing one machine, program A in the lower half of memory
/// and program B in the upper half, each confined to its half.
///
/// A program runs until it halts or calls the yield builtin, or calls
/// another builtin after running [`CTX_SWITCH_AFTER_CYCLE_COUNT`] cycles;
/// then the other program, if it has not halted, takes over. A program that
/// reaches an instruction the machine does not execute exits with
/// [`EXIT_ILLEGAL_INSTRUCTION`], and programs still running when the cycle
/// counter runs out exit with [`EXIT_CYCLE_LIMIT`].
pub struct DualRun {
    contexts: Vec<ExecutionContext>,
    current: usize,
    last_switch_cycle: u64,
    /// The result of the step whose builtin the host was asked to perform.
    held: Option<StepResult>,
    /// The machine before and after the step whose result is held.
    held_step: Ghost<(RiscV32IntegerMachine, RiscV32IntegerMachine)>,
    /// For each program that has stopped: the machine before and after the
    /// step that stopped it, and that step's result.
    stops: Ghost<Seq<(RiscV32IntegerMachine, RiscV32IntegerMachine, StepResult)>>,
}

impl DualRun {
    /// The bookkeeping of the run is in order.
    pub closed spec fn inv(&self) -> bool {
        &&& self.contexts@.len() == 2
        &&& self.current < 2
        &&& self.contexts@[self.current as int].exited ==> self.contexts@[0].exited && self.contexts@[1].exited
    }

    /// Whether a host request is waiting to be followed up.
    pub closed spec fn holds_step(&self) -> bool {
        self.held is Some
    }

    /// Whether `m` stands where the step held for the host stopped its
    /// program, if it did.
    pub closed spec fn held_explained(&self, m: RiscV32IntegerMachine) -> bool {
        match self.held {
            Some(r) => step_explained(r, m),
            None => true,
        }
    }

    /// The machine before and after the step that stopped program `i`, and
    /// that step's result.
    pub closed spec fn stop_of(&self, i: int) -> (RiscV32IntegerMachine, RiscV32IntegerMachine, StepResult) {
        self.stops@[i]
    }

    /// Whether program `i`, if it has stopped, stopped at a step of its own
    /// that gives its reported code.
    pub open spec fn program_stop_explained(&self, i: int) -> bool {
        match self.outcome(i) {
            Some(c) => stop_step_fits(self.stop_of(i).0, self.stop_of(i).1, self.stop_of(i).2, self.segment_of(i), c),
            None => true,
        }
    }

    /// Every stopped program's code is explained by its stopping step, and
    /// a held step is recorded with the machine around it.
    pub closed spec fn stops_recorded(&self) -> bool {
        &&& self.stops@.len() == 2
        &&& self.program_stop_explained(0)
        &&& self.program_stop_explained(1)
        &&& match self.held {
            Some(r) => {
                let (s, t) = self.held_step@;
                &&& s.segment_spec() == self.running_segment()
                &&& t.segment_spec() == self.running_segment()
                &&& s.consistent() ==> stepped(s, t, r) && t.consistent() && step_explained(r, t)
            },
            None => true,
        }
    }

    /// How program `i` (0 for A, 1 for B) stopped, if it has.
    pub closed spec fn outcome(&self, i: int) -> Option<i32> {
        if self.contexts@[i].exited {
            Some(self.contexts@[i].exit_code)
        } else {
            None
        }
    }

    /// The part of memory that program `i` may touch.
    pub closed spec fn segment_of(&self, i: int) -> MemorySegment {
        self.contexts@[i].memory_segment
    }

    /// The part of memory that the running program may touch.
    pub closed spec fn running_segment(&self) -> MemorySegment {
        self.contexts@[self.current as int].memory_segment
    }

    /// Every program that has stopped did so with a code of its own.
    pub closed spec fn outcomes_valid(&self) -> bool {
        forall|i: int| 0 <= i < 2 && #[trigger] self.contexts@[i].exited ==> program_exit(self.contexts@[i].exit_code)
    }

    /// The exit code reported for program `i`: how it stopped, or the cycle
    /// limit for one still running.
    pub open spec fn reported_code(&self, i: int) -> i32 {
        match self.outcome(i) {
            Some(c) => c,
            None => EXIT_CYCLE_LIMIT,
        }
    }

    /// Loads both images and makes program A the running one.
    pub fn start(
        machine: &mut RiscV32IntegerMachine,
        program_a_bytes: &[u8],
        program_b_bytes: &[u8],
        layout: DualProgramLayout,
    ) -> (run: DualRun)
        requires
            old(machine).wf(),
            layout_error(layout, program_a_bytes@.len() as int, program_b_bytes@.len() as int) is None,
        ensures
            final(machine).wf(),
            run.inv(),
            !run.holds_step(),
            run.outcome(0) is None && run.outcome(1) is None,
            run.outcomes_valid(),
            run.stops_recorded(),
            final(machine).model_spec() == old(machine).model_spec(),
            old(machine).memory_spec().single_domain() ==> final(machine).memory_spec().single_domain(),
            run.segment_of(0) == program_a_segment(),
            run.segment_of(1) == program_b_segment(),
            final(machine).segment_spec() == run.running_segment(),
            old(machine).memory_spec().single_domain() && old(machine).consistent() && uncached(
                *old(machine),
                layout.program_a.load_base as int,
                program_a_bytes@.len() as int,
            ) && uncached(*old(machine), layout.program_b.load_base as int, program_b_bytes@.len() as int)
                ==> final(machine).consistent() && final(machine).mem() == loaded(
                loaded(old(machine).mem(), layout.program_a.load_base as int, program_a_bytes@),
                layout.program_b.load_base as int,
                program_b_bytes@,
            ),
    {
        let total_memory = machine.memory_size_bytes();
        let midpoint = total_memory / 2;
        let segment_a = MemorySegment { start: 0, end_exclusive: midpoint };
        let segment_b = MemorySegment { start: midpoint as u32, end_exclusive: total_memory };

        let ghost start = *machine;
        machine.load_binary_at(program_a_bytes, layout.program_a.load_base);
        let ghost mid_state = *machine;
        machine.load_binary_at(program_b_bytes, layout.program_b.load_base);
        proof {
            if start.consistent() && uncached(start, layout.program_a.load_base as int, program_a_bytes@.len() as int)
                && uncached(start, layout.program_b.load_base as int, program_b_bytes@.len() as int) {
                assert(uncached(mid_state, layout.program_b.load_base as int, program_b_bytes@.len() as int));
            }
        }

        let mut contexts: Vec<ExecutionContext> = Vec::new();
        contexts.push(ExecutionContext::new(layout.program_a.entry_pc, segment_a, SecurityClass::High));
        contexts.push(ExecutionContext::new(layout.program_b.entry_pc, segment_b, SecurityClass::Low));
        enter_context(machine, &contexts[0]);
        let last_switch_cycle = machine.cycle_count();
        let ghost m = *machine;
        let ghost no_stop = (m, m, StepResult::Continue);
        let held_step = Ghost((m, m));
        let stops = Ghost(Seq::empty().push(no_stop).push(no_stop));
        DualRun { contexts, current: 0, last_switch_cycle, held: None, held_step, stops }
    }

    /// Runs the programs until both have stopped or the running one asks
    /// the host to perform a builtin.
    #[verifier::rlimit(30)]
    #[verifier::spinoff_prover]
    pub fn resume(&mut self, machine: &mut RiscV32IntegerMachine) -> (e: DualEvent)
        requires
            old(self).inv(),
            old(machine).wf(),
        ensures
            final(self).inv(),
            final(machine).wf(),
            final(machine).model_spec() == old(machine).model_spec(),
            old(machine).memory_spec().single_domain() ==> final(machine).memory_spec().single_domain(),
            old(machine).memory_spec().single_domain() && old(machine).consistent() ==> final(machine).consistent(),
            e is HostRequest ==> final(self).holds_step() && final(machine).ticks() > old(machine).ticks(),
            final(self).segment_of(0) == old(self).segment_of(0),
            final(self).segment_of(1) == old(self).segment_of(1),
            old(machine).segment_spec() == old(self).running_segment() ==> final(machine).segment_spec()
                == final(self).running_segment(),
            old(self).stops_recorded() && old(machine).segment_spec() == old(self).running_segment() ==> {
                &&& final(self).stops_recorded()
                &&& final(self).program_stop_explained(0)
                &&& final(self).program_stop_explained(1)
            },
            e matches DualEvent::Exited(a, b) ==> {
                &&& a == final(self).reported_code(0)
                &&& b == final(self).reported_code(1)
                &&& final(self).outcome(0) is Some && final(self).outcome(1) is Some || final(machine).ticks()
                    == u64::MAX
            },
            old(machine).memory_spec().single_domain() && old(machine).consistent() && old(self).held_explained(
                *old(machine),
            ) && !(old(self).outcome(0) is Some && old(self).outcome(1) is Some) && old(machine).segment_spec()
                == old(self).running_segment() ==> {
                &&& final(self).held_explained(*final(machine))
                &&& e matches DualEvent::Exited(a, b) ==> final(machine).ticks() == u64::MAX
                    || final(machine).segment_spec() == final(self).segment_of(0) && stopped_with(*final(machine), a)
                    || final(machine).segment_spec() == final(self).segment_of(1) && stopped_with(*final(machine), b)
                &&& e is HostRequest ==> !(final(self).outcome(0) is Some && final(self).outcome(1) is Some)
                &&& old(self).outcomes_valid() ==> final(self).outcomes_valid()
                &&& e matches DualEvent::Exited(a, b) ==> final(machine).ticks() == u64::MAX || stopped_with(
                    *final(machine),
                    a,
                ) || stopped_with(*final(machine), b)
            },
    {
        let ghost m0 = *machine;
        let ghost trusted = m0.memory_spec().single_domain() && m0.consistent() && old(self).held_explained(m0)
            && !(old(self).contexts@[0].exited && old(self).contexts@[1].exited) && m0.segment_spec()
            == old(self).running_segment();
        loop
            invariant
                trusted == (m0.memory_spec().single_domain() && m0.consistent() && old(self).held_explained(m0)
                    && !(old(self).contexts@[0].exited && old(self).contexts@[1].exited) && m0.segment_spec()
                    == old(self).running_segment()),
                self.contexts@[0].memory_segment == old(self).contexts@[0].memory_segment,
                self.contexts@[1].memory_segment == old(self).contexts@[1].memory_segment,
                m0.segment_spec() == old(self).running_segment() ==> machine.segment_spec() == self.running_segment(),
                trusted ==> !(self.contexts@[0].exited && self.contexts@[1].exited),
                trusted && old(self).outcomes_valid() ==> self.outcomes_valid(),
                self.held is Some ==> *machine == m0 && self.held == old(self).held && self.held_step
                    == old(self).held_step,
                old(self).stops_recorded() && m0.segment_spec() == old(self).running_segment()
                    ==> self.stops_recorded(),
                self.inv(),
                machine.wf(),
                machine.model_spec() == m0.model_spec(),
                m0 == *old(machine),
                m0.memory_spec().single_domain() ==> machine.memory_spec().single_domain(),
                m0.memory_spec().single_domain() && m0.consistent() ==> machine.consistent(),
                machine.ticks() >= m0.ticks(),
                self.held is Some ==> machine.ticks() == m0.ticks() && old(self).held is Some,
            decreases u64::MAX - machine.ticks(), if self.held is Some { 1int } else { 0int },
        {
            let ghost mut pre = *machine;
            let ghost mut post = *machine;
            let result = match self.held.take() {
                Some(r) => {
                    proof {
                        if trusted {
                            assert(step_explained(r, *machine));
                        }
                        pre = self.held_step@.0;
                        post = self.held_step@.1;
                    }
                    r
                },
                None => {
                    if machine.cycle_count() == u64::MAX {
                        let a = if self.contexts[0].exited {
                            self.contexts[0].exit_code
                        } else {
                            EXIT_CYCLE_LIMIT
                        };
                        let b = if self.contexts[1].exited {
                            self.contexts[1].exit_code
                        } else {
                            EXIT_CYCLE_LIMIT
                        };
                        return DualEvent::Exited(a, b);
                    }
                    let ghost before = machine.ticks();
                    let ghost prior = *machine;
                    let r = machine.step();
                    let ghost after_step = *machine;
                    proof {
                        pre = prior;
                        post = after_step;
                    }
                    proof {
                        assert(machine.ticks() > before);
                        if trusted {
                            assert(step_explained(r, *machine));
                        }
                    }
                    let request = machine.take_host_request();
                    proof {
                        if trusted {
                            lemma_explained_frame(r, after_step, *machine);
                        }
                    }
                    match request {
                        Some(n) => {
                            self.held = Some(r);
                            self.held_step = Ghost((prior, after_step));
                            return DualEvent::HostRequest(n);
                        },
                        None => {},
                    }
                    r
                },
            };
            let switch = match result {
                StepResult::Continue | StepResult::PcUpdated => false,
                StepResult::Yield => machine.cycle_count().saturating_sub(self.last_switch_cycle)
                    >= CTX_SWITCH_AFTER_CYCLE_COUNT,
                StepResult::ForceYield => true,
                StepResult::Halt(_) | StepResult::Unimplemented(_) => true,
            };
            if switch {
                let current = self.current;
                let mut ctx = self.contexts[current];
                ctx.registers = machine.snapshot_registers();
                match result {
                    StepResult::Halt(code) => {
                        ctx.exited = true;
                        ctx.exit_code = code;
                    },
                    StepResult::Unimplemented(_) => {
                        ctx.exited = true;
                        ctx.exit_code = EXIT_ILLEGAL_INSTRUCTION;
                    },
                    _ => {},
                }
                proof {
                    if trusted && ctx.exited {
                        if let StepResult::Halt(c) = result {
                            assert(halted_at(*machine, c));
                        }
                        assert(program_exit(ctx.exit_code));
                    }
                }
                let ghost before_set = *self;
                self.contexts.set(current, ctx);
                let stops_here = match result {
                    StepResult::Halt(_) | StepResult::Unimplemented(_) => true,
                    _ => false,
                };
                if stops_here {
                    self.stops = Ghost(self.stops@.update(current as int, (pre, post, result)));
                }
                proof {
                    assert(self.contexts@[0].memory_segment == before_set.contexts@[0].memory_segment);
                    assert(self.contexts@[1].memory_segment == before_set.contexts@[1].memory_segment);
                }
                if self.contexts[0].exited && self.contexts[1].exited {
                    proof {
                        if trusted {
                            let code = self.contexts@[current as int].exit_code;
                            match result {
                                StepResult::Halt(c) => {
                                    assert(machine.halt_point(code));
                                },
                                StepResult::Unimplemented(_) => {
                                    assert(machine.rejects_instruction());
                                },
                                _ => {
                                    assert(false);
                                },
                            }
                            assert(stopped_with(*machine, code));
                        }
                    }
                    return DualEvent::Exited(self.contexts[0].exit_code, self.contexts[1].exit_code);
                }
                let next = 1 - current;
                if !self.contexts[next].exited {
                    self.current = next;
                    enter_context(machine, &self.contexts[next]);
                    self.last_switch_cycle = machine.cycle_count();
                }
            }
        }
    }
}

/// Runs two programs on one machine until both have stopped, as a
/// [`DualRun`] does, and returns their exit codes; builtins that the host
/// performs are left undone.
pub fn run_dual_flat_binary_bytes(
    machine: &mut RiscV32IntegerMachine,
    program_a_bytes: &[u8],
    program_b_bytes: &[u8],
    layout: DualProgramLayout,
) -> (codes: (i32, i32))
    requires
        old(machine).wf(),
        layout_error(layout, program_a_bytes@.len() as int, program_b_bytes@.len() as int) is None,
    ensures
        final(machine).wf(),
        old(machine).memory_spec().single_domain() && old(machine).consistent() && uncached(
            *old(machine),
            layout.program_a.load_base as int,
            program_a_bytes@.len() as int,
        ) && uncached(*old(machine), layout.program_b.load_base as int, program_b_bytes@.len() as int)
            ==> final(machine).consistent() && (final(machine).ticks() == u64::MAX || final(machine).segment_spec()
            == program_a_segment() && stopped_with(*final(machine), codes.0) || final(machine).segment_spec()
            == program_b_segment() && stopped_with(*final(machine), codes.1)) && (program_exit(codes.0) || codes.0 == EXIT_CYCLE_LIMIT
            && final(machine).ticks() == u64::MAX) && (program_exit(codes.1) || codes.1 == EXIT_CYCLE_LIMIT
            && final(machine).ticks() == u64::MAX),
        exists|run: DualRun|
            #![trigger run.reported_code(0), run.reported_code(1)]
            {
                &&& run.segment_of(0) == program_a_segment()
                &&& run.segment_of(1) == program_b_segment()
                &&& codes.0 == run.reported_code(0)
                &&& codes.1 == run.reported_code(1)
                &&& run.program_stop_explained(0)
                &&& run.program_stop_explained(1)
                &&& run.outcome(0) is Some && run.outcome(1) is Some || final(machine).ticks() == u64::MAX
            },
{
    let ghost start = *machine;
    let mut run = DualRun::start(machine, program_a_bytes, program_b_bytes, layout);
    let ghost s0 = *machine;
    loop
        invariant
            run.inv(),
            machine.wf(),
            start == *old(machine),
            start.memory_spec().single_domain() ==> machine.memory_spec().single_domain(),
            start.memory_spec().single_domain() && s0.consistent() ==> machine.consistent(),
            s0.consistent() <== (start.memory_spec().single_domain() && start.consistent() && uncached(
                start,
                layout.program_a.load_base as int,
                program_a_bytes@.len() as int,
            ) && uncached(start, layout.program_b.load_base as int, program_b_bytes@.len() as int)),
            start.memory_spec().single_domain() && s0.consistent() ==> run.held_explained(*machine) && !(run.outcome(0) is Some
                && run.outcome(1) is Some) && run.outcomes_valid(),
            run.segment_of(0) == program_a_segment(),
            run.segment_of(1) == program_b_segment(),
            machine.segment_spec() == run.running_segment(),
            run.stops_recorded(),
        decreases u64::MAX - machine.ticks(), if run.holds_step() { 1int } else { 0int },
    {
        match run.resume(machine) {
            DualEvent::Exited(a, b) => {
                proof {
                    assert(a == run.reported_code(0) && b == run.reported_code(1));
                }
                return (a, b);
            },
            DualEvent::HostRequest(_) => {},
        }
    }
}

} // verus!
