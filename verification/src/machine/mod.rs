use vstd::prelude::*;

pub mod riscv32_integer;

pub use riscv32_integer::{MEMORY_SIZE, Registers, RiscV32IntegerMachine};

verus! {

/// What one executed instruction asks of whoever drives the machine.
#[derive(Debug, Clone, PartialEq, Eq)]
pub enum StepResult {
    /// The next instruction follows this one.
    Continue,
    /// A builtin ran; a scheduler may switch programs here.
    Yield,
    /// The yield builtin ran; a scheduler should switch programs here.
    ForceYield,
    /// The instruction set the program counter itself.
    PcUpdated,
    /// The program stopped with this exit code.
    Halt(i32),
    /// The instruction is not part of what the machine executes.
    Unimplemented(&'static str),
}

/// Exit code of a program that ran an instruction the machine does not
/// execute.
pub const EXIT_ILLEGAL_INSTRUCTION: i32 = -4;

/// Exit code of a program still running when the cycle counter reached its
/// largest value.
pub const EXIT_CYCLE_LIMIT: i32 = -14;

/// Whether `m` stands where a run that returned `code` stops: the cycle
/// counter ran out, the program reached an instruction that the machine does
/// not execute, or it halted with `code`.
pub open spec fn stopped_with<M: Machine>(m: M, code: i32) -> bool {
    ||| code == EXIT_CYCLE_LIMIT && m.tick_count() == u64::MAX
    ||| code == EXIT_ILLEGAL_INSTRUCTION && m.rejects_instruction()
    ||| m.halt_point(code)
}

/// Whether stepping `states[0]` again and again, with the results
/// `results`, leads to `states.last()`, stopping at the first halt or
/// instruction the machine does not execute and giving `code`: the exit code
/// of a halt, [`EXIT_ILLEGAL_INSTRUCTION`] for such an instruction, or
/// [`EXIT_CYCLE_LIMIT`] when the cycle counter ran out before either.
pub open spec fn is_run<M: Machine>(states: Seq<M>, results: Seq<StepResult>, code: i32) -> bool {
    &&& states.len() == results.len() + 1
    &&& forall|i: int| 0 <= i < results.len() ==> states[i].steps_to(states[i + 1], #[trigger] results[i])
    &&& forall|i: int| 0 <= i < results.len() - 1 ==> !(#[trigger] results[i] is Halt) && !(results[i] is Unimplemented)
    &&& if results.len() > 0 && results.last() is Halt {
        code == results.last()->Halt_0
    } else if results.len() > 0 && results.last() is Unimplemented {
        code == EXIT_ILLEGAL_INSTRUCTION
    } else {
        code == EXIT_CYCLE_LIMIT && states.last().tick_count() == u64::MAX
    }
}

/// Whether running the program of `from` until it stops leads to `to` and
/// gives `code`.
pub open spec fn runs_to<M: Machine>(from: M, to: M, code: i32) -> bool {
    exists|states: Seq<M>, results: Seq<StepResult>|
        #![trigger states.len(), results.len()]
        states[0] == from && states.last() == to && is_run(states, results, code)
}

/// A simulated processor that runs a flat binary image.
pub trait Machine: Sized {
    /// Whether executing one instruction of `self` gives `next` and reports
    /// `r`.
    spec fn steps_to(&self, next: Self, r: StepResult) -> bool;

    /// Whether `self` is `before` with `image` copied to address 0 and the
    /// program started there.
    spec fn loaded_from(&self, before: Self, image: Seq<u8>) -> bool;

    /// The machine's internal consistency.
    spec fn machine_wf(&self) -> bool;

    /// Cycles elapsed.
    spec fn tick_count(&self) -> u64;

    /// Size of the machine's memory in bytes.
    spec fn capacity(&self) -> nat;

    /// Whether what the machine's specification says of its memory is exact.
    spec fn trusted(&self) -> bool;

    /// Whether loading an image of `len` bytes at address 0 keeps the
    /// machine trusted.
    spec fn can_load(&self, len: nat) -> bool;

    /// Whether the program stands where it stops with `code`.
    spec fn halt_point(&self, code: i32) -> bool;

    /// Whether the program stands on an instruction that the machine does
    /// not execute.
    spec fn rejects_instruction(&self) -> bool;

    /// Copies `bytes` to address 0, starts the program there and sets the
    /// cycle counter to zero.
    fn load_binary(&mut self, bytes: &[u8])
        requires
            old(self).machine_wf(),
            bytes@.len() <= old(self).capacity(),
        ensures
            final(self).machine_wf(),
            final(self).tick_count() == 0,
            final(self).capacity() == old(self).capacity(),
            old(self).trusted() && old(self).can_load(bytes@.len()) ==> final(self).trusted()
                && final(self).loaded_from(*old(self), bytes@),
    ;

    /// Copies `bytes` to memory at `base`, past every cache.
    fn load_binary_at(&mut self, bytes: &[u8], base: u32)
        requires
            old(self).machine_wf(),
            base + bytes@.len() <= old(self).capacity(),
        ensures
            final(self).machine_wf(),
            final(self).tick_count() >= old(self).tick_count(),
            final(self).capacity() == old(self).capacity(),
    ;

    /// Executes one instruction.
    fn step(&mut self) -> (r: StepResult)
        requires
            old(self).machine_wf(),
        ensures
            final(self).machine_wf(),
            final(self).capacity() == old(self).capacity(),
            final(self).tick_count() == u64::MAX || final(self).tick_count() > old(self).tick_count(),
            old(self).trusted() ==> final(self).trusted(),
            old(self).trusted() ==> old(self).steps_to(*final(self), r),
            old(self).trusted() ==> match r {
                StepResult::Halt(code) => final(self).halt_point(code),
                StepResult::Unimplemented(_) => final(self).rejects_instruction(),
                _ => true,
            },
    ;

    fn current_tick(&self) -> (t: u64)
        ensures
            t == self.tick_count(),
    ;

    /// Steps until the program halts and returns its exit code;
    /// [`EXIT_ILLEGAL_INSTRUCTION`] when it reaches an instruction the
    /// machine does not execute, [`EXIT_CYCLE_LIMIT`] when the cycle counter
    /// runs out.
    fn run_until_halt(&mut self) -> (code: i32)
        requires
            old(self).machine_wf(),
        ensures
            final(self).machine_wf(),
            old(self).trusted() ==> final(self).trusted() && {
                ||| code == EXIT_CYCLE_LIMIT && final(self).tick_count() == u64::MAX
                ||| code == EXIT_ILLEGAL_INSTRUCTION && final(self).rejects_instruction()
                ||| final(self).halt_point(code)
            },
            old(self).trusted() ==> exists|states: Seq<Self>, results: Seq<StepResult>|
                #![trigger states.len(), results.len()]
                {
                &&& states.len() == results.len() + 1
                &&& states[0] == *old(self)
                &&& states.last() == *final(self)
                &&& forall|i: int| 0 <= i < results.len() ==> states[i].steps_to(states[i + 1], #[trigger] results[i])
                &&& forall|i: int| 0 <= i < results.len() - 1 ==> !(#[trigger] results[i] is Halt) && !(results[i] is Unimplemented)
                &&& if results.len() > 0 && results.last() is Halt {
                    code == results.last()->Halt_0
                } else if results.len() > 0 && results.last() is Unimplemented {
                    code == EXIT_ILLEGAL_INSTRUCTION
                } else {
                    code == EXIT_CYCLE_LIMIT && final(self).tick_count() == u64::MAX
                }
            },
    {
        let ghost mut states: Seq<Self> = seq![*self];
        let ghost mut results: Seq<StepResult> = Seq::empty();
        loop
            invariant
                self.machine_wf(),
                old(self).trusted() ==> self.trusted(),
                states.len() == results.len() + 1,
                states[0] == *old(self),
                states.last() == *self,
                old(self).trusted() ==> forall|i: int| 0 <= i < results.len() ==> states[i].steps_to(
                    states[i + 1],
                    #[trigger] results[i],
                ),
                forall|i: int| 0 <= i < results.len() ==> !(#[trigger] results[i] is Halt) && !(results[i] is Unimplemented),
            decreases u64::MAX - self.tick_count(),
        {
            if self.current_tick() == u64::MAX {
                return EXIT_CYCLE_LIMIT;
            }
            let ghost prior = *self;
            let ghost prior_states = states;
            let ghost prior_results = results;
            let r = self.step();
            proof {
                states = states.push(*self);
                results = results.push(r);
                assert forall|i: int| 0 <= i < results.len() - 1 implies #[trigger] results[i] == prior_results[i] by {}
                assert forall|i: int| 0 <= i < states.len() - 1 implies #[trigger] states[i] == prior_states[i] by {}
                if old(self).trusted() {
                    assert(prior.steps_to(*self, r));
                    assert forall|i: int| 0 <= i < results.len() implies states[i].steps_to(
                        states[i + 1],
                        #[trigger] results[i],
                    ) by {
                        if i < results.len() - 1 {
                            assert(prior_states[i].steps_to(prior_states[i + 1], prior_results[i]));
                        }
                    }
                }
            }
            match r {
                StepResult::Halt(code) => {
                    return code;
                },
                StepResult::Unimplemented(_) => {
                    return EXIT_ILLEGAL_INSTRUCTION;
                },
                _ => {},
            }
        }
    }
}

/// Which cache design sits between the core and the shared cache levels.
#[derive(Clone, Copy, Debug, PartialEq, Eq)]
pub enum MemoryModel {
    Default,
    SmtCache,
    BackCache,
    NewCache,
    SecDcp,
}

/// The addresses a program may touch: `start..end_exclusive`.
#[derive(Clone, Copy, Debug, PartialEq, Eq)]
pub struct MemorySegment {
    pub start: u32,
    pub end_exclusive: u64,
}

impl MemorySegment {
    /// Whether the `len` bytes at `addr` all lie inside the segment.
    pub open spec fn covers(&self, addr: int, len: int) -> bool {
        self.start <= addr && addr + len <= self.end_exclusive
    }

    /// Whether the `len` bytes at `addr` all lie inside the segment.
    pub fn contains(&self, addr: u32, len: u32) -> (b: bool)
        ensures
            b == self.covers(addr as int, len as int),
    {
        self.start <= addr && (addr as u64) + (len as u64) <= self.end_exclusive
    }
}

} // verus!
