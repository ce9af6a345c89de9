use vstd::prelude::*;

use crate::device::memory::{MemoryDevice, le_u32};
use crate::device::clock::saturating_tick;
use crate::machine::{EXIT_CYCLE_LIMIT, EXIT_ILLEGAL_INSTRUCTION, Machine, StepResult};

use super::builtins::{BUILTIN_YIELD, cycle_count, modulo, printf, printf_output};
use super::decode::{funct3_of, imm_i_of, imm_s_of, opcode_of, rd_of, rs1_of, rs2_of};
use super::execute::{
    cycles_spec,
    EXIT_SEGMENTATION_FAULT, F3_CSRRC, F3_CSRRCI, F3_CSRRS, F3_CSRRSI, F3_CSRRW, F3_CSRRWI, OP_AUIPC,
    OP_BRANCH, OP_JAL, OP_JALR, OP_LOAD, OP_LUI, OP_MISC_MEM, OP_OP, OP_OP_IMM, OP_STORE, OP_SYSTEM,
    load_value, load_width, pure_effect, store_effect, store_width,
};
use super::{Builtin, MEMORY_SIZE, RiscV32IntegerMachine, write_reg};

verus! {

/// `(writes, value)`: whether the CSR instruction named by `f3` writes the
/// register, and the value it writes, given the register's old value and
/// the instruction's operand.
pub open spec fn csr_update(f3: u32, old: u32, operand: u32) -> Option<(bool, u32)> {
    if f3 == F3_CSRRW || f3 == F3_CSRRWI {
        Some((true, operand))
    } else if f3 == F3_CSRRS || f3 == F3_CSRRSI {
        Some((operand != 0, old | operand))
    } else if f3 == F3_CSRRC || f3 == F3_CSRRCI {
        Some((operand != 0, old & !operand))
    } else {
        None
    }
}

/// Operand of a CSR instruction: the `rs1` field itself for the immediate
/// forms, else the register it names.
pub open spec fn csr_operand(f3: u32, insn: u32, file: Seq<u32>) -> u32 {
    if f3 >= 5 {
        rs1_of(insn) as u32
    } else {
        file[rs1_of(insn) as int]
    }
}

/// Memory, control registers, output and host request of `t` are those of `s`.
pub open spec fn only_core(s: RiscV32IntegerMachine, t: RiscV32IntegerMachine) -> bool {
    &&& t.mem() == s.mem()
    &&& t.csr_spec() == s.csr_spec()
    &&& t.output_spec() == s.output_spec()
    &&& t.host_request_spec() == s.host_request_spec()
}

/// `t` is `s` with nothing architectural changed.
pub open spec fn unchanged(s: RiscV32IntegerMachine, t: RiscV32IntegerMachine) -> bool {
    &&& t.regs().pc == s.regs().pc
    &&& t.regs().file() == s.regs().file()
    &&& only_core(s, t)
}

/// Effect of a load instruction.
pub open spec fn load_step(s: RiscV32IntegerMachine, t: RiscV32IntegerMachine, r: StepResult, insn: u32) -> bool {
    let file = s.regs().file();
    let f3 = funct3_of(insn);
    let addr = file[rs1_of(insn) as int].wrapping_add(imm_i_of(insn));
    match load_width(f3) {
        None => r == StepResult::Unimplemented("LOAD") && unchanged(s, t),
        Some(w) => if !s.access_ok(addr as int, w) {
            r == StepResult::Halt(EXIT_SEGMENTATION_FAULT) && unchanged(s, t)
        } else {
            &&& r == StepResult::Continue
            &&& t.regs().file() == write_reg(file, rd_of(insn) as int, load_value(f3, s.mem(), addr as int))
            &&& t.regs().pc == s.regs().pc.wrapping_add(4)
            &&& only_core(s, t)
        },
    }
}

/// Effect of a store instruction.
pub open spec fn store_step(s: RiscV32IntegerMachine, t: RiscV32IntegerMachine, r: StepResult, insn: u32) -> bool {
    let file = s.regs().file();
    let f3 = funct3_of(insn);
    let addr = file[rs1_of(insn) as int].wrapping_add(imm_s_of(insn));
    match store_width(f3) {
        None => r == StepResult::Unimplemented("STORE") && unchanged(s, t),
        Some(w) => if !s.access_ok(addr as int, w) {
            r == StepResult::Halt(EXIT_SEGMENTATION_FAULT) && unchanged(s, t)
        } else {
            &&& r == StepResult::Continue
            &&& t.regs().file() == file
            &&& t.regs().pc == s.regs().pc.wrapping_add(4)
            &&& t.mem() == store_effect(f3, s.mem(), addr as int, file[rs2_of(insn) as int])
            &&& t.csr_spec() == s.csr_spec()
            &&& t.output_spec() == s.output_spec()
            &&& t.host_request_spec() == s.host_request_spec()
        },
    }
}

/// `file` with the cycle count `c` in `a0` (low word) and `a1` (high word).
pub open spec fn ticks_in_regs(file: Seq<u32>, c: u64) -> Seq<u32> {
    write_reg(write_reg(file, 10, c as u32), 11, (c >> 32) as u32)
}

/// Effect of running `builtin`, called with number `number`, apart from
/// the program counter.
pub open spec fn builtin_step(
    s: RiscV32IntegerMachine,
    t: RiscV32IntegerMachine,
    builtin: Builtin,
    number: u32,
) -> bool {
    let file = s.regs().file();
    match builtin {
        Builtin::Printf => {
            &&& t.regs().file() == file
            &&& t.mem() == s.mem()
            &&& t.csr_spec() == s.csr_spec()
            &&& t.output_spec() == s.output_spec() + printf_output(s.mem(), file)
            &&& t.host_request_spec() == s.host_request_spec()
        },
        Builtin::CycleCount => {
            &&& exists|c: u64|
                s.ticks() <= c <= t.ticks() && t.regs().file() == #[trigger] ticks_in_regs(file, c)
            &&& only_core(s, t)
        },
        Builtin::Random | Builtin::Host => {
            &&& t.regs().file() == file
            &&& t.mem() == s.mem()
            &&& t.csr_spec() == s.csr_spec()
            &&& t.output_spec() == s.output_spec()
            &&& t.host_request_spec() == Some(number)
        },
        Builtin::Yield => t.regs().file() == file && only_core(s, t),
        Builtin::Modulo => {
            &&& t.regs().file() == (if file[11] == 0 {
                file
            } else {
                write_reg(file, 10, (file[10] % file[11]) as u32)
            })
            &&& only_core(s, t)
        },
    }
}

/// Effect of a system instruction: environment call, breakpoint or CSR access.
pub open spec fn system_step(s: RiscV32IntegerMachine, t: RiscV32IntegerMachine, r: StepResult, insn: u32) -> bool {
    let file = s.regs().file();
    let f3 = funct3_of(insn);
    let imm12 = insn / 1048576;
    if f3 == 0 {
        if imm12 == 0 {
            let a7 = file[17];
            if s.builtin_map().contains_key(a7) {
                &&& r == (if a7 == BUILTIN_YIELD {
                    StepResult::ForceYield
                } else {
                    StepResult::Yield
                })
                &&& t.regs().pc == s.regs().pc.wrapping_add(4)
                &&& builtin_step(s, t, s.builtin_map()[a7], a7)
            } else {
                r == StepResult::Unimplemented("ECALL") && unchanged(s, t)
            }
        } else if imm12 == 1 {
            r == StepResult::Halt(0) && unchanged(s, t)
        } else {
            r == StepResult::Unimplemented("SYSTEM") && unchanged(s, t)
        }
    } else {
        let csr = imm12 as u16;
        let old_value = s.csr_spec().value(csr);
        match csr_update(f3, old_value, csr_operand(f3, insn, file)) {
            None => r == StepResult::Unimplemented("SYSTEM") && unchanged(s, t),
            Some(u) => {
                &&& r == StepResult::Continue
                &&& t.regs().pc == s.regs().pc.wrapping_add(4)
                &&& t.regs().file() == write_reg(file, rd_of(insn) as int, old_value)
                &&& t.csr_spec().map() == (if u.0 {
                    s.csr_spec().map().insert(csr, u.1)
                } else {
                    s.csr_spec().map()
                })
                &&& t.mem() == s.mem()
                &&& t.output_spec() == s.output_spec()
                &&& t.host_request_spec() == s.host_request_spec()
            },
        }
    }
}

/// Effect of executing the instruction `insn` on `s`, giving `t` and `r`.
pub open spec fn insn_step(s: RiscV32IntegerMachine, t: RiscV32IntegerMachine, r: StepResult, insn: u32) -> bool {
    let op = opcode_of(insn);
    match pure_effect(s.regs().file(), s.regs().pc, insn) {
        Some(e) => {
            &&& r == e.2
            &&& t.regs().file() == e.0
            &&& t.regs().pc == e.1
            &&& only_core(s, t)
        },
        None => if op == OP_LOAD {
            load_step(s, t, r, insn)
        } else if op == OP_STORE {
            store_step(s, t, r, insn)
        } else {
            system_step(s, t, r, insn)
        },
    }
}

/// Effect of one step of `s`, giving `t` and `r`: fetch the instruction at
/// the program counter and execute it; a fetch from outside the program's
/// segment stops the program with a segmentation fault.
pub open spec fn step_effect(s: RiscV32IntegerMachine, t: RiscV32IntegerMachine, r: StepResult) -> bool {
    if !s.access_ok(s.regs().pc as int, 4) {
        r == StepResult::Halt(EXIT_SEGMENTATION_FAULT) && unchanged(s, t)
    } else {
        insn_step(s, t, r, le_u32(s.mem(), s.regs().pc as int) as u32)
    }
}

impl RiscV32IntegerMachine {
    /// Whether the `len` bytes at `addr` lie in the segment and in memory.
    pub(crate) fn access_allowed(&self, addr: u32, len: u32) -> (b: bool)
        ensures
            b == self.access_ok(addr as int, len as int),
    {
        self.segment.contains(addr, len) && (addr as u64) + (len as u64) <= MEMORY_SIZE
    }

    pub(crate) fn op_load(&mut self, instruction: u32) -> (r: StepResult)
        requires
            old(self).wf(),
        ensures
            final(self).wf(),
            final(self).same_config(old(self)),
            final(self).ticks() >= old(self).ticks(),
            old(self).consistent() ==> final(self).consistent() && load_step(
                *old(self),
                *final(self),
                r,
                instruction,
            ),
    {
        let rd = Self::rd(instruction);
        let rs1 = Self::rs1(instruction);
        let f3 = Self::funct3(instruction);
        let pc = self.registers.pc;
        let addr = self.x(rs1).wrapping_add(Self::imm_i(instruction));
        let width: u32 = if f3 == 0 || f3 == 4 {
            1
        } else if f3 == 1 || f3 == 5 {
            2
        } else if f3 == 2 {
            4
        } else {
            return StepResult::Unimplemented("LOAD");
        };
        if !self.access_allowed(addr, width) {
            return StepResult::Halt(EXIT_SEGMENTATION_FAULT);
        }
        let value = if f3 == 0 {
            self.load_i8(addr) as i32 as u32
        } else if f3 == 1 {
            self.load_i16(addr) as i32 as u32
        } else if f3 == 2 {
            self.load_u32(addr)
        } else if f3 == 4 {
            self.load_u8(addr) as u32
        } else {
            self.load_u16(addr) as u32
        };
        self.set_x(rd, value);
        self.set_pc(pc.wrapping_add(4));
        StepResult::Continue
    }

    pub(crate) fn op_store(&mut self, instruction: u32) -> (r: StepResult)
        requires
            old(self).wf(),
        ensures
            final(self).wf(),
            final(self).same_config(old(self)),
            final(self).ticks() >= old(self).ticks(),
            old(self).consistent() ==> final(self).consistent() && store_step(
                *old(self),
                *final(self),
                r,
                instruction,
            ),
    {
        let rs1 = Self::rs1(instruction);
        let rs2 = Self::rs2(instruction);
        let f3 = Self::funct3(instruction);
        let pc = self.registers.pc;
        let addr = self.x(rs1).wrapping_add(Self::imm_s(instruction));
        let value = self.x(rs2);
        let width: u32 = if f3 == 0 {
            1
        } else if f3 == 1 {
            2
        } else if f3 == 2 {
            4
        } else {
            return StepResult::Unimplemented("STORE");
        };
        if !self.access_allowed(addr, width) {
            return StepResult::Halt(EXIT_SEGMENTATION_FAULT);
        }
        if f3 == 0 {
            self.store_u8(addr, value as u8);
        } else if f3 == 1 {
            self.store_u16(addr, value as u16);
        } else {
            self.store_u32(addr, value);
        }
        self.set_pc(pc.wrapping_add(4));
        StepResult::Continue
    }
}

impl RiscV32IntegerMachine {
    pub(crate) fn op_csr(&mut self, instruction: u32, csr: u16, f3: u32) -> (r: StepResult)
        requires
            old(self).wf(),
            f3 == funct3_of(instruction),
            f3 != 0,
            csr == (instruction / 1048576) as u16,
        ensures
            final(self).model_spec() == old(self).model_spec(),
            final(self).wf() == old(self).wf(),
            final(self).consistent() == old(self).consistent(),
            final(self).builtin_map() == old(self).builtin_map(),
            final(self).segment_spec() == old(self).segment_spec(),
            final(self).fetch_modelled() == old(self).fetch_modelled(),
            final(self).ticks() == old(self).ticks(),
            system_step(*old(self), *final(self), r, instruction),
    {
        let rd = Self::rd(instruction);
        let rs1 = Self::rs1(instruction);
        let pc = self.registers.pc;
        let old_value = self.csrs.read(csr);
        let operand = if f3 >= 5 {
            rs1 as u32
        } else {
            self.x(rs1)
        };
        let (write, value) = if f3 == F3_CSRRW || f3 == F3_CSRRWI {
            (true, operand)
        } else if f3 == F3_CSRRS || f3 == F3_CSRRSI {
            (operand != 0, old_value | operand)
        } else if f3 == F3_CSRRC || f3 == F3_CSRRCI {
            (operand != 0, old_value & !operand)
        } else {
            return StepResult::Unimplemented("SYSTEM");
        };
        if write {
            self.csrs.write(csr, value);
        }
        self.set_x(rd, old_value);
        self.set_pc(pc.wrapping_add(4));
        StepResult::Continue
    }

    pub(crate) fn run_builtin(&mut self, builtin: Builtin, number: u32)
        requires
            old(self).wf(),
        ensures
            final(self).model_spec() == old(self).model_spec(),
            final(self).wf(),
            final(self).regs().pc == old(self).regs().pc,
            final(self).builtin_map() == old(self).builtin_map(),
            final(self).segment_spec() == old(self).segment_spec(),
            final(self).fetch_modelled() == old(self).fetch_modelled(),
            final(self).ticks() >= old(self).ticks(),
            old(self).consistent() ==> final(self).consistent() && builtin_step(
                *old(self),
                *final(self),
                builtin,
                number,
            ),
    {
        match builtin {
            Builtin::Printf => printf(self),
            Builtin::CycleCount => {
                cycle_count(self);
                assert(self.regs().file() == ticks_in_regs(old(self).regs().file(), old(self).ticks()));
            },
            Builtin::Random | Builtin::Host => {
                self.host_request = Some(number);
            },
            Builtin::Yield => {},
            Builtin::Modulo => modulo(self),
        }
    }

    pub(crate) fn op_system(&mut self, instruction: u32) -> (r: StepResult)
        requires
            old(self).wf(),
        ensures
            final(self).model_spec() == old(self).model_spec(),
            final(self).wf(),
            final(self).builtin_map() == old(self).builtin_map(),
            final(self).segment_spec() == old(self).segment_spec(),
            final(self).fetch_modelled() == old(self).fetch_modelled(),
            final(self).ticks() >= old(self).ticks(),
            old(self).consistent() ==> final(self).consistent() && system_step(
                *old(self),
                *final(self),
                r,
                instruction,
            ),
    {
        let imm12 = instruction >> 20;
        proof {
            assert(instruction >> 20 == instruction / 1048576) by (bit_vector);
        }
        let f3 = Self::funct3(instruction);
        if f3 == 0 {
            if imm12 == 0 {
                let a7 = self.x(17);
                match self.builtins.get(a7) {
                    Some(builtin) => {
                        let pc = self.registers.pc;
                        self.run_builtin(builtin, a7);
                        self.set_pc(pc.wrapping_add(4));
                        if a7 == BUILTIN_YIELD {
                            StepResult::ForceYield
                        } else {
                            StepResult::Yield
                        }
                    },
                    None => StepResult::Unimplemented("ECALL"),
                }
            } else if imm12 == 1 {
                StepResult::Halt(0)
            } else {
                StepResult::Unimplemented("SYSTEM")
            }
        } else {
            self.op_csr(instruction, imm12 as u16, f3)
        }
    }
}

impl RiscV32IntegerMachine {
    /// Executes an instruction that touches neither memory nor the system.
    pub(crate) fn execute_pure(&mut self, instruction: u32) -> (r: StepResult)
        requires
            opcode_of(instruction) != OP_LOAD,
            opcode_of(instruction) != OP_STORE,
            opcode_of(instruction) != OP_SYSTEM,
        ensures
            pure_effect(old(self).regs().file(), old(self).regs().pc, instruction) == Some(
                (final(self).regs().file(), final(self).regs().pc, r),
            ),
            final(self).same_memory(old(self)),
            final(self).same_periphery(old(self)),
    {
        let op = Self::opcode(instruction);
        let pc = self.registers.pc;
        proof {
            let file = self.regs().file();
            assert(file[rs1_of(instruction) as int] == self.regs().reg(rs1_of(instruction) as int));
            assert(file[rs2_of(instruction) as int] == self.regs().reg(rs2_of(instruction) as int));
        }
        let r = if op == OP_OP {
            self.op_reg(instruction)
        } else if op == OP_OP_IMM {
            self.op_imm(instruction)
        } else if op == OP_LUI {
            self.op_lui(instruction)
        } else if op == OP_AUIPC {
            self.op_auipc(instruction)
        } else if op == OP_JAL {
            self.op_jal(instruction)
        } else if op == OP_JALR {
            self.op_jalr(instruction)
        } else if op == OP_BRANCH {
            self.op_branch(instruction)
        } else if op == OP_MISC_MEM {
            self.op_misc_mem(instruction)
        } else {
            StepResult::Unimplemented("unknown opcode")
        };
        if let StepResult::Continue = r {
            self.set_pc(pc.wrapping_add(4));
        }
        r
    }

    /// Executes `instruction`, including moving the program counter on.
    pub(crate) fn execute(&mut self, instruction: u32) -> (r: StepResult)
        requires
            old(self).wf(),
        ensures
            final(self).model_spec() == old(self).model_spec(),
            final(self).wf(),
            final(self).builtin_map() == old(self).builtin_map(),
            final(self).segment_spec() == old(self).segment_spec(),
            final(self).fetch_modelled() == old(self).fetch_modelled(),
            final(self).ticks() >= old(self).ticks(),
            old(self).consistent() ==> final(self).consistent() && insn_step(
                *old(self),
                *final(self),
                r,
                instruction,
            ),
    {
        let op = Self::opcode(instruction);
        if op == OP_LOAD {
            self.op_load(instruction)
        } else if op == OP_STORE {
            self.op_store(instruction)
        } else if op == OP_SYSTEM {
            self.op_system(instruction)
        } else {
            self.execute_pure(instruction)
        }
    }

    /// Reads the instruction word at `pc`: through the caches when fetches
    /// are modelled, else straight from memory at no cost.
    pub(crate) fn fetch(&mut self, pc: u32) -> (insn: u32)
        requires
            old(self).wf(),
            pc + 3 < MEMORY_SIZE,
        ensures
            final(self).wf(),
            final(self).regs() == old(self).regs(),
            final(self).same_periphery(old(self)),
            final(self).ticks() >= old(self).ticks(),
            old(self).consistent() ==> {
                &&& insn == le_u32(old(self).mem(), pc as int)
                &&& final(self).mem() == old(self).mem()
                &&& final(self).consistent()
            },
    {
        if self.model_instruction_fetch {
            self.load_u32(pc)
        } else {
            proof {
                assert(self.memory.accessible(pc as int));
                assert(self.memory.accessible(pc + 1));
                assert(self.memory.accessible(pc + 2));
                assert(self.memory.accessible(pc + 3));
            }
            let b0 = self.memory.peek_u8(pc as usize);
            let b1 = self.memory.peek_u8(pc as usize + 1);
            let b2 = self.memory.peek_u8(pc as usize + 2);
            let b3 = self.memory.peek_u8(pc as usize + 3);
            b0 as u32 + b1 as u32 * 256 + b2 as u32 * 65536 + b3 as u32 * 16777216
        }
    }
}

/// `mem` with `bytes` copied to it at `base`.
pub open spec fn loaded(mem: Seq<u8>, base: int, bytes: Seq<u8>) -> Seq<u8> {
    Seq::new(
        mem.len(),
        |a: int|
            if base <= a < base + bytes.len() {
                bytes[a - base]
            } else {
                mem[a]
            },
    )
}

/// Whether no cache level of `m` holds a line of the `len` bytes at `base`.
pub open spec fn uncached(m: RiscV32IntegerMachine, base: int, len: int) -> bool {
    forall|a: int| base <= a < base + len ==> !#[trigger] m.memory_spec().holds_line(a)
}

/// Whether `insn` is a breakpoint (`EBREAK`).
pub open spec fn is_breakpoint(insn: u32) -> bool {
    opcode_of(insn) == OP_SYSTEM && funct3_of(insn) == 0 && insn / 1048576 == 1
}

/// Whether `insn`, a load or store, would access memory outside what the
/// program of `t` may access.
pub open spec fn faults(t: RiscV32IntegerMachine, insn: u32) -> bool {
    let file = t.regs().file();
    let f3 = funct3_of(insn);
    if opcode_of(insn) == OP_LOAD {
        match load_width(f3) {
            Some(w) => !t.access_ok(file[rs1_of(insn) as int].wrapping_add(imm_i_of(insn)) as int, w),
            None => false,
        }
    } else if opcode_of(insn) == OP_STORE {
        match store_width(f3) {
            Some(w) => !t.access_ok(file[rs1_of(insn) as int].wrapping_add(imm_s_of(insn)) as int, w),
            None => false,
        }
    } else {
        false
    }
}

/// Where a program that stopped with `code` stands: its program counter
/// lies outside its segment (a segmentation fault), or on a breakpoint
/// (exit code 0), or on a load or store that reaches outside its segment
/// (a segmentation fault).
pub open spec fn halted_at(t: RiscV32IntegerMachine, code: i32) -> bool {
    let pc = t.regs().pc;
    if !t.access_ok(pc as int, 4) {
        code == EXIT_SEGMENTATION_FAULT
    } else {
        let insn = le_u32(t.mem(), pc as int) as u32;
        ||| is_breakpoint(insn) && code == 0
        ||| faults(t, insn) && code == EXIT_SEGMENTATION_FAULT
    }
}

/// A step stops the program only at a breakpoint, which exits with 0, or
/// at an access outside the program's segment, which exits with a
/// segmentation fault; the machine stays at the instruction that stopped.
pub proof fn lemma_halt_point(s: RiscV32IntegerMachine, t: RiscV32IntegerMachine, code: i32)
    requires
        step_effect(s, t, StepResult::Halt(code)),
        t.segment_spec() == s.segment_spec(),
    ensures
        halted_at(t, code),
{
    let pc = s.regs().pc;
    if s.access_ok(pc as int, 4) {
        let insn = le_u32(s.mem(), pc as int) as u32;
        let file = s.regs().file();
        let op = opcode_of(insn);
        match pure_effect(file, pc, insn) {
            Some(e) => {
                assert(false);
            },
            None => {
                if op == OP_LOAD {
                } else if op == OP_STORE {
                } else {
                    assert(op == OP_SYSTEM);
                    if funct3_of(insn) == 0 {
                        let a7 = file[17];
                        if insn / 1048576 == 0 && s.builtin_map().contains_key(a7) {
                            assert(false);
                        }
                    } else {
                        let csr = (insn / 1048576) as u16;
                        let u = csr_update(funct3_of(insn), s.csr_spec().value(csr), csr_operand(funct3_of(insn), insn, file));
                        if u is Some {
                            assert(false);
                        }
                    }
                }
            },
        }
    }
}

/// One step of `s` gives `t` and reports `r`, as [`step_effect`] says; kept
/// folded where a proof only passes steps along.
#[verifier::opaque]
pub open spec fn stepped(s: RiscV32IntegerMachine, t: RiscV32IntegerMachine, r: StepResult) -> bool {
    step_effect(s, t, r)
}

/// Whether the program of `t` stands on an instruction that the machine
/// does not execute: stepping reports it and changes nothing.
pub open spec fn rejects(t: RiscV32IntegerMachine) -> bool {
    exists|x: &'static str| #[trigger] step_effect(t, t, StepResult::Unimplemented(x))
}

/// A step that reports an instruction the machine does not execute leaves
/// the program on that instruction.
pub proof fn lemma_reject_point(s: RiscV32IntegerMachine, t: RiscV32IntegerMachine, x: &'static str)
    requires
        step_effect(s, t, StepResult::Unimplemented(x)),
        t.segment_spec() == s.segment_spec(),
        t.builtin_map() == s.builtin_map(),
    ensures
        step_effect(t, t, StepResult::Unimplemented(x)),
        rejects(t),
{
    assert(step_effect(t, t, StepResult::Unimplemented(x)));
}

impl Machine for RiscV32IntegerMachine {
    open spec fn machine_wf(&self) -> bool {
        self.wf()
    }

    open spec fn trusted(&self) -> bool {
        self.consistent()
    }

    open spec fn steps_to(&self, next: Self, r: StepResult) -> bool {
        stepped(*self, next, r)
    }

    open spec fn loaded_from(&self, before: Self, image: Seq<u8>) -> bool {
        &&& self.mem() == loaded(before.mem(), 0, image)
        &&& self.regs().pc == 0
        &&& self.regs().file() == before.regs().file()
        &&& self.segment_spec() == before.segment_spec()
    }

    open spec fn can_load(&self, len: nat) -> bool {
        uncached(*self, 0, len as int)
    }

    open spec fn halt_point(&self, code: i32) -> bool {
        halted_at(*self, code)
    }

    open spec fn rejects_instruction(&self) -> bool {
        rejects(*self)
    }

    open spec fn tick_count(&self) -> u64 {
        self.ticks()
    }

    open spec fn capacity(&self) -> nat {
        MEMORY_SIZE as nat
    }

    fn load_binary(&mut self, bytes: &[u8])
        ensures
            final(self).regs().pc == 0,
            final(self).regs().file() == old(self).regs().file(),
            final(self).same_periphery(old(self)),
            old(self).consistent() && uncached(*old(self), 0, bytes@.len() as int) ==> {
                &&& final(self).mem() == loaded(old(self).mem(), 0, bytes@)
                &&& final(self).consistent()
            },
    {
        self.load_binary_at(bytes, 0);
        self.set_pc(0);
        self.reset_clock();
    }

    fn load_binary_at(&mut self, bytes: &[u8], base: u32)
        ensures
            final(self).regs() == old(self).regs(),
            final(self).same_periphery(old(self)),
            forall|a: int| #[trigger] final(self).memory_spec().holds_line(a) == old(self).memory_spec().holds_line(a),
            old(self).consistent() && uncached(*old(self), base as int, bytes@.len() as int) ==> {
                &&& final(self).mem() == loaded(old(self).mem(), base as int, bytes@)
                &&& final(self).consistent()
            },
    {
        let ghost s0 = *self;
        let mut i: usize = 0;
        while i < bytes.len()
            invariant
                self.wf(),
                base + bytes@.len() <= MEMORY_SIZE,
                0 <= i <= bytes@.len(),
                self.regs() == s0.regs(),
                self.same_periphery(&s0),
                self.ticks() >= s0.ticks(),
                forall|a: int| #[trigger] self.memory_spec().holds_line(a) == s0.memory_spec().holds_line(a),
                s0.consistent() && uncached(s0, base as int, bytes@.len() as int) ==> {
                    &&& self.mem() == loaded(s0.mem(), base as int, bytes@.subrange(0, i as int))
                    &&& self.consistent()
                },
            decreases bytes@.len() - i,
        {
            let addr = base + i as u32;
            let ghost m1 = self.mem();
            self.store_backmost(addr, bytes[i]);
            proof {
                if s0.consistent() && uncached(s0, base as int, bytes@.len() as int) {
                    assert(!s0.memory_spec().holds_line(addr as int));
                    assert(loaded(s0.mem(), base as int, bytes@.subrange(0, i + 1)) =~= m1.update(
                        addr as int,
                        bytes@[i as int],
                    ));
                }
            }
            i = i + 1;
        }
        proof {
            assert(bytes@.subrange(0, bytes@.len() as int) =~= bytes@);
        }
    }

    /// Executes one instruction: fetches it, runs it and advances the clock
    /// by what it costs. A program counter outside the program's segment
    /// stops the program with a segmentation fault, at the cost of a cycle.
    fn step(&mut self) -> (r: StepResult)
        ensures
            final(self).model_spec() == old(self).model_spec(),
            final(self).builtin_map() == old(self).builtin_map(),
            final(self).segment_spec() == old(self).segment_spec(),
            final(self).fetch_modelled() == old(self).fetch_modelled(),
            old(self).consistent() ==> final(self).consistent() && step_effect(
                *old(self),
                *final(self),
                r,
            ),
            old(self).consistent() && old(self).access_ok(old(self).regs().pc as int, 4) ==> final(self).ticks()
                >= saturating_tick(
                old(self).ticks(),
                cycles_spec(le_u32(old(self).mem(), old(self).regs().pc as int) as u32, r),
            ),
            !old(self).access_ok(old(self).regs().pc as int, 4) ==> final(self).ticks() == saturating_tick(
                old(self).ticks(),
                1,
            ),
    {
        let pc = self.registers.pc;
        if !self.access_allowed(pc, 4) {
            self.advance_clock(1);
            assert(self.capacity() == old(self).capacity());
            proof {
                reveal(stepped);
                if old(self).consistent() {
                    lemma_halt_point(*old(self), *self, EXIT_SEGMENTATION_FAULT);
                }
            }
            return StepResult::Halt(EXIT_SEGMENTATION_FAULT);
        }
        let instruction = self.fetch(pc);
        let result = self.execute(instruction);
        let cycles = Self::instruction_cycles(instruction, &result);
        self.advance_clock(cycles);
        assert(self.capacity() == old(self).capacity());
        proof {
            reveal(stepped);
            if old(self).consistent() {
                match result {
                    StepResult::Halt(code) => lemma_halt_point(*old(self), *self, code),
                    StepResult::Unimplemented(x) => lemma_reject_point(*old(self), *self, x),
                    _ => {},
                }
            }
        }
        result
    }

    fn current_tick(&self) -> (t: u64) {
        assert(self.tick_count() == self.ticks());
        self.cycle_count()
    }
}

} // verus!
