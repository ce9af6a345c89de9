use vstd::prelude::*;

use crate::machine::StepResult;

use super::decode::{
    funct3_of, funct7_of, imm_b_of, imm_i_of, imm_j_of, imm_s_of, imm_u_of, opcode_of, rd_of,
    rs1_of, rs2_of,
};
use super::{MEMORY_SIZE, RiscV32IntegerMachine, write_reg};
use crate::device::memory::{le_u16, le_u32, put_u16, put_u32};

verus! {

pub const OP_OP: u32 = 0x33;
pub const OP_OP_IMM: u32 = 0x13;
pub const OP_LUI: u32 = 0x37;
pub const OP_AUIPC: u32 = 0x17;
pub const OP_BRANCH: u32 = 0x63;
pub const OP_JAL: u32 = 0x6f;
pub const OP_JALR: u32 = 0x67;
pub const OP_LOAD: u32 = 0x03;
pub const OP_STORE: u32 = 0x23;
pub const OP_MISC_MEM: u32 = 0x0f;
pub const OP_SYSTEM: u32 = 0x73;

pub const F3_CSRRW: u32 = 0x1;
pub const F3_CSRRS: u32 = 0x2;
pub const F3_CSRRC: u32 = 0x3;
pub const F3_CSRRWI: u32 = 0x5;
pub const F3_CSRRSI: u32 = 0x6;
pub const F3_CSRRCI: u32 = 0x7;

/// Exit code of a program that touched memory outside its segment.
pub const EXIT_SEGMENTATION_FAULT: i32 = -11;

/// `a < b` on the two's complement readings of `a` and `b`.
pub open spec fn signed_lt(a: u32, b: u32) -> bool {
    (a as i32) < (b as i32)
}

/// Result of the register-register operation named by `f7` and `f3`.
pub open spec fn alu_reg(f7: u32, f3: u32, a: u32, b: u32) -> Option<u32> {
    let shamt = b % 32;
    if f7 == 0 && f3 == 0 {
        Some(a.wrapping_add(b))
    } else if f7 == 0x20 && f3 == 0 {
        Some(a.wrapping_sub(b))
    } else if f7 == 0 && f3 == 1 {
        Some(a << shamt)
    } else if f7 == 0 && f3 == 2 {
        Some(if signed_lt(a, b) { 1u32 } else { 0u32 })
    } else if f7 == 0 && f3 == 3 {
        Some(if a < b { 1u32 } else { 0u32 })
    } else if f7 == 0 && f3 == 4 {
        Some(a ^ b)
    } else if f7 == 0 && f3 == 5 {
        Some(a >> shamt)
    } else if f7 == 0x20 && f3 == 5 {
        Some(((a as i32) >> shamt) as u32)
    } else if f7 == 0 && f3 == 6 {
        Some(a | b)
    } else if f7 == 0 && f3 == 7 {
        Some(a & b)
    } else {
        None
    }
}

/// Result of the register-immediate operation named by `f7` and `f3`.
pub open spec fn alu_imm(f7: u32, f3: u32, a: u32, imm: u32) -> Option<u32> {
    let shamt = imm % 32;
    if f3 == 0 {
        Some(a.wrapping_add(imm))
    } else if f3 == 2 {
        Some(if signed_lt(a, imm) { 1u32 } else { 0u32 })
    } else if f3 == 3 {
        Some(if a < imm { 1u32 } else { 0u32 })
    } else if f3 == 4 {
        Some(a ^ imm)
    } else if f7 == 0 && f3 == 5 {
        Some(a >> shamt)
    } else if f7 == 0x20 && f3 == 5 {
        Some(((a as i32) >> shamt) as u32)
    } else if f3 == 6 {
        Some(a | imm)
    } else if f3 == 7 {
        Some(a & imm)
    } else if f7 == 0 && f3 == 1 {
        Some(a << shamt)
    } else {
        None
    }
}

/// Whether the branch named by `f3` is taken.
pub open spec fn branch_taken(f3: u32, a: u32, b: u32) -> Option<bool> {
    if f3 == 0 {
        Some(a == b)
    } else if f3 == 1 {
        Some(a != b)
    } else if f3 == 4 {
        Some(signed_lt(a, b))
    } else if f3 == 5 {
        Some(!signed_lt(a, b))
    } else if f3 == 6 {
        Some(a < b)
    } else if f3 == 7 {
        Some(a >= b)
    } else {
        None
    }
}

/// Number of bytes the load named by `f3` reads.
pub open spec fn load_width(f3: u32) -> Option<int> {
    if f3 == 0 || f3 == 4 {
        Some(1)
    } else if f3 == 1 || f3 == 5 {
        Some(2)
    } else if f3 == 2 {
        Some(4)
    } else {
        None
    }
}

/// Register value that the load named by `f3` produces from `mem` at `addr`.
pub open spec fn load_value(f3: u32, mem: Seq<u8>, addr: int) -> u32 {
    if f3 == 0 {
        mem[addr] as i8 as i32 as u32
    } else if f3 == 1 {
        le_u16(mem, addr) as u16 as i16 as i32 as u32
    } else if f3 == 2 {
        le_u32(mem, addr) as u32
    } else if f3 == 4 {
        mem[addr] as u32
    } else {
        le_u16(mem, addr) as u32
    }
}

/// Number of bytes the store named by `f3` writes.
pub open spec fn store_width(f3: u32) -> Option<int> {
    if f3 == 0 {
        Some(1)
    } else if f3 == 1 {
        Some(2)
    } else if f3 == 2 {
        Some(4)
    } else {
        None
    }
}

/// `mem` after the store named by `f3` writes `v` at `addr`.
pub open spec fn store_effect(f3: u32, mem: Seq<u8>, addr: int, v: u32) -> Seq<u8> {
    if f3 == 0 {
        mem.update(addr, v as u8)
    } else if f3 == 1 {
        put_u16(mem, addr, v as u16)
    } else {
        put_u32(mem, addr, v)
    }
}

/// Cycles an instruction costs, given what executing it returned.
pub open spec fn cycles_spec(instruction: u32, result: StepResult) -> u64 {
    let op = opcode_of(instruction);
    if op == OP_OP {
        if funct7_of(instruction) == 1 {
            if funct3_of(instruction) < 4 {
                4
            } else {
                20
            }
        } else {
            1
        }
    } else if op == OP_OP_IMM || op == OP_LUI || op == OP_AUIPC {
        1
    } else if op == OP_BRANCH {
        if result is PcUpdated {
            3
        } else {
            1
        }
    } else if op == OP_JAL || op == OP_JALR {
        3
    } else if op == OP_LOAD || op == OP_STORE {
        3
    } else if op == OP_MISC_MEM {
        1
    } else if op == OP_SYSTEM {
        let f3 = funct3_of(instruction);
        if f3 == 0 {
            let imm12 = instruction / 1048576;
            if imm12 == 0 {
                8
            } else if imm12 == 1 {
                1
            } else {
                2
            }
        } else if f3 == F3_CSRRW || f3 == F3_CSRRS || f3 == F3_CSRRC || f3 == F3_CSRRWI || f3
            == F3_CSRRSI || f3 == F3_CSRRCI {
            5
        } else {
            1
        }
    } else {
        1
    }
}

/// Effect of an instruction that touches neither memory nor the system:
/// the register file, program counter and result after it, or `None` for
/// loads, stores and system instructions.
pub open spec fn pure_effect(file: Seq<u32>, pc: u32, insn: u32) -> Option<(Seq<u32>, u32, StepResult)> {
    let op = opcode_of(insn);
    let next = pc.wrapping_add(4);
    let rd = rd_of(insn) as int;
    let a = file[rs1_of(insn) as int];
    let b = file[rs2_of(insn) as int];
    if op == OP_OP {
        match alu_reg(funct7_of(insn), funct3_of(insn), a, b) {
            Some(v) => Some((write_reg(file, rd, v), next, StepResult::Continue)),
            None => Some((file, pc, StepResult::Unimplemented("OP"))),
        }
    } else if op == OP_OP_IMM {
        match alu_imm(funct7_of(insn), funct3_of(insn), a, imm_i_of(insn)) {
            Some(v) => Some((write_reg(file, rd, v), next, StepResult::Continue)),
            None => Some((file, pc, StepResult::Unimplemented("OP-IMM"))),
        }
    } else if op == OP_LUI {
        Some((write_reg(file, rd, imm_u_of(insn)), next, StepResult::Continue))
    } else if op == OP_AUIPC {
        Some((write_reg(file, rd, pc.wrapping_add(imm_u_of(insn))), next, StepResult::Continue))
    } else if op == OP_JAL {
        Some((write_reg(file, rd, next), pc.wrapping_add(imm_j_of(insn)), StepResult::PcUpdated))
    } else if op == OP_JALR {
        let target = a.wrapping_add(imm_i_of(insn));
        Some((write_reg(file, rd, next), ((target / 2) * 2) as u32, StepResult::PcUpdated))
    } else if op == OP_BRANCH {
        match branch_taken(funct3_of(insn), a, b) {
            Some(true) => Some((file, pc.wrapping_add(imm_b_of(insn)), StepResult::PcUpdated)),
            Some(false) => Some((file, next, StepResult::Continue)),
            None => Some((file, pc, StepResult::Unimplemented("BRANCH"))),
        }
    } else if op == OP_MISC_MEM {
        Some((file, next, StepResult::Continue))
    } else if op == OP_LOAD || op == OP_STORE || op == OP_SYSTEM {
        None
    } else {
        Some((file, pc, StepResult::Unimplemented("unknown opcode")))
    }
}

impl RiscV32IntegerMachine {
    pub(crate) fn instruction_cycles(instruction: u32, result: &StepResult) -> (c: u64)
        ensures
            c == cycles_spec(instruction, *result),
            c >= 1,
    {
        let op = Self::opcode(instruction);
        if op == OP_OP {
            if Self::funct7(instruction) == 0x01 {
                if Self::funct3(instruction) < 4 {
                    4
                } else {
                    20
                }
            } else {
                1
            }
        } else if op == OP_OP_IMM || op == OP_LUI || op == OP_AUIPC {
            1
        } else if op == OP_BRANCH {
            match result {
                StepResult::PcUpdated => 3,
                _ => 1,
            }
        } else if op == OP_JAL || op == OP_JALR {
            3
        } else if op == OP_LOAD || op == OP_STORE {
            3
        } else if op == OP_MISC_MEM {
            1
        } else if op == OP_SYSTEM {
            let f3 = Self::funct3(instruction);
            if f3 == 0 {
                let imm12 = instruction >> 20;
                proof {
                    assert(instruction >> 20 == instruction / 1048576) by (bit_vector);
                }
                if imm12 == 0 {
                    8
                } else if imm12 == 1 {
                    1
                } else {
                    2
                }
            } else if f3 == F3_CSRRW || f3 == F3_CSRRS || f3 == F3_CSRRC || f3 == F3_CSRRWI || f3
                == F3_CSRRSI || f3 == F3_CSRRCI {
                5
            } else {
                1
            }
        } else {
            1
        }
    }

    pub(crate) fn op_lui(&mut self, instruction: u32) -> (r: StepResult)
        ensures
            r == StepResult::Continue,
            final(self).regs().file() == write_reg(
                old(self).regs().file(),
                rd_of(instruction) as int,
                imm_u_of(instruction),
            ),
            final(self).regs().pc == old(self).regs().pc,
            final(self).same_memory(old(self)),
            final(self).same_periphery(old(self)),
    {
        let rd = Self::rd(instruction);
        let imm = Self::imm_u(instruction);
        self.set_x(rd, imm);
        StepResult::Continue
    }

    pub(crate) fn op_auipc(&mut self, instruction: u32) -> (r: StepResult)
        ensures
            r == StepResult::Continue,
            final(self).regs().file() == write_reg(
                old(self).regs().file(),
                rd_of(instruction) as int,
                old(self).regs().pc.wrapping_add(imm_u_of(instruction)),
            ),
            final(self).regs().pc == old(self).regs().pc,
            final(self).same_memory(old(self)),
            final(self).same_periphery(old(self)),
    {
        let rd = Self::rd(instruction);
        let imm = Self::imm_u(instruction);
        let pc = self.registers.pc;
        self.set_x(rd, pc.wrapping_add(imm));
        StepResult::Continue
    }

    pub(crate) fn op_reg(&mut self, instruction: u32) -> (r: StepResult)
        ensures
            match alu_reg(
                funct7_of(instruction),
                funct3_of(instruction),
                old(self).regs().reg(rs1_of(instruction) as int),
                old(self).regs().reg(rs2_of(instruction) as int),
            ) {
                Some(v) => {
                    &&& r == StepResult::Continue
                    &&& final(self).regs().file() == write_reg(
                        old(self).regs().file(),
                        rd_of(instruction) as int,
                        v,
                    )
                },
                None => {
                    &&& r == StepResult::Unimplemented("OP")
                    &&& final(self).regs().file() == old(self).regs().file()
                },
            },
            final(self).regs().pc == old(self).regs().pc,
            final(self).same_memory(old(self)),
            final(self).same_periphery(old(self)),
    {
        let rd = Self::rd(instruction);
        let rs1 = Self::rs1(instruction);
        let rs2 = Self::rs2(instruction);
        let f3 = Self::funct3(instruction);
        let f7 = Self::funct7(instruction);
        let a = self.x(rs1);
        let b = self.x(rs2);
        let shamt = b % 32;
        let result: u32 = if f7 == 0x00 && f3 == 0x0 {
            a.wrapping_add(b)
        } else if f7 == 0x20 && f3 == 0x0 {
            a.wrapping_sub(b)
        } else if f7 == 0x00 && f3 == 0x1 {
            a << shamt
        } else if f7 == 0x00 && f3 == 0x2 {
            if (a as i32) < (b as i32) {
                1
            } else {
                0
            }
        } else if f7 == 0x00 && f3 == 0x3 {
            if a < b {
                1
            } else {
                0
            }
        } else if f7 == 0x00 && f3 == 0x4 {
            a ^ b
        } else if f7 == 0x00 && f3 == 0x5 {
            a >> shamt
        } else if f7 == 0x20 && f3 == 0x5 {
            ((a as i32) >> shamt) as u32
        } else if f7 == 0x00 && f3 == 0x6 {
            a | b
        } else if f7 == 0x00 && f3 == 0x7 {
            a & b
        } else {
            return StepResult::Unimplemented("OP");
        };
        self.set_x(rd, result);
        StepResult::Continue
    }

    pub(crate) fn op_imm(&mut self, instruction: u32) -> (r: StepResult)
        ensures
            match alu_imm(
                funct7_of(instruction),
                funct3_of(instruction),
                old(self).regs().reg(rs1_of(instruction) as int),
                imm_i_of(instruction),
            ) {
                Some(v) => {
                    &&& r == StepResult::Continue
                    &&& final(self).regs().file() == write_reg(
                        old(self).regs().file(),
                        rd_of(instruction) as int,
                        v,
                    )
                },
                None => {
                    &&& r == StepResult::Unimplemented("OP-IMM")
                    &&& final(self).regs().file() == old(self).regs().file()
                },
            },
            final(self).regs().pc == old(self).regs().pc,
            final(self).same_memory(old(self)),
            final(self).same_periphery(old(self)),
    {
        let rd = Self::rd(instruction);
        let rs1 = Self::rs1(instruction);
        let f3 = Self::funct3(instruction);
        let f7 = Self::funct7(instruction);
        let a = self.x(rs1);
        let imm = Self::imm_i(instruction);
        let shamt = imm % 32;
        let result: u32 = if f3 == 0x0 {
            a.wrapping_add(imm)
        } else if f3 == 0x2 {
            if (a as i32) < (imm as i32) {
                1
            } else {
                0
            }
        } else if f3 == 0x3 {
            if a < imm {
                1
            } else {
                0
            }
        } else if f3 == 0x4 {
            a ^ imm
        } else if f7 == 0x00 && f3 == 0x5 {
            a >> shamt
        } else if f7 == 0x20 && f3 == 0x5 {
            ((a as i32) >> shamt) as u32
        } else if f3 == 0x6 {
            a | imm
        } else if f3 == 0x7 {
            a & imm
        } else if f7 == 0x00 && f3 == 0x1 {
            a << shamt
        } else {
            return StepResult::Unimplemented("OP-IMM");
        };
        self.set_x(rd, result);
        StepResult::Continue
    }

    pub(crate) fn op_jal(&mut self, instruction: u32) -> (r: StepResult)
        ensures
            r == StepResult::PcUpdated,
            final(self).regs().file() == write_reg(
                old(self).regs().file(),
                rd_of(instruction) as int,
                old(self).regs().pc.wrapping_add(4),
            ),
            final(self).regs().pc == old(self).regs().pc.wrapping_add(imm_j_of(instruction)),
            final(self).same_memory(old(self)),
            final(self).same_periphery(old(self)),
    {
        let rd = Self::rd(instruction);
        let pc = self.registers.pc;
        let offset = Self::imm_j(instruction);
        self.set_x(rd, pc.wrapping_add(4));
        self.set_pc(pc.wrapping_add(offset));
        StepResult::PcUpdated
    }

    pub(crate) fn op_jalr(&mut self, instruction: u32) -> (r: StepResult)
        ensures
            r == StepResult::PcUpdated,
            final(self).regs().file() == write_reg(
                old(self).regs().file(),
                rd_of(instruction) as int,
                old(self).regs().pc.wrapping_add(4),
            ),
            final(self).regs().pc == ((old(self).regs().reg(rs1_of(instruction) as int).wrapping_add(
                imm_i_of(instruction),
            ) / 2) * 2) as u32,
            final(self).same_memory(old(self)),
            final(self).same_periphery(old(self)),
    {
        let rd = Self::rd(instruction);
        let rs1 = Self::rs1(instruction);
        let pc = self.registers.pc;
        let target = self.x(rs1).wrapping_add(Self::imm_i(instruction));
        self.set_x(rd, pc.wrapping_add(4));
        proof {
            assert(target & !1u32 == (target / 2) * 2) by (bit_vector);
        }
        self.set_pc(target & !1u32);
        StepResult::PcUpdated
    }

    pub(crate) fn op_branch(&mut self, instruction: u32) -> (r: StepResult)
        ensures
            final(self).regs().file() == old(self).regs().file(),
            match branch_taken(
                funct3_of(instruction),
                old(self).regs().reg(rs1_of(instruction) as int),
                old(self).regs().reg(rs2_of(instruction) as int),
            ) {
                Some(true) => {
                    &&& r == StepResult::PcUpdated
                    &&& final(self).regs().pc == old(self).regs().pc.wrapping_add(
                        imm_b_of(instruction),
                    )
                },
                Some(false) => {
                    &&& r == StepResult::Continue
                    &&& final(self).regs().pc == old(self).regs().pc
                },
                None => {
                    &&& r == StepResult::Unimplemented("BRANCH")
                    &&& final(self).regs().pc == old(self).regs().pc
                },
            },
            final(self).same_memory(old(self)),
            final(self).same_periphery(old(self)),
    {
        let rs1 = Self::rs1(instruction);
        let rs2 = Self::rs2(instruction);
        let f3 = Self::funct3(instruction);
        let pc = self.registers.pc;
        let offset = Self::imm_b(instruction);
        let a = self.x(rs1);
        let b = self.x(rs2);
        let take = if f3 == 0x0 {
            a == b
        } else if f3 == 0x1 {
            a != b
        } else if f3 == 0x4 {
            (a as i32) < (b as i32)
        } else if f3 == 0x5 {
            (a as i32) >= (b as i32)
        } else if f3 == 0x6 {
            a < b
        } else if f3 == 0x7 {
            a >= b
        } else {
            return StepResult::Unimplemented("BRANCH");
        };
        if take {
            self.set_pc(pc.wrapping_add(offset));
            StepResult::PcUpdated
        } else {
            StepResult::Continue
        }
    }

    pub(crate) fn op_misc_mem(&mut self, _instruction: u32) -> (r: StepResult)
        ensures
            r == StepResult::Continue,
            *final(self) == *old(self),
    {
        StepResult::Continue
    }
}

} // verus!
