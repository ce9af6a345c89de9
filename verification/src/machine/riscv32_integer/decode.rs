use vstd::prelude::*;

use super::RiscV32IntegerMachine;

verus! {

/// Major opcode: bits 0..7.
pub open spec fn opcode_of(insn: u32) -> u32 {
    insn % 128
}

/// Destination register: bits 7..12.
pub open spec fn rd_of(insn: u32) -> u8 {
    ((insn / 128) % 32) as u8
}

/// First source register: bits 15..20.
pub open spec fn rs1_of(insn: u32) -> u8 {
    ((insn / 32768) % 32) as u8
}

/// Second source register: bits 20..25.
pub open spec fn rs2_of(insn: u32) -> u8 {
    ((insn / 1048576) % 32) as u8
}

/// Minor opcode: bits 12..15.
pub open spec fn funct3_of(insn: u32) -> u32 {
    (insn / 4096) % 8
}

/// Function code: bits 25..32.
pub open spec fn funct7_of(insn: u32) -> u32 {
    insn / 33554432
}

/// The 12-bit two's complement value `v` widened to 32 bits.
pub open spec fn sext12(v: int) -> u32 {
    if v >= 2048 {
        (v + 0xffff_f000) as u32
    } else {
        v as u32
    }
}

/// The 13-bit two's complement value `v` widened to 32 bits.
pub open spec fn sext13(v: int) -> u32 {
    if v >= 4096 {
        (v + 0xffff_e000) as u32
    } else {
        v as u32
    }
}

/// The 21-bit two's complement value `v` widened to 32 bits.
pub open spec fn sext21(v: int) -> u32 {
    if v >= 1048576 {
        (v + 0xffe0_0000) as u32
    } else {
        v as u32
    }
}

/// I-type immediate: bits 20..32, sign-extended.
pub open spec fn imm_i_of(insn: u32) -> u32 {
    sext12((insn / 1048576) as int)
}

/// S-type immediate: bits 25..32 above bits 7..12, sign-extended.
pub open spec fn imm_s_of(insn: u32) -> u32 {
    sext12((insn / 33554432) * 32 + (insn / 128) % 32)
}

/// B-type immediate: a 13-bit even offset gathered from bits 31, 7, 25..31 and 8..12.
pub open spec fn imm_b_of(insn: u32) -> u32 {
    sext13(
        (insn / 0x8000_0000) * 4096 + ((insn / 128) % 2) * 2048 + ((insn / 33554432) % 64) * 32
            + ((insn / 256) % 16) * 2,
    )
}

/// U-type immediate: bits 12..32 in place.
pub open spec fn imm_u_of(insn: u32) -> u32 {
    ((insn / 4096) * 4096) as u32
}

/// J-type immediate: a 21-bit even offset gathered from bits 31, 12..20, 20 and 21..31.
pub open spec fn imm_j_of(insn: u32) -> u32 {
    sext21(
        (insn / 0x8000_0000) * 1048576 + ((insn / 4096) % 256) * 4096 + ((insn / 1048576) % 2)
            * 2048 + ((insn / 2097152) % 1024) * 2,
    )
}

impl RiscV32IntegerMachine {
    pub(crate) fn opcode(instruction: u32) -> (r: u32)
        ensures
            r == opcode_of(instruction),
    {
        proof {
            assert(instruction & 0x7f == instruction % 128) by (bit_vector);
        }
        instruction & 0x7f
    }

    pub(crate) fn rd(instruction: u32) -> (r: u8)
        ensures
            r == rd_of(instruction),
            r < 32,
    {
        proof {
            assert((instruction >> 7) & 0x1f == (instruction / 128) % 32) by (bit_vector);
        }
        ((instruction >> 7) & 0x1f) as u8
    }

    pub(crate) fn rs1(instruction: u32) -> (r: u8)
        ensures
            r == rs1_of(instruction),
            r < 32,
    {
        proof {
            assert((instruction >> 15) & 0x1f == (instruction / 32768) % 32) by (bit_vector);
        }
        ((instruction >> 15) & 0x1f) as u8
    }

    pub(crate) fn rs2(instruction: u32) -> (r: u8)
        ensures
            r == rs2_of(instruction),
            r < 32,
    {
        proof {
            assert((instruction >> 20) & 0x1f == (instruction / 1048576) % 32) by (bit_vector);
        }
        ((instruction >> 20) & 0x1f) as u8
    }

    pub(crate) fn funct3(instruction: u32) -> (r: u32)
        ensures
            r == funct3_of(instruction),
            r < 8,
    {
        proof {
            assert((instruction >> 12) & 0x7 == (instruction / 4096) % 8) by (bit_vector);
        }
        (instruction >> 12) & 0x7
    }

    pub(crate) fn funct7(instruction: u32) -> (r: u32)
        ensures
            r == funct7_of(instruction),
            r < 128,
    {
        proof {
            assert((instruction >> 25) & 0x7f == instruction / 33554432) by (bit_vector);
        }
        (instruction >> 25) & 0x7f
    }

    pub(crate) fn imm_i(instruction: u32) -> (r: u32)
        ensures
            r == imm_i_of(instruction),
    {
        let v = instruction >> 20;
        proof {
            assert(instruction >> 20 == instruction / 1048576) by (bit_vector);
            assert(v < 4096) by (bit_vector)
                requires
                    v == instruction >> 20,
            ;
        }
        if v >= 2048 {
            proof {
                assert(v | 0xffff_f000 == v + 0xffff_f000) by (bit_vector)
                    requires
                        2048 <= v < 4096,
                ;
            }
            v | 0xffff_f000
        } else {
            v
        }
    }

    pub(crate) fn imm_s(instruction: u32) -> (r: u32)
        ensures
            r == imm_s_of(instruction),
    {
        let raw = ((instruction >> 25) << 5) | ((instruction >> 7) & 0x1f);
        proof {
            assert(((instruction >> 25) << 5) | ((instruction >> 7) & 0x1f) == (instruction
                / 33554432) * 32 + (instruction / 128) % 32) by (bit_vector);
            assert(raw < 4096) by (bit_vector)
                requires
                    raw == ((instruction >> 25) << 5) | ((instruction >> 7) & 0x1f),
            ;
        }
        if raw >= 2048 {
            proof {
                assert(raw | 0xffff_f000 == raw + 0xffff_f000) by (bit_vector)
                    requires
                        2048 <= raw < 4096,
                ;
            }
            raw | 0xffff_f000
        } else {
            raw
        }
    }

    pub(crate) fn imm_b(instruction: u32) -> (r: u32)
        ensures
            r == imm_b_of(instruction),
    {
        let imm13 = ((instruction >> 31) << 12) | (((instruction >> 7) & 1) << 11) | (((
        instruction >> 25) & 0x3f) << 5) | (((instruction >> 8) & 0xf) << 1);
        proof {
            assert(((instruction >> 31) << 12) | (((instruction >> 7) & 1) << 11) | (((instruction
                >> 25) & 0x3f) << 5) | (((instruction >> 8) & 0xf) << 1) == (instruction
                / 0x8000_0000) * 4096 + ((instruction / 128) % 2) * 2048 + ((instruction
                / 33554432) % 64) * 32 + ((instruction / 256) % 16) * 2) by (bit_vector);
            assert(imm13 < 8192) by (bit_vector)
                requires
                    imm13 == ((instruction >> 31) << 12) | (((instruction >> 7) & 1) << 11) | (((
                    instruction >> 25) & 0x3f) << 5) | (((instruction >> 8) & 0xf) << 1),
            ;
        }
        if imm13 >= 4096 {
            proof {
                assert(imm13 | 0xffff_e000 == imm13 + 0xffff_e000) by (bit_vector)
                    requires
                        4096 <= imm13 < 8192,
                ;
            }
            imm13 | 0xffff_e000
        } else {
            imm13
        }
    }

    pub(crate) fn imm_u(instruction: u32) -> (r: u32)
        ensures
            r == imm_u_of(instruction),
    {
        proof {
            assert(instruction & 0xffff_f000 == (instruction / 4096) * 4096) by (bit_vector);
        }
        instruction & 0xffff_f000
    }

    pub(crate) fn imm_j(instruction: u32) -> (r: u32)
        ensures
            r == imm_j_of(instruction),
    {
        let imm21 = ((instruction >> 31) << 20) | (((instruction >> 12) & 0xff) << 12) | (((
        instruction >> 20) & 1) << 11) | (((instruction >> 21) & 0x3ff) << 1);
        proof {
            assert(((instruction >> 31) << 20) | (((instruction >> 12) & 0xff) << 12) | (((
            instruction >> 20) & 1) << 11) | (((instruction >> 21) & 0x3ff) << 1) == (instruction
                / 0x8000_0000) * 1048576 + ((instruction / 4096) % 256) * 4096 + ((instruction
                / 1048576) % 2) * 2048 + ((instruction / 2097152) % 1024) * 2) by (bit_vector);
            assert(imm21 < 2097152) by (bit_vector)
                requires
                    imm21 == ((instruction >> 31) << 20) | (((instruction >> 12) & 0xff) << 12) | (((
                    instruction >> 20) & 1) << 11) | (((instruction >> 21) & 0x3ff) << 1),
            ;
        }
        if imm21 >= 1048576 {
            proof {
                assert(imm21 | 0xffe0_0000 == imm21 + 0xffe0_0000) by (bit_vector)
                    requires
                        1048576 <= imm21 < 2097152,
                ;
            }
            imm21 | 0xffe0_0000
        } else {
            imm21
        }
    }
}

} // verus!
