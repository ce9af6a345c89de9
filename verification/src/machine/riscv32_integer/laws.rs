use vstd::prelude::*;

use vstd::arithmetic::div_mod::{lemma_fundamental_div_mod, lemma_fundamental_div_mod_converse};
use vstd::arithmetic::power2::{lemma_pow2_pos, pow2};
use vstd::bits::{lemma_u32_shr_is_div, lemma_u64_shl_is_mul};
use vstd::arithmetic::power2::lemma_pow2_strictly_increases;

use super::builtins::{c_string, decimal, directive, format_text, signed_decimal};
use super::execute::{alu_imm, alu_reg, branch_taken, load_value, pure_effect, OP_JAL, OP_JALR, OP_BRANCH};
use super::decode::{funct3_of, imm_b_of, imm_i_of, imm_j_of, opcode_of, rd_of, rs1_of, rs2_of};
use super::write_reg;
use crate::machine::StepResult;
use crate::device::memory::{le_u16, le_u32};

verus! {

/// The two's-complement reading of a 32-bit register.
pub open spec fn signed(x: u32) -> int {
    if x < 0x8000_0000 {
        x as int
    } else {
        x - 0x1_0000_0000
    }
}

proof fn lemma_signed_cast(x: u32)
    ensures
        (x as i32) as int == signed(x),
{
    assert(x < 0x8000_0000 ==> (x as i32) as int == x as int) by (bit_vector);
    assert(x >= 0x8000_0000 ==> (x as i32) as int == x - 0x1_0000_0000) by (bit_vector);
}

proof fn lemma_arith_shift_bits(a: u32, s: u32)
    requires
        s < 32,
    ensures
        ((a as i32) >> s) as u32 == if a < 0x8000_0000 { a >> s } else { !((!a) >> s) },
{
    assert(a < 0x8000_0000 ==> ((a as i32) >> s) as u32 == a >> s) by (bit_vector)
        requires
            s < 32,
    ;
    assert(a >= 0x8000_0000 ==> ((a as i32) >> s) as u32 == !((!a) >> s)) by (bit_vector)
        requires
            s < 32,
    ;
}

/// Shifting right arithmetically by `s` divides the two's-complement value
/// by 2 to the power `s`, rounding toward negative infinity.
proof fn lemma_arith_shift_divides(a: u32, s: u32)
    requires
        s < 32,
    ensures
        signed(((a as i32) >> s) as u32) == signed(a) / pow2(s as nat) as int,
{
    let p = pow2(s as nat) as int;
    lemma_pow2_pos(s as nat);
    lemma_arith_shift_bits(a, s);
    let r = ((a as i32) >> s) as u32;
    if a < 0x8000_0000 {
        lemma_u32_shr_is_div(a, s);
        assert(r <= a) by (bit_vector)
            requires
                r == a >> s,
        ;
    } else {
        let na = !a;
        assert(!a == 0xFFFF_FFFF - a) by (bit_vector);
        let q = na >> s;
        lemma_u32_shr_is_div(na, s);
        assert(q <= na) by (bit_vector)
            requires
                q == na >> s,
        ;
        assert(!q == 0xFFFF_FFFF - q) by (bit_vector);
        assert(r == 0xFFFF_FFFF - q);
        lemma_fundamental_div_mod(na as int, p);
        let m = (na as int) % p;
        assert(-1 - na == (-1 - q) * p + (p - 1 - m)) by (nonlinear_arith)
            requires
                na == p * q + m,
        ;
        lemma_fundamental_div_mod_converse(-1 - na, p, -1 - q, p - 1 - m);
    }
}

/// `sra` and `srai` write the two's-complement value of the first operand
/// divided by 2 to the power of the shift amount (the low five bits of the
/// second operand), rounded toward negative infinity: the sign bit fills
/// the vacated high bits.
pub proof fn lemma_sra_rounds_down(a: u32, b: u32)
    ensures
        alu_reg(0x20, 5, a, b) is Some,
        signed(alu_reg(0x20, 5, a, b)->0) == signed(a) / pow2((b % 32) as nat) as int,
        alu_imm(0x20, 5, a, b) is Some,
        signed(alu_imm(0x20, 5, a, b)->0) == signed(a) / pow2((b % 32) as nat) as int,
{
    lemma_arith_shift_divides(a, b % 32);
}

/// `srl` and `srli` write the first operand, read unsigned, divided by 2 to
/// the power of the shift amount, rounded down.
pub proof fn lemma_srl_divides(a: u32, b: u32)
    ensures
        alu_reg(0, 5, a, b) == Some((a as nat / pow2((b % 32) as nat)) as u32),
        alu_imm(0, 5, a, b) == Some((a as nat / pow2((b % 32) as nat)) as u32),
{
    lemma_u32_shr_is_div(a, b % 32);
}

/// A conditional branch is taken exactly when its comparison holds: `beq`
/// on equal operands, `bne` on different ones, `blt` and `bge` on the
/// two's-complement values (`bge` also on equal ones), `bltu` and `bgeu` on
/// the unsigned values; the other encodings are not branches.
pub proof fn lemma_branch_compares(f3: u32, a: u32, b: u32)
    ensures
        f3 == 0 ==> branch_taken(f3, a, b) == Some(a == b),
        f3 == 1 ==> branch_taken(f3, a, b) == Some(a != b),
        f3 == 4 ==> branch_taken(f3, a, b) == Some(signed(a) < signed(b)),
        f3 == 5 ==> branch_taken(f3, a, b) == Some(signed(a) >= signed(b)),
        f3 == 6 ==> branch_taken(f3, a, b) == Some(a < b),
        f3 == 7 ==> branch_taken(f3, a, b) == Some(a >= b),
        f3 == 2 || f3 == 3 ==> branch_taken(f3, a, b) is None,
        f3 == 5 && a == b ==> branch_taken(f3, a, b) == Some(true),
{
    lemma_signed_cast(a);
    lemma_signed_cast(b);
}

/// Whether every byte of `s` is an ASCII decimal digit.
pub open spec fn all_digits(s: Seq<u8>) -> bool {
    forall|i: int| 0 <= i < s.len() ==> 48 <= #[trigger] s[i] <= 57
}

/// The number that the ASCII decimal digits `s` spell, most significant
/// first.
pub open spec fn digits_value(s: Seq<u8>) -> int
    decreases s.len(),
{
    if s.len() == 0 {
        0
    } else {
        digits_value(s.drop_last()) * 10 + (s.last() - 48)
    }
}

/// The integer that decimal text reads as: an optional leading `-`, then
/// digits.
pub open spec fn read_integer(s: Seq<u8>) -> int {
    if s.len() > 0 && s[0] == 45 {
        -digits_value(s.drop_first())
    } else {
        digits_value(s)
    }
}

/// The decimal text of `n` is a non-empty run of digits that reads back as
/// `n`, with no leading zero.
pub proof fn lemma_decimal_reads_back(n: nat)
    ensures
        decimal(n).len() > 0,
        all_digits(decimal(n)),
        digits_value(decimal(n)) == n,
        decimal(n)[0] == 48 ==> n == 0,
    decreases n,
{
    if n >= 10 {
        lemma_decimal_reads_back(n / 10);
        let d = decimal(n / 10);
        assert(decimal(n).drop_last() =~= d);
        assert(decimal(n)[0] == d[0]);
        assert(decimal(n).last() == (n % 10 + 48) as u8);
        assert(digits_value(decimal(n)) == digits_value(d) * 10 + (n % 10));
    } else {
        assert(decimal(n).drop_last() =~= Seq::<u8>::empty());
        assert(digits_value(Seq::<u8>::empty()) == 0);
        assert(digits_value(decimal(n)) == 0 * 10 + ((n + 48) as u8 - 48));
    }
}

/// `%d` prints a register's two's-complement value as Rust prints an
/// `i32`: a `-` exactly when the value is negative, then the digits of its
/// magnitude; the text reads back as the value.
pub proof fn lemma_signed_decimal_reads_back(v: i32)
    ensures
        signed_decimal(v).len() > 0,
        (signed_decimal(v)[0] == 45) == (v < 0),
        all_digits(if v < 0 { signed_decimal(v).drop_first() } else { signed_decimal(v) }),
        read_integer(signed_decimal(v)) == v,
{
    if v < 0 {
        lemma_decimal_reads_back((0 - v) as nat);
        assert(signed_decimal(v).drop_first() =~= decimal((0 - v) as nat));
    } else {
        lemma_decimal_reads_back(v as nat);
        assert(48 <= decimal(v as nat)[0] <= 57);
    }
}

/// `add`/`addi` and `sub` wrap around 2^32; `slt`/`slti` compare the
/// two's-complement values and `sltu`/`sltiu` the unsigned ones, writing 1
/// when the first is smaller and 0 otherwise.
pub proof fn lemma_alu_arithmetic(f7: u32, a: u32, b: u32)
    ensures
        alu_reg(0, 0, a, b) == Some(((a + b) % 0x1_0000_0000) as u32),
        alu_reg(0x20, 0, a, b) == Some(((a - b) % 0x1_0000_0000) as u32),
        alu_reg(0, 2, a, b) == Some(if signed(a) < signed(b) { 1u32 } else { 0u32 }),
        alu_reg(0, 3, a, b) == Some(if a < b { 1u32 } else { 0u32 }),
        alu_imm(f7, 0, a, b) == Some(((a + b) % 0x1_0000_0000) as u32),
        alu_imm(f7, 2, a, b) == Some(if signed(a) < signed(b) { 1u32 } else { 0u32 }),
        alu_imm(f7, 3, a, b) == Some(if a < b { 1u32 } else { 0u32 }),
{
    lemma_signed_cast(a);
    lemma_signed_cast(b);
}

/// `sll` and `slli` multiply the first operand by 2 to the power of the
/// shift amount, keeping the low 32 bits.
pub proof fn lemma_sll_multiplies(a: u32, b: u32)
    ensures
        alu_reg(0, 1, a, b) == Some(((a * pow2((b % 32) as nat)) % 0x1_0000_0000) as u32),
        alu_imm(0, 1, a, b) == Some(((a * pow2((b % 32) as nat)) % 0x1_0000_0000) as u32),
{
    let s = b % 32;
    let w = a as u64;
    lemma_pow2_strictly_increases(s as nat, 32);
    vstd::arithmetic::power2::lemma2_to64();
    assert(w * pow2(s as nat) <= u64::MAX) by (nonlinear_arith)
        requires
            w < 0x1_0000_0000,
            pow2(s as nat) < 0x1_0000_0000,
    ;
    lemma_u64_shl_is_mul(w, s as u64);
    let big = w << (s as u64);
    assert((a << s) as u64 == big & 0xFFFF_FFFF) by (bit_vector)
        requires
            w == a as u64,
            big == w << (s as u64),
            s < 32,
    ;
    assert(big & 0xFFFF_FFFF == big % 0x1_0000_0000) by (bit_vector);
}

/// `lb` and `lh` sign-extend the byte or halfword they read, `lbu` and
/// `lhu` zero-extend it, and `lw` reads the little-endian word.
pub proof fn lemma_loads_extend(mem: Seq<u8>, addr: int)
    ensures
        load_value(0, mem, addr) == if mem[addr] < 0x80 {
            mem[addr] as u32
        } else {
            (mem[addr] + 0xFFFF_FF00) as u32
        },
        load_value(4, mem, addr) == mem[addr] as u32,
        load_value(1, mem, addr) == if le_u16(mem, addr) < 0x8000 {
            le_u16(mem, addr) as u32
        } else {
            (le_u16(mem, addr) + 0xFFFF_0000) as u32
        },
        load_value(5, mem, addr) == le_u16(mem, addr) as u32,
        load_value(2, mem, addr) as int == le_u32(mem, addr),
{
    let x = mem[addr];
    assert((x as i8 as i32 as u32) == if x < 0x80 { x as u32 } else { (x as u32 + 0xFFFF_FF00u32) as u32 }) by (bit_vector);
    assert(0 <= le_u16(mem, addr) < 0x1_0000);
    let h = le_u16(mem, addr) as u16;
    assert(h == le_u16(mem, addr));
    assert((h as i16 as i32 as u32) == if h < 0x8000 { h as u32 } else { (h as u32 + 0xFFFF_0000u32) as u32 }) by (bit_vector);
    assert(0 <= le_u32(mem, addr) < 0x1_0000_0000);
}

/// A format string without `%` prints as it stands, up to its terminator.
pub proof fn lemma_plain_format_copied(mem: Seq<u8>, file: Seq<u32>, addr: u32, arg: u8, fuel: nat)
    requires
        forall|i: int| 0 <= i < c_string(mem, addr, fuel).len() ==> #[trigger] c_string(mem, addr, fuel)[i] != 37,
    ensures
        format_text(mem, file, addr, arg, fuel) == c_string(mem, addr, fuel),
    decreases fuel,
{
    if fuel > 0 && mem[addr as int] != 0 {
        let next = addr.wrapping_add(1);
        let rest = c_string(mem, next, (fuel - 1) as nat);
        assert(c_string(mem, addr, fuel) == seq![mem[addr as int]] + rest);
        assert(c_string(mem, addr, fuel)[0] == mem[addr as int]);
        assert forall|i: int| 0 <= i < rest.len() implies #[trigger] rest[i] != 37 by {
            assert(c_string(mem, addr, fuel)[i + 1] == rest[i]);
        }
        lemma_plain_format_copied(mem, file, next, arg, (fuel - 1) as nat);
    }
}

/// `%d` takes the next argument register and prints it as a signed
/// decimal, `%s` takes it too, and any other conversion is copied as
/// `%` and its character, taking no argument.
pub proof fn lemma_directive_arguments(mem: Seq<u8>, file: Seq<u32>, conv: u8, arg: u8)
    ensures
        conv == 100 ==> directive(mem, file, conv, arg).0 == signed_decimal(
            (if 10 + arg < 32 { file[10 + arg] } else { 0u32 }) as i32,
        ),
        conv == 100 || conv == 115 ==> directive(mem, file, conv, arg).1 == if arg < 255 { (arg + 1) as u8 } else { 255u8 },
        conv != 100 && conv != 115 ==> directive(mem, file, conv, arg) == (seq![37u8, conv], arg),
{
}

/// `jal` links the address of the next instruction and jumps by its
/// offset; addresses wrap around 2^32.
#[verifier::spinoff_prover]
pub proof fn lemma_jal_links_and_jumps(file: Seq<u32>, pc: u32, insn: u32)
    requires
        opcode_of(insn) == OP_JAL,
    ensures
        pure_effect(file, pc, insn) == Some((
            write_reg(file, rd_of(insn) as int, ((pc + 4) % 0x1_0000_0000) as u32),
            ((pc + imm_j_of(insn)) % 0x1_0000_0000) as u32,
            StepResult::PcUpdated,
        )),
{
}

/// `jalr` links the address of the next instruction and jumps to the
/// first operand plus its offset, wrapping around 2^32, with the lowest bit
/// cleared.
#[verifier::spinoff_prover]
pub proof fn lemma_jalr_links_and_jumps(file: Seq<u32>, pc: u32, insn: u32)
    requires
        opcode_of(insn) == OP_JALR,
    ensures
        ({
            let t = (file[rs1_of(insn) as int] + imm_i_of(insn)) % 0x1_0000_0000;
            let e = pure_effect(file, pc, insn)->0;
            &&& pure_effect(file, pc, insn) is Some
            &&& e.0 == write_reg(file, rd_of(insn) as int, ((pc + 4) % 0x1_0000_0000) as u32)
            &&& e.1 % 2 == 0
            &&& (e.1 == t || e.1 == t - 1)
            &&& e.2 is PcUpdated
        }),
{
}

/// A branch jumps by its offset when taken and goes on with the next
/// instruction when not, leaving the registers alone; addresses wrap
/// around 2^32.
#[verifier::spinoff_prover]
pub proof fn lemma_branch_target(file: Seq<u32>, pc: u32, insn: u32)
    requires
        opcode_of(insn) == OP_BRANCH,
    ensures
        branch_taken(funct3_of(insn), file[rs1_of(insn) as int], file[rs2_of(insn) as int]) == Some(true)
            ==> pure_effect(file, pc, insn) == Some((
            file,
            ((pc + imm_b_of(insn)) % 0x1_0000_0000) as u32,
            StepResult::PcUpdated,
        )),
        branch_taken(funct3_of(insn), file[rs1_of(insn) as int], file[rs2_of(insn) as int]) == Some(false)
            ==> pure_effect(file, pc, insn) == Some((file, ((pc + 4) % 0x1_0000_0000) as u32, StepResult::Continue)),
{
}

} // verus!
