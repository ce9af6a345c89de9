use vstd::prelude::*;

use super::{Builtin, MEMORY_SIZE, RiscV32IntegerMachine, write_reg};
use crate::device::memory::le_u32;

verus! {

pub const BUILTIN_PRINTF: u32 = 1;
pub const BUILTIN_CYCLE_COUNT: u32 = 2;
pub const BUILTIN_RANDOM: u32 = 3;
pub const BUILTIN_YIELD: u32 = 4;
pub const BUILTIN_MODULO: u32 = 5;

/// Builtins of the side-channel experiments, performed by the host.
pub const BUILTIN_EXP_GET_PHASE: u32 = 10;
pub const BUILTIN_EXP_GET_SECRET_SET: u32 = 11;
pub const BUILTIN_EXP_GET_SECRET_BIT: u32 = 12;
pub const BUILTIN_EXP_GET_TARGET_SET: u32 = 13;
pub const BUILTIN_EXP_SUBMIT_SCALAR: u32 = 14;
pub const BUILTIN_EXP_SUBMIT_VECTOR: u32 = 15;
pub const BUILTIN_EXP_DONE: u32 = 16;

/// The builtins every machine starts with.
pub open spec fn common_builtins() -> Map<u32, Builtin> {
    Map::empty().insert(BUILTIN_PRINTF, Builtin::Printf).insert(
        BUILTIN_CYCLE_COUNT,
        Builtin::CycleCount,
    ).insert(BUILTIN_RANDOM, Builtin::Random).insert(BUILTIN_YIELD, Builtin::Yield).insert(
        BUILTIN_MODULO,
        Builtin::Modulo,
    )
}

pub fn register_common_builtins(machine: &mut RiscV32IntegerMachine)
    ensures
        final(machine).builtin_map() == old(machine).builtin_map().union_prefer_right(
            common_builtins(),
        ),
        final(machine).wf() == old(machine).wf(),
        final(machine).consistent() == old(machine).consistent(),
        final(machine).mem() == old(machine).mem(),
        final(machine).regs() == old(machine).regs(),
        final(machine).ticks() == old(machine).ticks(),
        final(machine).same_except_builtins(old(machine)),
{
    machine.register_builtin(BUILTIN_PRINTF, Builtin::Printf);
    machine.register_builtin(BUILTIN_CYCLE_COUNT, Builtin::CycleCount);
    machine.register_builtin(BUILTIN_RANDOM, Builtin::Random);
    machine.register_builtin(BUILTIN_YIELD, Builtin::Yield);
    machine.register_builtin(BUILTIN_MODULO, Builtin::Modulo);
    proof {
        assert(machine.builtin_map() =~= old(machine).builtin_map().union_prefer_right(
            common_builtins(),
        ));
    }
}

/// Bytes of the C string at `addr` (without its terminator), reading at
/// most `fuel` bytes; addresses wrap around the 32-bit space.
pub open spec fn c_string(mem: Seq<u8>, addr: u32, fuel: nat) -> Seq<u8>
    decreases fuel,
{
    if fuel == 0 || mem[addr as int] == 0 {
        Seq::empty()
    } else {
        seq![mem[addr as int]] + c_string(mem, addr.wrapping_add(1), (fuel - 1) as nat)
    }
}

/// ASCII decimal digits of `n`.
pub open spec fn decimal(n: nat) -> Seq<u8>
    decreases n,
{
    if n < 10 {
        seq![(n + 48) as u8]
    } else {
        decimal(n / 10).push((n % 10 + 48) as u8)
    }
}

/// ASCII decimal text of `v`, with a leading `-` when negative.
pub open spec fn signed_decimal(v: i32) -> Seq<u8> {
    if v < 0 {
        seq![45u8] + decimal((0 - v) as nat)
    } else {
        decimal(v as nat)
    }
}

/// Register `i` of `file`, or zero past the last register.
pub open spec fn arg_reg(file: Seq<u32>, i: int) -> u32 {
    if i < 32 {
        file[i]
    } else {
        0
    }
}

/// What `String::from_utf8_lossy` makes of the bytes `b`, as bytes.
pub uninterp spec fn utf8_lossy(b: Seq<u8>) -> Seq<u8>;

/// The argument register after `a<arg>`; the count stops at 255.
pub open spec fn next_arg(arg: u8) -> u8 {
    if arg < 255 {
        (arg + 1) as u8
    } else {
        255u8
    }
}

/// Text of the conversion `%<conv>` with its argument in `a<arg>`, and the
/// argument register that the next conversion takes.
///
/// `%d` prints a signed decimal, `%s` a C string, and any other pair is
/// copied as it stands.
pub open spec fn directive(mem: Seq<u8>, file: Seq<u32>, conv: u8, arg: u8) -> (Seq<u8>, u8) {
    if conv == 100 {
        (signed_decimal(arg_reg(file, 10 + arg) as i32), next_arg(arg))
    } else if conv == 115 {
        (utf8_lossy(c_string(mem, arg_reg(file, 10 + arg), MEMORY_SIZE as nat)), next_arg(arg))
    } else {
        (seq![37u8, conv], arg)
    }
}

/// Text that the format string at `addr` produces, taking its next argument
/// from argument register `a<arg>`, within `fuel` format steps.
pub open spec fn format_text(mem: Seq<u8>, file: Seq<u32>, addr: u32, arg: u8, fuel: nat) -> Seq<
    u8,
>
    decreases fuel,
{
    if fuel == 0 {
        Seq::empty()
    } else {
        let b = mem[addr as int];
        let next = addr.wrapping_add(1);
        if b == 0 {
            Seq::empty()
        } else if b != 37 {
            seq![b] + format_text(mem, file, next, arg, (fuel - 1) as nat)
        } else {
            let d = directive(mem, file, mem[next as int], arg);
            d.0 + format_text(mem, file, next.wrapping_add(1), d.1, (fuel - 1) as nat)
        }
    }
}

/// The line that the `printf` builtin prints: the format string at `a0`
/// formatted with the arguments in `a1, a2, ..`, and a newline.
pub open spec fn printf_output(mem: Seq<u8>, file: Seq<u32>) -> Seq<u8> {
    format_text(mem, file, file[10], 1, MEMORY_SIZE as nat).push(10u8)
}

/// Calls `String::from_utf8_lossy`, which replaces every invalid UTF-8
/// sequence of `bytes` by U+FFFD, and hands the text back as bytes. The
/// contract names the result [`utf8_lossy`] of the bytes, and claims only
/// that bytes which are all ASCII come back unchanged.
#[verifier::external_body]
fn from_utf8_lossy_bytes(bytes: &[u8]) -> (r: Vec<u8>)
    ensures
        r@ == utf8_lossy(bytes@),
        (forall|i: int| 0 <= i < bytes@.len() ==> #[trigger] bytes@[i] < 128) ==> r@ == bytes@,
{
    String::from_utf8_lossy(bytes).into_owned().into_bytes()
}

proof fn lemma_word_byte(w: u32, b0: u8, b1: u8, b2: u8, b3: u8, k: u32)
    by (bit_vector)
    requires
        w == b0 + b1 * 256 + b2 * 65536 + b3 * 16777216,
        k < 4,
    ensures
        (w >> (k * 8)) as u8 == (if k == 0 {
            b0
        } else if k == 1 {
            b1
        } else if k == 2 {
            b2
        } else {
            b3
        }),
{
}

/// Reads the byte at `addr` through an aligned word load, as the builtins do.
fn load_byte(machine: &mut RiscV32IntegerMachine, addr: u32) -> (b: u8)
    requires
        old(machine).wf(),
    ensures
        final(machine).wf(),
        final(machine).regs() == old(machine).regs(),
        final(machine).same_periphery(old(machine)),
        final(machine).ticks() >= old(machine).ticks(),
        old(machine).consistent() ==> {
            &&& b == old(machine).mem()[addr as int]
            &&& final(machine).mem() == old(machine).mem()
            &&& final(machine).consistent()
        },
{
    let aligned = addr & !3u32;
    let k = addr & 3u32;
    proof {
        assert(addr & !3u32 == addr - addr % 4) by (bit_vector);
        assert(addr & 3u32 == addr % 4) by (bit_vector);
    }
    let ghost mem = machine.mem();
    let word = machine.load_u32(aligned);
    proof {
        if old(machine).consistent() {
            lemma_word_byte(
                word,
                mem[aligned as int],
                mem[aligned + 1],
                mem[aligned + 2],
                mem[aligned + 3],
                k,
            );
        }
    }
    (word >> (k * 8)) as u8
}

/// Reads the C string at `ptr`, as text.
fn read_c_str(machine: &mut RiscV32IntegerMachine, ptr: u32) -> (s: Vec<u8>)
    requires
        old(machine).wf(),
    ensures
        final(machine).wf(),
        final(machine).regs() == old(machine).regs(),
        final(machine).same_periphery(old(machine)),
        final(machine).ticks() >= old(machine).ticks(),
        old(machine).consistent() ==> {
            &&& s@ == utf8_lossy(c_string(old(machine).mem(), ptr, MEMORY_SIZE as nat))
            &&& final(machine).mem() == old(machine).mem()
            &&& final(machine).consistent()
        },
{
    let ghost s0 = *machine;
    let ghost mem = machine.mem();
    let mut raw: Vec<u8> = Vec::new();
    let mut addr = ptr;
    let mut fuel: u64 = MEMORY_SIZE;
    let mut done = false;
    while fuel > 0 && !done
        invariant
            machine.wf(),
            machine.regs() == s0.regs(),
            machine.same_periphery(&s0),
            machine.ticks() >= s0.ticks(),
            fuel <= MEMORY_SIZE,
            s0.consistent() ==> {
                &&& machine.consistent()
                &&& machine.mem() == mem
                &&& done ==> raw@ == c_string(mem, ptr, MEMORY_SIZE as nat)
                &&& !done ==> raw@ + c_string(mem, addr, fuel as nat) == c_string(
                    mem,
                    ptr,
                    MEMORY_SIZE as nat,
                )
            },
        decreases fuel,
    {
        let ghost raw0 = raw@;
        let b = load_byte(machine, addr);
        if b == 0 {
            done = true;
            fuel = fuel - 1;
        } else {
            raw.push(b);
            proof {
                if s0.consistent() {
                    assert(raw@ + c_string(mem, addr.wrapping_add(1), (fuel - 1) as nat)
                        =~= raw0 + c_string(mem, addr, fuel as nat)) by {
                        let tail = c_string(mem, addr.wrapping_add(1), (fuel - 1) as nat);
                        assert(c_string(mem, addr, fuel as nat) == seq![b] + tail);
                    }
                }
            }
            addr = addr.wrapping_add(1);
            fuel = fuel - 1;
        }
    }
    from_utf8_lossy_bytes(raw.as_slice())
}

/// ASCII decimal digits of `n`.
fn decimal_bytes(n: u64) -> (r: Vec<u8>)
    ensures
        r@ == decimal(n as nat),
    decreases n,
{
    if n < 10 {
        let mut v: Vec<u8> = Vec::new();
        v.push((n + 48) as u8);
        v
    } else {
        let mut v = decimal_bytes(n / 10);
        v.push((n % 10 + 48) as u8);
        v
    }
}

/// ASCII decimal text of `v`.
fn signed_decimal_bytes(v: i32) -> (r: Vec<u8>)
    ensures
        r@ == signed_decimal(v),
{
    if v < 0 {
        let magnitude = (0i64 - v as i64) as u64;
        let mut out: Vec<u8> = Vec::new();
        out.push(45u8);
        let mut digits = decimal_bytes(magnitude);
        out.append(&mut digits);
        out
    } else {
        decimal_bytes(v as u64)
    }
}

/// Text of the conversion `%<conv>` whose argument is in `a<arg>`.
fn format_directive(machine: &mut RiscV32IntegerMachine, conv: u8, arg: u8) -> (r: (Vec<u8>, u8))
    requires
        old(machine).wf(),
    ensures
        final(machine).wf(),
        final(machine).regs() == old(machine).regs(),
        final(machine).same_periphery(old(machine)),
        final(machine).ticks() >= old(machine).ticks(),
        r.1 == directive(old(machine).mem(), old(machine).regs().file(), conv, arg).1,
        old(machine).consistent() ==> {
            &&& r.0@ == directive(old(machine).mem(), old(machine).regs().file(), conv, arg).0
            &&& final(machine).mem() == old(machine).mem()
            &&& final(machine).consistent()
        },
{
    let reg = 10 + arg as u64;
    let val = if reg < 32 {
        machine.x(reg as u8)
    } else {
        0
    };
    proof {
        assert(val == arg_reg(machine.regs().file(), 10 + arg));
    }
    if conv == 100 {
        (signed_decimal_bytes(#[verifier::truncate] (val as i32)), arg.saturating_add(1))
    } else if conv == 115 {
        let text = read_c_str(machine, val);
        (text, arg.saturating_add(1))
    } else {
        let mut text: Vec<u8> = Vec::new();
        text.push(37u8);
        text.push(conv);
        proof {
            assert(text@ =~= seq![37u8, conv]);
        }
        (text, arg)
    }
}

/// Formats the string at `a0` with the arguments in `a1, a2, ..` and
/// appends the line, ended by a newline, to the machine's output.
pub fn printf(machine: &mut RiscV32IntegerMachine)
    requires
        old(machine).wf(),
    ensures
        final(machine).wf(),
        final(machine).regs() == old(machine).regs(),
        final(machine).same_config(old(machine)),
        final(machine).host_request_spec() == old(machine).host_request_spec(),
        final(machine).ticks() >= old(machine).ticks(),
        old(machine).consistent() ==> {
            &&& final(machine).output_spec() == old(machine).output_spec() + printf_output(
                old(machine).mem(),
                old(machine).regs().file(),
            )
            &&& final(machine).mem() == old(machine).mem()
            &&& final(machine).consistent()
        },
{
    let ghost s0 = *machine;
    let ghost mem = machine.mem();
    let ghost file = machine.regs().file();
    let fmt_ptr = machine.x(10);
    let mut arg_index: u8 = 1;
    let mut addr = fmt_ptr;
    let mut out: Vec<u8> = Vec::new();
    let mut fuel: u64 = MEMORY_SIZE;
    let mut done = false;
    let ghost total = format_text(mem, file, fmt_ptr, 1, MEMORY_SIZE as nat);
    while fuel > 0 && !done
        invariant
            machine.wf(),
            machine.regs() == s0.regs(),
            machine.same_periphery(&s0),
            machine.ticks() >= s0.ticks(),
            file == s0.regs().file(),
            fuel <= MEMORY_SIZE,
            s0.consistent() ==> {
                &&& machine.consistent()
                &&& machine.mem() == mem
                &&& done ==> out@ == total
                &&& !done ==> out@ + format_text(mem, file, addr, arg_index, fuel as nat) == total
            },
        decreases fuel,
    {
        let ghost out0 = out@;
        let b = load_byte(machine, addr);
        let next = addr.wrapping_add(1);
        let ghost rest = format_text(mem, file, addr, arg_index, fuel as nat);
        if b == 0 {
            done = true;
            fuel = fuel - 1;
        } else if b != 37 {
            out.push(b);
            proof {
                if s0.consistent() {
                    assert(rest == seq![b] + format_text(mem, file, next, arg_index, (fuel - 1) as nat));
                    assert(out@ + format_text(mem, file, next, arg_index, (fuel - 1) as nat)
                        =~= out0 + rest);
                }
            }
            addr = next;
            fuel = fuel - 1;
        } else {
            let conv = load_byte(machine, next);
            let after = next.wrapping_add(1);
            let ghost before = *machine;
            let (mut text, narg) = format_directive(machine, conv, arg_index);
            let ghost piece = text@;
            out.append(&mut text);
            proof {
                if s0.consistent() {
                    let d = directive(mem, file, conv, arg_index);
                    assert(rest == d.0 + format_text(mem, file, after, d.1, (fuel - 1) as nat));
                    assert(out@ + format_text(mem, file, after, narg, (fuel - 1) as nat)
                        =~= out0 + rest);
                }
            }
            arg_index = narg;
            addr = after;
            fuel = fuel - 1;
        }
    }
    out.push(10u8);
    machine.append_output(out);
}

/// Puts the cycle counter in `a0` (low word) and `a1` (high word).
pub fn cycle_count(machine: &mut RiscV32IntegerMachine)
    ensures
        final(machine).regs().pc == old(machine).regs().pc,
        final(machine).regs().file() == write_reg(
            write_reg(old(machine).regs().file(), 10, old(machine).ticks() as u32),
            11,
            (old(machine).ticks() >> 32) as u32,
        ),
        final(machine).same_memory(old(machine)),
        final(machine).same_periphery(old(machine)),
        final(machine).wf() == old(machine).wf(),
        final(machine).consistent() == old(machine).consistent(),
        final(machine).mem() == old(machine).mem(),
        final(machine).ticks() == old(machine).ticks(),
        final(machine).regs().file()[10] + 0x1_0000_0000 * final(machine).regs().file()[11] == old(machine).ticks(),
{
    let ticks = machine.cycle_count();
    machine.set_x(10, ticks as u32);
    machine.set_x(11, (ticks >> 32) as u32);
    proof {
        let lo = ticks as u32;
        let hi = (ticks >> 32) as u32;
        assert(lo + 0x1_0000_0000 * hi == ticks) by (bit_vector)
            requires
                lo == ticks as u32,
                hi == (ticks >> 32) as u32,
        ;
    }
}

/// Puts `a0 % a1` in `a0`; a zero divisor leaves `a0` as it is, as the
/// RV32M remainder instruction does.
pub fn modulo(machine: &mut RiscV32IntegerMachine)
    ensures
        final(machine).regs().pc == old(machine).regs().pc,
        final(machine).regs().file() == (if old(machine).regs().reg(11) == 0 {
            old(machine).regs().file()
        } else {
            write_reg(
                old(machine).regs().file(),
                10,
                (old(machine).regs().reg(10) % old(machine).regs().reg(11)) as u32,
            )
        }),
        final(machine).same_memory(old(machine)),
        final(machine).same_periphery(old(machine)),
        final(machine).wf() == old(machine).wf(),
        final(machine).consistent() == old(machine).consistent(),
        final(machine).mem() == old(machine).mem(),
        final(machine).ticks() == old(machine).ticks(),
        old(machine).regs().reg(11) != 0 ==> {
            &&& final(machine).regs().file()[10] < old(machine).regs().reg(11)
            &&& (old(machine).regs().reg(10) - final(machine).regs().file()[10]) % (old(machine).regs().reg(11) as int) == 0
        },
{
    let dividend = machine.x(10);
    let divisor = machine.x(11);
    if divisor != 0 {
        machine.set_x(10, dividend % divisor);
        proof {
            vstd::arithmetic::div_mod::lemma_fundamental_div_mod(dividend as int, divisor as int);
            let q = dividend as int / divisor as int;
            assert(dividend - dividend % divisor == divisor * q);
            vstd::arithmetic::div_mod::lemma_mod_multiples_basic(q, divisor as int);
            assert((divisor * q) % (divisor as int) == 0) by (nonlinear_arith)
                requires
                    (q * divisor) % (divisor as int) == 0,
            ;
        }
    }
}

} // verus!
