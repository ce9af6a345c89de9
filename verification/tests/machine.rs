use memory_model_sim::machine::riscv32_integer::Builtin;
use memory_model_sim::machine::{Machine, MemoryModel, MemorySegment, RiscV32IntegerMachine, StepResult};

/// EBREAK (halt with code 0) as raw bytes.
const EBREAK_BYTES: [u8; 4] = 0x0010_0073u32.to_le_bytes();

fn encode_i(imm: i32, rs1: u8, funct3: u32, rd: u8, opcode: u32) -> u32 {
    (((imm as u32) & 0xfff) << 20) | ((rs1 as u32) << 15) | (funct3 << 12) | ((rd as u32) << 7) | opcode
}

fn encode_r(funct7: u32, rs2: u8, rs1: u8, funct3: u32, rd: u8, opcode: u32) -> u32 {
    (funct7 << 25) | ((rs2 as u32) << 20) | ((rs1 as u32) << 15) | (funct3 << 12) | ((rd as u32) << 7) | opcode
}

fn encode_s(imm: i32, rs2: u8, rs1: u8, funct3: u32, opcode: u32) -> u32 {
    let imm = imm as u32;
    (((imm >> 5) & 0x7f) << 25)
        | ((rs2 as u32) << 20)
        | ((rs1 as u32) << 15)
        | (funct3 << 12)
        | ((imm & 0x1f) << 7)
        | opcode
}

fn encode_b(imm: i32, rs2: u8, rs1: u8, funct3: u32, opcode: u32) -> u32 {
    let imm = imm as u32;
    (((imm >> 12) & 0x1) << 31)
        | (((imm >> 5) & 0x3f) << 25)
        | ((rs2 as u32) << 20)
        | ((rs1 as u32) << 15)
        | (funct3 << 12)
        | (((imm >> 1) & 0xf) << 8)
        | (((imm >> 11) & 0x1) << 7)
        | opcode
}

fn encode_u(imm: u32, rd: u8, opcode: u32) -> u32 {
    (imm & 0xffff_f000) | ((rd as u32) << 7) | opcode
}

fn encode_j(imm: i32, rd: u8, opcode: u32) -> u32 {
    let imm = imm as u32;
    (((imm >> 20) & 0x1) << 31)
        | (((imm >> 1) & 0x3ff) << 21)
        | (((imm >> 11) & 0x1) << 20)
        | (((imm >> 12) & 0xff) << 12)
        | ((rd as u32) << 7)
        | opcode
}

fn encode_csr(csr: u32, rs1: u8, funct3: u32, rd: u8) -> u32 {
    (csr << 20) | ((rs1 as u32) << 15) | (funct3 << 12) | ((rd as u32) << 7) | 0x73
}

fn assemble(instructions: &[u32]) -> Vec<u8> {
    let mut bytes = Vec::with_capacity(instructions.len() * 4);
    for insn in instructions {
        bytes.extend_from_slice(&insn.to_le_bytes());
    }
    bytes
}

fn machine_with_program(instructions: &[u32]) -> RiscV32IntegerMachine {
    let mut machine = RiscV32IntegerMachine::new();
    machine.load_binary(&assemble(instructions));
    machine
}

fn run_until_halt(machine: &mut RiscV32IntegerMachine) {
    loop {
        match machine.step() {
            StepResult::Continue | StepResult::Yield | StepResult::ForceYield | StepResult::PcUpdated => {}
            StepResult::Halt(_) => break,
            StepResult::Unimplemented(op) => panic!("unexpected unimplemented: {op}"),
        }
    }
}

#[test]
fn step_ebreak_returns_halt() {
    let mut machine = RiscV32IntegerMachine::new();
    machine.load_binary(&EBREAK_BYTES);
    assert_eq!(machine.current_tick(), 0);
    let result = machine.step();
    assert!(matches!(result, StepResult::Halt(0)));
    assert!(machine.current_tick() >= 1);
}

#[test]
fn csr_read_write_and_set_clear() {
    let program = vec![
        encode_i(0x123, 0, 0x0, 10, 0x13), // addi a0, x0, 0x123
        encode_csr(0x300, 10, 0x1, 5),     // csrrw t0, mstatus, a0
        encode_i(0x004, 0, 0x0, 6, 0x13),  // addi t1, x0, 4
        encode_csr(0x300, 6, 0x2, 7),      // csrrs t2, mstatus, t1
        encode_csr(0x300, 7, 0x3, 28),     // csrrc t3, mstatus, t2
        encode_i(1, 0, 0x0, 17, 0x13),     // addi a7, x0, 1
        0x0010_0073,                       // ebreak
    ];
    let mut m = machine_with_program(&program);
    run_until_halt(&mut m);
    assert_eq!(m.x(5), 0, "t0 (old mstatus)");
    assert_eq!(m.x(7), 0x123, "t2 (old before set)");
    assert_eq!(m.x(28), 0x127, "t3 (old before clear)");
}

#[test]
fn csr_immediate_variants_no_op_on_rd_or_rs1_zero() {
    let program = vec![
        encode_csr(0xC00, 0, 0x5, 0), // csrrwi x0, 0xC00, 0
        encode_csr(0xC00, 7, 0x5, 5), // csrrwi t0, 0xC00, 7
        encode_csr(0xC00, 0, 0x5, 6), // csrrwi t1, 0xC00, 0  -> t1 = 7
        0x0010_0073,                  // ebreak
    ];
    let mut m = machine_with_program(&program);
    run_until_halt(&mut m);
    assert_eq!(m.x(5), 0, "t0 gets previous CSR value (0)");
    assert_eq!(m.x(6), 7, "t1 gets 7 from CSR before write of 0");
}

#[test]
fn new_load_and_run_uses_common_builtins() {
    let program = vec![
        encode_i(42, 0, 0x0, 10, 0x13), // addi a0, x0, 42
        encode_i(1, 0, 0x0, 17, 0x13),  // addi a7, x0, 1 (printf)
        0x0000_0073,                    // ecall
        0x0010_0073,                    // ebreak
    ];
    let mut machine = RiscV32IntegerMachine::new();
    machine.load_binary(&assemble(&program));
    let exit = machine.run_until_halt();

    assert_eq!(exit, 0);
}

#[test]
fn reg_and_imm_alu_behaviors() {
    let program = vec![
        encode_i(10, 0, 0x0, 1, 0x13),      // addi x1, x0, 10
        encode_i(3, 0, 0x0, 2, 0x13),       // addi x2, x0, 3
        encode_r(0x00, 2, 1, 0x0, 3, 0x33), // add x3, x1, x2
        encode_r(0x20, 2, 1, 0x0, 4, 0x33), // sub x4, x1, x2
        encode_r(0x00, 2, 1, 0x7, 5, 0x33), // and x5, x1, x2
        encode_r(0x00, 2, 1, 0x6, 6, 0x33), // or x6, x1, x2
        encode_r(0x00, 2, 1, 0x4, 7, 0x33), // xor x7, x1, x2
        encode_i(1, 0, 0x0, 0, 0x13),       // addi x0, x0, 1 (must be ignored)
        0x0010_0073,                        // ebreak
    ];
    let mut machine = machine_with_program(&program);
    run_until_halt(&mut machine);

    assert_eq!(machine.x(1), 10);
    assert_eq!(machine.x(2), 3);
    assert_eq!(machine.x(3), 13);
    assert_eq!(machine.x(4), 7);
    assert_eq!(machine.x(5), 10 & 3);
    assert_eq!(machine.x(6), 10 | 3);
    assert_eq!(machine.x(7), 10 ^ 3);
    assert_eq!(machine.x(0), 0);
}

#[test]
fn lui_auipc_behaviors() {
    let program = vec![
        encode_u(0x1234_5000, 1, 0x37), // lui x1, 0x12345
        encode_u(0x0000_1000, 2, 0x17), // auipc x2, 0x1
        0x0010_0073,                    // ebreak
    ];
    let mut machine = machine_with_program(&program);
    run_until_halt(&mut machine);

    assert_eq!(machine.x(1), 0x1234_5000);
    assert_eq!(machine.x(2), 0x1004);
}

#[test]
fn load_store_signed_unsigned_behaviors() {
    let program = vec![
        encode_i(100, 0, 0x0, 1, 0x13), // addi x1, x0, 100
        encode_i(-1, 0, 0x0, 2, 0x13),  // addi x2, x0, -1
        encode_s(0, 2, 1, 0x0, 0x23),   // sb x2, 0(x1)
        encode_i(0, 1, 0x0, 3, 0x03),   // lb x3, 0(x1)
        encode_i(0, 1, 0x4, 4, 0x03),   // lbu x4, 0(x1)
        encode_s(2, 2, 1, 0x1, 0x23),   // sh x2, 2(x1)
        encode_i(2, 1, 0x1, 5, 0x03),   // lh x5, 2(x1)
        encode_i(2, 1, 0x5, 6, 0x03),   // lhu x6, 2(x1)
        encode_s(4, 2, 1, 0x2, 0x23),   // sw x2, 4(x1)
        encode_i(4, 1, 0x2, 7, 0x03),   // lw x7, 4(x1)
        0x0010_0073,                    // ebreak
    ];
    let mut machine = machine_with_program(&program);
    run_until_halt(&mut machine);

    assert_eq!(machine.x(3), 0xffff_ffff);
    assert_eq!(machine.x(4), 0x0000_00ff);
    assert_eq!(machine.x(5), 0xffff_ffff);
    assert_eq!(machine.x(6), 0x0000_ffff);
    assert_eq!(machine.x(7), 0xffff_ffff);
}

#[test]
fn branch_and_jal_behaviors() {
    let program = vec![
        encode_i(1, 0, 0x0, 1, 0x13),  // addi x1, x0, 1
        encode_i(1, 0, 0x0, 2, 0x13),  // addi x2, x0, 1
        encode_b(8, 2, 1, 0x0, 0x63),  // beq x1, x2, +8 (skip next)
        encode_i(7, 0, 0x0, 3, 0x13),  // addi x3, x0, 7 (skipped)
        encode_i(42, 0, 0x0, 3, 0x13), // addi x3, x0, 42
        encode_j(8, 4, 0x6f),          // jal x4, +8 (skip next)
        encode_i(9, 0, 0x0, 5, 0x13),  // addi x5, x0, 9 (skipped)
        encode_i(11, 0, 0x0, 5, 0x13), // addi x5, x0, 11
        0x0010_0073,                   // ebreak
    ];
    let mut machine = machine_with_program(&program);
    run_until_halt(&mut machine);

    assert_eq!(machine.x(3), 42);
    assert_eq!(machine.x(4), 24); // jal at pc=20 stores pc+4
    assert_eq!(machine.x(5), 11);
}

#[test]
fn jalr_behavior() {
    let program = vec![
        encode_i(12, 0, 0x0, 5, 0x13), // addi x5, x0, 12
        encode_i(0, 5, 0x0, 1, 0x67),  // jalr x1, x5, 0 (to pc=12)
        encode_i(1, 0, 0x0, 2, 0x13),  // addi x2, x0, 1 (skipped)
        encode_i(2, 0, 0x0, 2, 0x13),  // addi x2, x0, 2
        0x0010_0073,                   // ebreak
    ];
    let mut machine = machine_with_program(&program);
    run_until_halt(&mut machine);

    assert_eq!(machine.x(1), 8); // jalr at pc=4 stores pc+4
    assert_eq!(machine.x(2), 2);
}

#[test]
fn ecall_dispatches_registered_builtin() {
    let program = vec![
        encode_i(7, 0, 0x0, 10, 0x13), // addi x10 (a0), x0, 7
        encode_i(1, 0, 0x0, 17, 0x13), // addi x17 (a7), x0, 1 (builtin number)
        0x0000_0073,                   // ecall
        0x0010_0073,                   // ebreak
    ];

    let mut machine = machine_with_program(&program);
    // Builtin 1 is performed by the host: it adds 35 to a0.
    machine.register_builtin(1, Builtin::Host);
    loop {
        let result = machine.step();
        if machine.take_host_request() == Some(1) {
            let current = machine.x(10);
            machine.set_x(10, current.wrapping_add(35));
        }
        match result {
            StepResult::Halt(_) => break,
            StepResult::Unimplemented(op) => panic!("unexpected unimplemented: {op}"),
            _ => {}
        }
    }
    assert_eq!(machine.x(10), 42);
}

#[test]
fn ecall_builtin_returns_yield_and_advances_pc() {
    let program = vec![
        encode_i(1, 0, 0x0, 17, 0x13), // addi a7, x0, 1
        0x0000_0073,                   // ecall
        0x0010_0073,                   // ebreak
    ];
    let mut machine = machine_with_program(&program);
    machine.register_builtin(1, Builtin::Host);

    assert!(matches!(machine.step(), StepResult::Continue));
    let result = machine.step();
    assert!(matches!(result, StepResult::Yield));
    assert!(matches!(machine.step(), StepResult::Halt(0)));
}

#[test]
fn ecall_builtin_cycle_count_returns_monotonic_ticks() {
    let program = vec![
        encode_i(2, 0, 0x0, 17, 0x13), // addi a7, x0, 2 (cycle_count)
        0x0000_0073,                   // ecall -> a0/a1 = t0
        encode_i(0, 10, 0x0, 5, 0x13), // addi x5, a0, 0 (save low)
        encode_i(0, 11, 0x0, 6, 0x13), // addi x6, a1, 0 (save high)
        0x0000_0073,                   // ecall -> a0/a1 = t1
        0x0010_0073,                   // ebreak
    ];
    let mut machine = machine_with_program(&program);
    run_until_halt(&mut machine);

    let first = ((machine.x(6) as u64) << 32) | (machine.x(5) as u64);
    let second = ((machine.x(11) as u64) << 32) | (machine.x(10) as u64);
    assert!(first > 0);
    assert!(second > first);
}

#[test]
fn instruction_cycles_add_up_for_simple_program() {
    let program = vec![
        encode_i(1, 0, 0x0, 1, 0x13), // addi x1, x0, 1  => 1 cycle
        0x0010_0073,                  // ebreak          => 1 cycle
    ];
    let mut machine = machine_with_program(&program);
    let exit = machine.run_until_halt();
    assert_eq!(exit, 0);
    assert!(machine.current_tick() >= 2);
}

#[test]
fn taken_branch_costs_more_cycles() {
    let program = vec![
        encode_i(1, 0, 0x0, 1, 0x13),  // addi x1, x0, 1  => 1
        encode_i(1, 0, 0x0, 2, 0x13),  // addi x2, x0, 1  => 1
        encode_b(8, 2, 1, 0x0, 0x63),  // beq taken        => 2
        encode_i(99, 0, 0x0, 3, 0x13), // skipped
        0x0010_0073,                   // ebreak          => 1
    ];
    let mut machine = machine_with_program(&program);
    let exit = machine.run_until_halt();
    assert_eq!(exit, 0);
    assert!(machine.current_tick() >= 5);
    assert_eq!(machine.x(3), 0);
}

#[test]
fn clock_advances_one_per_alu_instruction() {
    let mut machine = machine_with_program(&[encode_i(1, 0, 0x0, 1, 0x13), 0x0010_0073]);
    assert_eq!(machine.current_tick(), 0);
    let start = machine.current_tick();
    let r = machine.step();
    assert!(matches!(r, StepResult::Continue));
    let after_first = machine.current_tick();
    assert!(after_first - start >= 1);
    let r = machine.step();
    assert!(matches!(r, StepResult::Halt(0)));
    let after_second = machine.current_tick();
    assert!(after_second - after_first >= 1);
}

#[test]
fn clock_advances_two_per_load_store() {
    let program = vec![
        encode_i(64, 0, 0x0, 1, 0x13), // addi x1, x0, 64 (base)
        encode_i(0, 1, 0x2, 2, 0x03),  // lw x2, 0(x1) => 2 cycles
        encode_s(0, 2, 1, 0x2, 0x23),  // sw x2, 0(x1) => 2 cycles
        0x0010_0073,                   // ebreak => 1
    ];
    let mut machine = machine_with_program(&program);
    machine.run_until_halt();
    assert!(machine.current_tick() >= 1 + 3 + 3 + 1);
}

#[test]
fn clock_advances_two_per_jump() {
    let program = vec![
        encode_j(4, 0, 0x6f),         // jal x0, +4 => 2 cycles, land on next
        encode_i(0, 0, 0x0, 1, 0x13), // addi (1 cycle)
        0x0010_0073,                  // ebreak => 1
    ];
    let mut machine = machine_with_program(&program);
    machine.run_until_halt();
    assert!(machine.current_tick() >= 3 + 1 + 1);
}

#[test]
fn clock_advances_eight_for_ecall() {
    let mut machine = machine_with_program(&[
        encode_i(1, 0, 0x0, 17, 0x13), // addi a7, x0, 1 => 1
        0x0000_0073,                   // ecall => 8
        0x0010_0073,                   // ebreak => 1
    ]);
    machine.register_builtin(1, Builtin::Host);
    assert_eq!(machine.current_tick(), 0);
    let t0 = machine.current_tick();
    let _ = machine.step();
    let t1 = machine.current_tick();
    assert!(t1 - t0 >= 1);
    let _ = machine.step();
    let t2 = machine.current_tick();
    assert!(t2 - t1 >= 8);
    let _ = machine.step();
    let t3 = machine.current_tick();
    assert!(t3 - t2 >= 1);
}

#[test]
fn not_taken_branch_costs_one_cycle() {
    let program = vec![
        encode_i(0, 0, 0x0, 1, 0x13),  // addi x1, x0, 0  => 1
        encode_i(1, 0, 0x0, 2, 0x13),  // addi x2, x0, 1  => 1
        encode_b(8, 2, 1, 0x0, 0x63),  // beq not taken (x1!=x2) => 1
        encode_i(42, 0, 0x0, 3, 0x13), // addi x3, x0, 42 => 1
        0x0010_0073,                   // ebreak => 1
    ];
    let mut machine = machine_with_program(&program);
    machine.run_until_halt();
    assert!(machine.current_tick() >= 1 + 1 + 1 + 1 + 1);
    assert_eq!(machine.x(3), 42);
}

#[test]
fn printf_formats_into_the_output() {
    // The format string "n=%d\n" at address 0x100, printed with a0 pointing at it and a1 = 42.
    let mut program = vec![
        encode_i(0x100, 0, 0x0, 10, 0x13), // addi a0, x0, 0x100
        encode_i(42, 0, 0x0, 11, 0x13),    // addi a1, x0, 42
        encode_i(1, 0, 0x0, 17, 0x13),     // addi a7, x0, 1 (printf)
        0x0000_0073,                       // ecall
        0x0010_0073,                       // ebreak
    ];
    while program.len() < 0x40 {
        program.push(0);
    }
    let mut bytes = assemble(&program);
    bytes.extend_from_slice(b"n=%d\n\0");
    let mut machine = RiscV32IntegerMachine::new();
    machine.load_binary(&bytes);
    assert_eq!(machine.run_until_halt(), 0);
    // printf ends every call with a newline of its own.
    assert_eq!(machine.take_output(), b"n=42\n\n".to_vec());
}

#[test]
fn unknown_ecall_is_an_illegal_instruction() {
    let program = vec![
        encode_i(99, 0, 0x0, 17, 0x13), // addi a7, x0, 99 (no such builtin)
        0x0000_0073,                    // ecall
        0x0010_0073,                    // ebreak
    ];
    let mut machine = machine_with_program(&program);
    assert_eq!(machine.run_until_halt(), -4);
}

#[test]
fn modulo_builtin_leaves_a0_on_a_zero_divisor() {
    let program = vec![
        encode_i(17, 0, 0x0, 10, 0x13), // addi a0, x0, 17
        encode_i(5, 0, 0x0, 11, 0x13),  // addi a1, x0, 5
        encode_i(5, 0, 0x0, 17, 0x13),  // addi a7, x0, 5 (modulo)
        0x0000_0073,                    // ecall -> a0 = 2
        encode_i(0, 10, 0x0, 12, 0x13), // addi a2, a0, 0
        encode_i(0, 0, 0x0, 11, 0x13),  // addi a1, x0, 0
        0x0000_0073,                    // ecall with a zero divisor
        0x0010_0073,                    // ebreak
    ];
    let mut machine = machine_with_program(&program);
    run_until_halt(&mut machine);
    assert_eq!(machine.x(12), 2);
    assert_eq!(machine.x(10), 2);
}

#[test]
fn random_builtin_is_left_to_the_host() {
    let program = vec![
        encode_i(3, 0, 0x0, 17, 0x13), // addi a7, x0, 3 (random)
        0x0000_0073,                   // ecall
        0x0010_0073,                   // ebreak
    ];
    let mut machine = machine_with_program(&program);
    let _ = machine.step();
    let _ = machine.step();
    assert_eq!(machine.take_host_request(), Some(3));
    assert_eq!(machine.take_host_request(), None);
}

#[test]
fn fetch_outside_the_segment_is_a_segmentation_fault() {
    let mut machine = machine_with_program(&[0x0010_0073]);
    machine.set_memory_segment(MemorySegment { start: 0x1000, end_exclusive: 0x2000 });
    assert!(matches!(machine.step(), StepResult::Halt(-11)));
}

#[test]
fn every_memory_model_runs_a_program() {
    for model in [MemoryModel::Default, MemoryModel::BackCache, MemoryModel::NewCache, MemoryModel::SmtCache] {
        let program = vec![
            encode_i(100, 0, 0x0, 1, 0x13), // addi x1, x0, 100
            encode_i(-7, 0, 0x0, 2, 0x13),  // addi x2, x0, -7
            encode_s(0, 2, 1, 0x2, 0x23),   // sw x2, 0(x1)
            encode_i(0, 1, 0x2, 3, 0x03),   // lw x3, 0(x1)
            0x0010_0073,                    // ebreak
        ];
        let mut machine = RiscV32IntegerMachine::with_memory_model(model);
        machine.load_binary(&assemble(&program));
        assert_eq!(machine.run_until_halt(), 0);
        assert_eq!(machine.x(3), (-7i32) as u32);
    }
}
