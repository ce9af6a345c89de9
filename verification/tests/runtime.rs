use memory_model_sim::machine::RiscV32IntegerMachine;
use memory_model_sim::machine::Machine;
use memory_model_sim::runtime::{
    DualEvent, DualProgramLayout, DualRun, LayoutError, ProgramLayout, RunEvent, check_dual_layout,
    run_dual_flat_binary_bytes, run_flat_binary_bytes, run_until_host,
};

/// EBREAK (halt with code 0) as raw bytes.
const EBREAK_BYTES: [u8; 4] = 0x0010_0073u32.to_le_bytes();

fn encode_i(imm: i32, rs1: u8, funct3: u32, rd: u8, opcode: u32) -> u32 {
    (((imm as u32) & 0xfff) << 20) | ((rs1 as u32) << 15) | (funct3 << 12) | ((rd as u32) << 7) | opcode
}

fn assemble(instructions: &[u32]) -> Vec<u8> {
    let mut bytes = Vec::with_capacity(instructions.len() * 4);
    for insn in instructions {
        bytes.extend_from_slice(&insn.to_le_bytes());
    }
    bytes
}

fn standard_layout() -> DualProgramLayout {
    DualProgramLayout {
        program_a: ProgramLayout { load_base: 0, entry_pc: 0 },
        program_b: ProgramLayout { load_base: 0x8001_0000, entry_pc: 0x8001_0000 },
    }
}

#[test]
fn run_flat_binary_bytes_smoke_test() {
    let mut machine = RiscV32IntegerMachine::new();
    let exit = run_flat_binary_bytes(&mut machine, &EBREAK_BYTES);
    assert_eq!(exit, 0);
}

#[test]
fn dual_runner_switches_on_each_builtin_and_exits_both_programs() {
    let victim = assemble(&[
        encode_i(1, 0, 0x0, 17, 0x13), // addi a7, x0, 1 (printf builtin)
        0x0000_0073,                   // ecall -> Yield to aggressor
        0x0010_0073,                   // ebreak
    ]);
    let aggressor = assemble(&[
        encode_i(2, 0, 0x0, 17, 0x13), // addi a7, x0, 2 (cycle_count builtin)
        0x0000_0073,                   // ecall -> Yield to victim
        0x0010_0073,                   // ebreak
    ]);
    let layout = standard_layout();

    let mut machine = RiscV32IntegerMachine::new();
    assert!(check_dual_layout(layout, victim.len(), aggressor.len()).is_ok());
    let (victim_exit, aggressor_exit) = run_dual_flat_binary_bytes(&mut machine, &victim, &aggressor, layout);

    assert_eq!(victim_exit, 0);
    assert_eq!(aggressor_exit, 0);
}

#[test]
fn dual_runner_enforces_memory_segments() {
    let victim = assemble(&[0x0010_0073]);
    let aggressor = assemble(&[
        encode_i(0, 0, 0x2, 10, 0x03), // lw a0, 0(x0) -> outside program B segment
        0x0010_0073,
    ]);
    let layout = standard_layout();

    let mut machine = RiscV32IntegerMachine::new();
    let (victim_exit, aggressor_exit) = run_dual_flat_binary_bytes(&mut machine, &victim, &aggressor, layout);

    assert_eq!(victim_exit, 0);
    assert_eq!(aggressor_exit, -11);
}

#[test]
fn layouts_outside_their_halves_are_refused() {
    let mut layout = standard_layout();
    layout.program_a.entry_pc = 0x8000_0000;
    assert!(check_dual_layout(layout, 4, 4).is_err());
    let mut layout = standard_layout();
    layout.program_b.load_base = 0x10;
    assert!(check_dual_layout(layout, 4, 4).is_err());
    let layout = standard_layout();
    assert!(matches!(check_dual_layout(layout, 0x8000_0001, 4), Err(LayoutError::ProgramATooLarge)));
}

#[test]
fn single_run_hands_the_random_builtin_to_the_host() {
    let program = assemble(&[
        encode_i(3, 0, 0x0, 17, 0x13), // addi a7, x0, 3 (random builtin)
        0x0000_0073,                   // ecall
        0x0010_0073,                   // ebreak
    ]);
    let mut machine = RiscV32IntegerMachine::new();
    machine.load_binary(&program);
    assert_eq!(run_until_host(&mut machine), RunEvent::HostRequest(3));
    machine.set_x(10, 42);
    assert_eq!(run_until_host(&mut machine), RunEvent::Exited(0));
    assert_eq!(machine.x(10), 42);
}

#[test]
fn dual_run_resumes_after_a_host_request() {
    let program_a = assemble(&[
        encode_i(3, 0, 0x0, 17, 0x13), // addi a7, x0, 3 (random builtin)
        0x0000_0073,                   // ecall
        (8 << 25) | (10 << 20) | (0x2 << 12) | (0x23), // sw a0, 256(x0)
        0x0010_0073,                   // ebreak
    ]);
    let program_b = assemble(&[0x0010_0073]);
    let mut machine = RiscV32IntegerMachine::new();
    let mut run = DualRun::start(&mut machine, &program_a, &program_b, standard_layout());
    assert_eq!(run.resume(&mut machine), DualEvent::HostRequest(3));
    machine.set_x(10, 7);
    assert_eq!(run.resume(&mut machine), DualEvent::Exited(0, 0));
    assert_eq!(machine.load_u32(256), 7);
}
