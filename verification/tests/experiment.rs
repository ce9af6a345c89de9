use memory_model_sim::device::cache_trace::{CacheAccessEvent, CacheAccessKind, CacheAccessSource};
use memory_model_sim::device::secdcp_memory::SecurityClass;
use memory_model_sim::experiment::{
    TrialEvent, TrialRun, load_experiment_programs, PHASE_HALT,
    PHASE_EVICT_TARGET, PHASE_PRIME, PHASE_PROBE, PHASE_VICTIM_ACCESS, PHASE_WARM_VICTIM, TrialCounts, TrialRecord,
    binary_trial_secret, trial_secret_set, trial_steps,
    AttackKind, ContextEvent, ControlMode, DomainMode, ExperimentBuiltinState, RESERVED_STACK_SET, SETS,
    ScheduleMode, XorShift64, attack_name, binary_prediction, binary_probe_time, control_name, domain_name,
    enter_experiment_context, experiment_contexts, memory_model_name, parse_attack_kind, parse_control_mode,
    parse_domain_mode, parse_memory_model, parse_schedule_mode, prime_probe_prediction, random_measured_set,
    record_from_events, register_experiment_builtins, run_until_event, schedule_name, trials_per_set,
};
use memory_model_sim::machine::riscv32_integer::builtins::{
    BUILTIN_EXP_DONE, BUILTIN_EXP_GET_PHASE, BUILTIN_EXP_SUBMIT_SCALAR, BUILTIN_RANDOM,
};
use memory_model_sim::machine::{Machine, MemoryModel, RiscV32IntegerMachine};

fn encode_i(imm: i32, rs1: u8, funct3: u32, rd: u8, opcode: u32) -> u32 {
    (((imm as u32) & 0xfff) << 20) | ((rs1 as u32) << 15) | (funct3 << 12) | ((rd as u32) << 7) | opcode
}

fn assemble(instructions: &[u32]) -> Vec<u8> {
    let mut bytes = Vec::new();
    for insn in instructions {
        bytes.extend_from_slice(&insn.to_le_bytes());
    }
    bytes
}

#[test]
fn attack_names_parse_back() {
    for attack in [AttackKind::BinaryPrimeProbe, AttackKind::PrimeProbe, AttackKind::EvictTime] {
        assert_eq!(parse_attack_kind(attack_name(attack)), Ok(attack));
    }
    assert_eq!(parse_attack_kind("binary-prime-probe"), Ok(AttackKind::BinaryPrimeProbe));
    assert_eq!(parse_attack_kind("flush-reload"), Err("unsupported attack: flush-reload".to_string()));
}

#[test]
fn mode_names_parse_back() {
    for mode in [ScheduleMode::TimeSliced, ScheduleMode::Smt] {
        assert_eq!(parse_schedule_mode(schedule_name(mode)), Ok(mode));
    }
    for mode in [DomainMode::Different, DomainMode::Same] {
        assert_eq!(parse_domain_mode(domain_name(mode)), Ok(mode));
    }
    for mode in [ControlMode::NoControl, ControlMode::NoVictim, ControlMode::ForcedEviction] {
        assert_eq!(parse_control_mode(control_name(mode)), Ok(mode));
    }
    assert_eq!(parse_schedule_mode("smp"), Err("unsupported experiment mode: smp".to_string()));
    assert_eq!(parse_domain_mode(""), Err("unsupported domains mode: ".to_string()));
    assert_eq!(parse_control_mode("None"), Err("unsupported control: None".to_string()));
}

#[test]
fn memory_model_names_parse_back() {
    for model in [
        MemoryModel::Default,
        MemoryModel::SmtCache,
        MemoryModel::BackCache,
        MemoryModel::NewCache,
        MemoryModel::SecDcp,
    ] {
        assert_eq!(parse_memory_model(memory_model_name(model)), Ok(model));
    }
    assert_eq!(memory_model_name(MemoryModel::SecDcp), "secdcp");
    assert_eq!(parse_memory_model("bogus"), Err("unsupported memory model: bogus".to_string()));
}

#[test]
fn xorshift_follows_the_shift_sequence() {
    let mut rng = XorShift64::new(0);
    assert_eq!(rng.state, 1);
    let mut expected: u64 = 1;
    expected ^= expected << 13;
    expected ^= expected >> 7;
    expected ^= expected << 17;
    assert_eq!(rng.next(), expected);
    let mut rng = XorShift64::new(99);
    let draw = rng.next_usize(10);
    let mut s: u64 = 99;
    s ^= s << 13;
    s ^= s >> 7;
    s ^= s << 17;
    assert_eq!(draw, ((s >> 32) as usize) % 10);
}

#[test]
fn measured_sets_skip_the_stack_set() {
    let mut rng = XorShift64::new(7);
    for _ in 0..1000 {
        let set = random_measured_set(&mut rng);
        assert!(set < SETS);
        assert_ne!(set, RESERVED_STACK_SET);
    }
    assert_eq!(trials_per_set(10), 1);
    assert_eq!(trials_per_set(200), 3);
}

#[test]
fn predictions_pick_the_slowest_measured_set() {
    assert_eq!(prime_probe_prediction(&vec![5, 100, 7, 7, 3]), Some(3));
    assert_eq!(prime_probe_prediction(&vec![9]), Some(0));
    assert_eq!(prime_probe_prediction(&vec![]), None);
    assert_eq!(binary_probe_time(&vec![1, 2, 3], 2), 3);
    assert_eq!(binary_probe_time(&vec![1, 2, 3], 17), 0);
    assert_eq!(binary_prediction(700), 1);
    assert_eq!(binary_prediction(699), 0);
}

fn event(requester_pid: u32, evicted_pid: Option<u32>, source: CacheAccessSource) -> CacheAccessEvent {
    CacheAccessEvent {
        architecture: "newcache",
        requester: SecurityClass::High,
        requester_pid,
        requester_domain: 2,
        kind: CacheAccessKind::Load,
        addr: 0,
        set: None,
        hit: false,
        source,
        evicted_owner: None,
        evicted_pid,
        evicted_domain: None,
        evicted_addr: None,
        slice: None,
        writebacks: 0,
    }
}

#[test]
fn records_count_victim_evictions_of_attacker_lines() {
    let events = vec![
        event(2, Some(1), CacheAccessSource::Lower),
        event(2, Some(2), CacheAccessSource::Lower),
        event(1, Some(1), CacheAccessSource::Lower),
        event(2, Some(1), CacheAccessSource::L1D),
        event(2, Some(1), CacheAccessSource::Lower),
    ];
    let record = record_from_events(Some(17), 23, Some(0), vec![1, 2], None, 55, &events);
    assert_eq!(record.attacker_l1d_evictions_by_victim, 2);
    assert_eq!(record.total_trial_cycles, 55);
    assert_eq!(record.probe_time, vec![1, 2]);
}

#[test]
fn experiment_builtins_are_served_until_done() {
    // Reads the phase into a0, submits it as scalar 2, then reports done.
    let program = assemble(&[
        encode_i(10, 0, 0x0, 17, 0x13),  // addi a7, x0, GET_PHASE
        0x0000_0073,                     // ecall
        encode_i(0, 10, 0x0, 11, 0x13),  // addi a1, a0, 0
        encode_i(0, 0, 0x0, 12, 0x13),   // addi a2, x0, 0
        encode_i(2, 0, 0x0, 10, 0x13),   // addi a0, x0, 2
        encode_i(14, 0, 0x0, 17, 0x13),  // addi a7, x0, SUBMIT_SCALAR
        0x0000_0073,                     // ecall
        encode_i(3, 0, 0x0, 17, 0x13),   // addi a7, x0, RANDOM
        0x0000_0073,                     // ecall
        encode_i(16, 0, 0x0, 17, 0x13),  // addi a7, x0, DONE
        0x0000_0073,                     // ecall
        0x0010_0073,                     // ebreak
    ]);
    assert_eq!(BUILTIN_EXP_GET_PHASE, 10);
    assert_eq!(BUILTIN_EXP_SUBMIT_SCALAR, 14);
    assert_eq!(BUILTIN_EXP_DONE, 16);
    let mut machine = RiscV32IntegerMachine::with_memory_model(MemoryModel::NewCache);
    register_experiment_builtins(&mut machine);
    machine.load_binary(&program);
    let contexts = experiment_contexts(DomainMode::Different, ScheduleMode::TimeSliced);
    enter_experiment_context(&mut machine, &contexts[0], ScheduleMode::TimeSliced);
    let mut state = ExperimentBuiltinState::new();
    state.begin_phase(5, 3, 1, 17, true);
    assert_eq!(run_until_event(&mut machine, &mut state), ContextEvent::HostRequest(BUILTIN_RANDOM));
    assert_eq!(state.submitted, vec![0, 0, 5]);
    machine.set_x(10, 1234);
    assert_eq!(run_until_event(&mut machine, &mut state), ContextEvent::Done);
    assert!(state.done);
}

#[test]
fn experiment_contexts_place_attacker_and_victim() {
    let c = experiment_contexts(DomainMode::Same, ScheduleMode::Smt);
    assert_eq!(c[0].metadata.pid, 1);
    assert_eq!(c[1].metadata.pid, 2);
    assert_eq!(c[1].registers.pc, 0x8001_0000);
    assert_eq!(c[1].security_class, SecurityClass::Low);
    assert_eq!(c[1].metadata.current_hardware_thread, 1);
    let c = experiment_contexts(DomainMode::Different, ScheduleMode::TimeSliced);
    assert_eq!(c[1].security_class, SecurityClass::High);
    assert_eq!(c[1].metadata.security_domain_id, 2);
}

#[test]
fn trial_counts_follow_each_attack() {
    let mut counts = TrialCounts::new();
    let record = TrialRecord {
        target_set: Some(17),
        secret_set: 17,
        secret_bit: Some(1),
        probe_time: vec![0; 64].into_iter().enumerate().map(|(i, _)| if i == 17 { 900 } else { 10 }).collect(),
        victim_elapsed_cycles: None,
        total_trial_cycles: 50,
        attacker_l1d_evictions_by_victim: 2,
    };
    assert_eq!(counts.count(AttackKind::BinaryPrimeProbe, &record, 17), Some((true, 900)));
    assert_eq!(counts.trials, 1);
    assert_eq!(counts.correct, 1);
    assert_eq!(counts.binary_tp, 1);
    assert_eq!(counts.binary_joint, vec![0, 0, 0, 1]);
    assert_eq!(counts.binary_samples, vec![(900, true)]);
    assert_eq!(counts.total_trial_cycles, 50);
    assert_eq!(counts.victim_evicted_attacker_lines, 2);

    assert_eq!(counts.count(AttackKind::PrimeProbe, &record, 17), None);
    assert_eq!(counts.correct, 2);
    assert_eq!(counts.multi_joint[17 * SETS + 17], 1);

    let evict = TrialRecord {
        target_set: Some(3),
        secret_set: 4,
        secret_bit: Some(0),
        probe_time: vec![],
        victim_elapsed_cycles: Some(77),
        total_trial_cycles: 5,
        attacker_l1d_evictions_by_victim: 0,
    };
    assert_eq!(counts.count(AttackKind::EvictTime, &evict, 17), Some((false, 77)));
    assert_eq!(counts.trials, 3);
    assert_eq!(counts.victim_memory_accesses, 3);
}

#[test]
fn trial_plans_and_secrets() {
    assert_eq!(
        trial_steps(AttackKind::PrimeProbe, ControlMode::NoControl),
        vec![(PHASE_PRIME, 0), (PHASE_VICTIM_ACCESS, 1), (PHASE_PROBE, 0)]
    );
    assert_eq!(trial_steps(AttackKind::BinaryPrimeProbe, ControlMode::NoVictim), vec![(PHASE_PRIME, 0), (PHASE_PROBE, 0)]);
    assert_eq!(
        trial_steps(AttackKind::EvictTime, ControlMode::ForcedEviction),
        vec![(PHASE_WARM_VICTIM, 1), (PHASE_EVICT_TARGET, 0), (PHASE_VICTIM_ACCESS, 1)]
    );
    let mut rng = XorShift64::new(5);
    assert_eq!(binary_trial_secret(ControlMode::ForcedEviction, &mut rng, 17, 23), (17, 1));
    assert_eq!(rng.state, 5);
    assert_eq!(trial_secret_set(ControlMode::ForcedEviction, &mut rng, 9), 9);
    let mut a = XorShift64::new(5);
    let mut b = XorShift64::new(5);
    let bit = (a.next_usize(2)) as u32;
    let (set, got) = binary_trial_secret(ControlMode::NoControl, &mut b, 17, 23);
    assert_eq!(got, bit);
    assert_eq!(set, if bit == 1 { 17 } else { 23 });
    let mut c = XorShift64::new(5);
    let drawn = random_measured_set(&mut XorShift64::new(5));
    assert_eq!(trial_secret_set(ControlMode::NoVictim, &mut c, 9), drawn);
}

#[test]
fn trial_runs_gather_their_records() {
    // Reports done, then jumps back to do it again.
    let program = assemble(&[
        encode_i(16, 0, 0x0, 17, 0x13), // addi a7, x0, DONE
        0x0000_0073,                    // ecall
        0xff9f_f06f,                    // jal x0, -8
    ]);
    let mut machine = RiscV32IntegerMachine::with_memory_model(MemoryModel::SmtCache);
    register_experiment_builtins(&mut machine);
    let mut contexts =
        load_experiment_programs(&mut machine, &program, &program, DomainMode::Different, ScheduleMode::TimeSliced);
    let mut state = ExperimentBuiltinState::new();

    let mut run = TrialRun::phase(PHASE_HALT, 1, ScheduleMode::TimeSliced);
    assert!(matches!(run.resume(&mut machine, &mut contexts, &mut state), TrialEvent::Finished(None)));
    assert_eq!(contexts[1].registers.pc, 0x8001_0008);
    assert!(!contexts[1].exited);

    let mut run = TrialRun::trial(
        &mut machine,
        AttackKind::PrimeProbe,
        ControlMode::NoControl,
        ScheduleMode::TimeSliced,
        5,
        None,
        17,
    );
    match run.resume(&mut machine, &mut contexts, &mut state) {
        TrialEvent::Finished(Some(record)) => {
            assert_eq!(record.secret_set, 5);
            assert_eq!(record.target_set, Some(17));
            assert_eq!(record.secret_bit, None);
            assert!(record.probe_time.is_empty());
            assert_eq!(record.victim_elapsed_cycles, None);
            assert!(record.total_trial_cycles > 0);
        }
        other => panic!("unexpected event {other:?}"),
    }

    let mut run = TrialRun::trial(
        &mut machine,
        AttackKind::EvictTime,
        ControlMode::NoControl,
        ScheduleMode::TimeSliced,
        3,
        Some(0),
        4,
    );
    match run.resume(&mut machine, &mut contexts, &mut state) {
        TrialEvent::Finished(Some(record)) => {
            assert_eq!(record.secret_bit, Some(0));
            assert!(record.victim_elapsed_cycles.unwrap() > 0);
            assert_eq!(state.phase, memory_model_sim::experiment::PHASE_VICTIM_ACCESS);
        }
        other => panic!("unexpected event {other:?}"),
    }
}

fn schedule_config(attack: AttackKind, control: ControlMode, trials: usize) -> memory_model_sim::experiment::ExperimentConfig {
    memory_model_sim::experiment::ExperimentConfig {
        attack,
        schedule_mode: ScheduleMode::TimeSliced,
        memory_model: MemoryModel::Default,
        domain_mode: DomainMode::Different,
        control,
        trials,
        seed: 1,
        target_set: 17,
        decoy_set: 23,
        attacker_path: String::new(),
        victim_path: String::new(),
        out_dir: String::new(),
    }
}

#[test]
fn evict_time_schedule_measures_every_set_in_turn() {
    let config = schedule_config(AttackKind::EvictTime, ControlMode::ForcedEviction, 128);
    let mut schedule = memory_model_sim::experiment::TrialSchedule::new(&config);
    let mut rng = XorShift64::new(7);
    let mut seen = Vec::new();
    while let Some(t) = schedule.next_trial(&mut rng) {
        seen.push(t);
    }
    assert_eq!(seen.len(), 128);
    assert_eq!(seen[0].target_set, 0);
    assert_eq!(seen[1].target_set, 0);
    assert_eq!(seen[2].target_set, 1);
    assert_eq!(seen[127].target_set, 63);
    assert!(seen.iter().all(|t| t.secret_set == t.target_set && t.secret_bit == Some(1)));
}

#[test]
fn binary_schedule_draws_like_binary_trial_secret() {
    let config = schedule_config(AttackKind::BinaryPrimeProbe, ControlMode::NoControl, 5);
    let mut schedule = memory_model_sim::experiment::TrialSchedule::new(&config);
    let mut rng = XorShift64::new(9);
    let mut reference = XorShift64::new(9);
    let mut count = 0;
    while let Some(t) = schedule.next_trial(&mut rng) {
        let (set, bit) = binary_trial_secret(ControlMode::NoControl, &mut reference, 17, 23);
        assert_eq!(t.target_set, 17);
        assert_eq!(t.secret_set, set);
        assert_eq!(t.secret_bit, Some(bit));
        count += 1;
    }
    assert_eq!(count, 5);
}
