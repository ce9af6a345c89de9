use memory_model_sim::cli::{default_experiment_path, parse_cli_args, parse_experiment_args};
use memory_model_sim::experiment::{AttackKind, ControlMode, DomainMode, ScheduleMode};
use memory_model_sim::machine::MemoryModel;

fn strings(items: &[&str]) -> Vec<String> {
    items.iter().map(|s| s.to_string()).collect()
}

#[test]
fn parse_cli_defaults_to_default_memory_model() {
    let config = parse_cli_args(&["prog.bin".to_string()]).unwrap();
    assert_eq!(config.memory_model, MemoryModel::Default);
    assert_eq!(config.path_a, "prog.bin");
    assert_eq!(config.path_b, None);
}

#[test]
fn parse_cli_accepts_secdcp_memory_model() {
    let config = parse_cli_args(&[
        "--memory-model=secdcp".to_string(),
        "a.bin".to_string(),
        "b.bin".to_string(),
    ])
    .unwrap();
    assert_eq!(config.memory_model, MemoryModel::SecDcp);
    assert_eq!(config.path_a, "a.bin");
    assert_eq!(config.path_b.as_deref(), Some("b.bin"));
}

#[test]
fn parse_cli_accepts_backcache_memory_model() {
    let config = parse_cli_args(&[
        "--memory-model=backcache".to_string(),
        "a.bin".to_string(),
        "b.bin".to_string(),
    ])
    .unwrap();
    assert_eq!(config.memory_model, MemoryModel::BackCache);
    assert_eq!(config.path_a, "a.bin");
    assert_eq!(config.path_b.as_deref(), Some("b.bin"));
}

#[test]
fn parse_cli_accepts_smtcache_memory_model() {
    let config = parse_cli_args(&[
        "--memory-model=smtcache".to_string(),
        "a.bin".to_string(),
        "b.bin".to_string(),
    ])
    .unwrap();
    assert_eq!(config.memory_model, MemoryModel::SmtCache);
}

#[test]
fn parse_cli_accepts_newcache_memory_model() {
    let config = parse_cli_args(&[
        "--memory-model=newcache".to_string(),
        "a.bin".to_string(),
        "b.bin".to_string(),
    ])
    .unwrap();
    assert_eq!(config.memory_model, MemoryModel::NewCache);
    assert_eq!(config.path_a, "a.bin");
    assert_eq!(config.path_b.as_deref(), Some("b.bin"));
}

#[test]
fn parse_cli_rejects_unknown_memory_model() {
    let err = parse_cli_args(&["--memory-model=bogus".to_string(), "a.bin".to_string()]).unwrap_err();
    assert!(err.contains("unsupported memory model"));
}

#[test]
fn parse_cli_reports_missing_and_extra_paths() {
    assert_eq!(parse_cli_args(&[]).unwrap_err(), "missing flat-binary-path");
    assert_eq!(
        parse_cli_args(&strings(&["--memory-model=newcache"])).unwrap_err(),
        "missing flat-binary-path"
    );
    assert_eq!(parse_cli_args(&strings(&["a", "b", "c"])).unwrap_err(), "too many arguments");
}

#[test]
fn parse_cli_takes_the_last_memory_model_anywhere() {
    let config =
        parse_cli_args(&strings(&["a.bin", "--memory-model=smtcache", "--memory-model=backcache"])).unwrap();
    assert_eq!(config.memory_model, MemoryModel::BackCache);
    assert_eq!(config.path_a, "a.bin");
    assert_eq!(config.path_b, None);
}

#[test]
fn parse_cli_reports_the_first_refused_model() {
    let err = parse_cli_args(&strings(&["--memory-model=x", "--memory-model=y", "a"])).unwrap_err();
    assert_eq!(err, "unsupported memory model: x");
}

#[test]
fn default_experiment_path_names_the_firmware() {
    assert_eq!(default_experiment_path("l1d-victim"), "riscv-programs/l1d-victim/firmware.bin");
}

#[test]
fn experiment_args_default() {
    let config = parse_experiment_args(&[]).unwrap();
    assert_eq!(config.attack, AttackKind::BinaryPrimeProbe);
    assert_eq!(config.schedule_mode, ScheduleMode::TimeSliced);
    assert_eq!(config.memory_model, MemoryModel::Default);
    assert_eq!(config.domain_mode, DomainMode::Different);
    assert_eq!(config.control, ControlMode::NoControl);
    assert_eq!(config.trials, 16_384);
    assert_eq!(config.seed, 1);
    assert_eq!(config.target_set, 17);
    assert_eq!(config.decoy_set, 23);
    assert_eq!(config.attacker_path, "riscv-programs/l1d-attacker/firmware.bin");
    assert_eq!(config.victim_path, "riscv-programs/l1d-victim/firmware.bin");
    assert_eq!(config.out_dir, "results/l1d-experiment");
}

#[test]
fn experiment_args_read_every_setting() {
    let config = parse_experiment_args(&strings(&[
        "--attack=prime-probe",
        "--mode=smt",
        "--memory-model=newcache",
        "--domains=same",
        "--control=forced-eviction",
        "--trials=+42",
        "--seed=18446744073709551615",
        "--target-set=5",
        "--decoy-set=63",
        "--attacker=att.bin",
        "--victim=vic.bin",
        "--out=outdir",
    ]))
    .unwrap();
    assert_eq!(config.attack, AttackKind::PrimeProbe);
    assert_eq!(config.schedule_mode, ScheduleMode::Smt);
    assert_eq!(config.memory_model, MemoryModel::NewCache);
    assert_eq!(config.domain_mode, DomainMode::Same);
    assert_eq!(config.control, ControlMode::ForcedEviction);
    assert_eq!(config.trials, 42);
    assert_eq!(config.seed, u64::MAX);
    assert_eq!(config.target_set, 5);
    assert_eq!(config.decoy_set, 63);
    assert_eq!(config.attacker_path, "att.bin");
    assert_eq!(config.victim_path, "vic.bin");
    assert_eq!(config.out_dir, "outdir");
}

#[test]
fn experiment_args_errors() {
    let err = |items: &[&str]| parse_experiment_args(&strings(items)).unwrap_err();
    assert_eq!(err(&["--attack=x"]), "unsupported attack: x");
    assert_eq!(err(&["--mode=x"]), "unsupported experiment mode: x");
    assert_eq!(err(&["--memory-model=x"]), "unsupported memory model: x");
    assert_eq!(err(&["--domains=x"]), "unsupported domains mode: x");
    assert_eq!(err(&["--control=x"]), "unsupported control: x");
    assert_eq!(err(&["--trials=-1"]), "invalid --trials value: -1");
    assert_eq!(err(&["--trials="]), "invalid --trials value: ");
    assert_eq!(err(&["--seed=18446744073709551616"]), "invalid --seed value: 18446744073709551616");
    assert_eq!(err(&["--target-set=1x"]), "invalid --target-set value: 1x");
    assert_eq!(err(&["--decoy-set=+"]), "invalid --decoy-set value: +");
    assert_eq!(err(&["--bogus"]), "unsupported experiment argument: --bogus");
    assert_eq!(err(&["--target-set=64"]), "--target-set must be in 0..64");
    assert_eq!(err(&["--decoy-set=64"]), "--decoy-set must be in 0..64");
    assert_eq!(err(&["--attack=x", "--bogus"]), "unsupported attack: x");
}
