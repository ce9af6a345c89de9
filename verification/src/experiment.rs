use vstd::prelude::*;
use vstd::string::StringExecFns;
use vstd::string::StringSliceAdditionalSpecFns;
use vstd::arithmetic::div_mod::lemma_fundamental_div_mod;

use crate::device::backcache_memory::xorshift;
use crate::device::cache_trace::{CacheAccessEvent, CacheAccessSource};
use crate::device::secdcp_memory::SecurityClass;
use crate::machine::riscv32_integer::builtins::{
    BUILTIN_EXP_DONE, BUILTIN_EXP_GET_PHASE, BUILTIN_EXP_GET_SECRET_BIT, BUILTIN_EXP_GET_SECRET_SET,
    BUILTIN_EXP_GET_TARGET_SET, BUILTIN_EXP_SUBMIT_SCALAR, BUILTIN_EXP_SUBMIT_VECTOR,
};
use crate::machine::riscv32_integer::{Builtin, write_reg};
use crate::machine::riscv32_integer::step::{halted_at, lemma_halt_point, lemma_reject_point, loaded, step_effect, uncached};
use crate::device::memory::le_u32;
use crate::machine::{
    EXIT_CYCLE_LIMIT, MEMORY_SIZE, Machine, MemoryModel, MemorySegment, Registers, RiscV32IntegerMachine,
    StepResult,
};

verus! {

broadcast use {
    vstd::utf8::encode_utf8_decode_utf8,
    RiscV32IntegerMachine::lemma_except_builtins_trans,
    RiscV32IntegerMachine::lemma_periphery_trans,
    RiscV32IntegerMachine::lemma_same_periphery,
    RiscV32IntegerMachine::lemma_same_memory,
};

/// Cache sets that an attacker can prime and probe.
pub const SETS: usize = 64;

/// The set that the programs' stack occupies, which no trial measures.
pub const RESERVED_STACK_SET: usize = 1;

pub const DEFAULT_TARGET_SET: usize = 17;
pub const DEFAULT_DECOY_SET: usize = 23;

pub const PHASE_HALT: u32 = 0;
pub const PHASE_PRIME: u32 = 1;
pub const PHASE_PROBE: u32 = 2;
pub const PHASE_VICTIM_ACCESS: u32 = 3;
pub const PHASE_WARM_VICTIM: u32 = 4;
pub const PHASE_EVICT_TARGET: u32 = 5;

/// Probe times at or above this count as a victim access in a binary trial.
pub const BINARY_THRESHOLD: u64 = 700;

/// Which side-channel attack an experiment runs.
#[derive(Clone, Copy, Debug, PartialEq, Eq, Structural)]
pub enum AttackKind {
    BinaryPrimeProbe,
    PrimeProbe,
    EvictTime,
}

/// How attacker and victim share the core.
#[derive(Clone, Copy, Debug, PartialEq, Eq, Structural)]
pub enum ScheduleMode {
    TimeSliced,
    Smt,
}

/// Whether attacker and victim belong to the same security domain.
#[derive(Clone, Copy, Debug, PartialEq, Eq, Structural)]
pub enum DomainMode {
    Different,
    Same,
}

/// Which control condition an experiment runs under.
#[derive(Clone, Copy, Debug, PartialEq, Eq, Structural)]
pub enum ControlMode {
    NoControl,
    NoVictim,
    ForcedEviction,
}

/// Everything an experiment run is configured by.
#[derive(Debug)]
pub struct ExperimentConfig {
    pub attack: AttackKind,
    pub schedule_mode: ScheduleMode,
    pub memory_model: MemoryModel,
    pub domain_mode: DomainMode,
    pub control: ControlMode,
    pub trials: usize,
    pub seed: u64,
    pub target_set: usize,
    pub decoy_set: usize,
    pub attacker_path: String,
    pub victim_path: String,
    pub out_dir: String,
}

/// Whether `value` spells `lit`.
fn str_is(value: &str, lit: &str) -> (r: bool)
    ensures
        r == (value@ == lit@),
{
    let a = value.as_bytes();
    let b = lit.as_bytes();
    if a.len() != b.len() {
        proof {
            if value@ == lit@ {
                assert(a@ == b@);
            }
        }
        return false;
    }
    let mut i: usize = 0;
    while i < a.len()
        invariant
            a@ == value.spec_bytes(),
            b@ == lit.spec_bytes(),
            a@.len() == b@.len(),
            i <= a@.len(),
            forall|k: int| 0 <= k < i ==> a@[k] == b@[k],
        decreases a@.len() - i,
    {
        if a[i] != b[i] {
            proof {
                if value@ == lit@ {
                    assert(a@ == b@);
                }
            }
            return false;
        }
        i = i + 1;
    }
    proof {
        assert(a@ =~= b@);
        assert(vstd::utf8::decode_utf8(a@) == value@);
        assert(vstd::utf8::decode_utf8(b@) == lit@);
    }
    true
}

/// `prefix` followed by `value`.
pub(crate) fn message(prefix: &str, value: &str) -> (m: String)
    ensures
        m@ == prefix@ + value@,
{
    String::from_str(prefix).concat(value)
}

/// The attack that `s` names, if any.
pub open spec fn attack_of(s: Seq<char>) -> Option<AttackKind> {
    if s == "binary-pp"@ || s == "binary-prime-probe"@ {
        Some(AttackKind::BinaryPrimeProbe)
    } else if s == "prime-probe"@ {
        Some(AttackKind::PrimeProbe)
    } else if s == "evict-time"@ {
        Some(AttackKind::EvictTime)
    } else {
        None
    }
}

pub fn parse_attack_kind(value: &str) -> (r: Result<AttackKind, String>)
    ensures
        match attack_of(value@) {
            Some(k) => r == Ok::<AttackKind, String>(k),
            None => r is Err && r->Err_0@ == "unsupported attack: "@ + value@,
        },
{
    proof {
        reveal_strlit("binary-pp");
        reveal_strlit("binary-prime-probe");
        reveal_strlit("prime-probe");
        reveal_strlit("evict-time");
    }
    if str_is(value, "binary-pp") || str_is(value, "binary-prime-probe") {
        Ok(AttackKind::BinaryPrimeProbe)
    } else if str_is(value, "prime-probe") {
        Ok(AttackKind::PrimeProbe)
    } else if str_is(value, "evict-time") {
        Ok(AttackKind::EvictTime)
    } else {
        Err(message("unsupported attack: ", value))
    }
}

/// The schedule mode that `s` names, if any.
pub open spec fn schedule_of(s: Seq<char>) -> Option<ScheduleMode> {
    if s == "time-sliced"@ {
        Some(ScheduleMode::TimeSliced)
    } else if s == "smt"@ {
        Some(ScheduleMode::Smt)
    } else {
        None
    }
}

pub fn parse_schedule_mode(value: &str) -> (r: Result<ScheduleMode, String>)
    ensures
        match schedule_of(value@) {
            Some(k) => r == Ok::<ScheduleMode, String>(k),
            None => r is Err && r->Err_0@ == "unsupported experiment mode: "@ + value@,
        },
{
    proof {
        reveal_strlit("time-sliced");
        reveal_strlit("smt");
    }
    if str_is(value, "time-sliced") {
        Ok(ScheduleMode::TimeSliced)
    } else if str_is(value, "smt") {
        Ok(ScheduleMode::Smt)
    } else {
        Err(message("unsupported experiment mode: ", value))
    }
}

/// The domains mode that `s` names, if any.
pub open spec fn domain_of(s: Seq<char>) -> Option<DomainMode> {
    if s == "different"@ {
        Some(DomainMode::Different)
    } else if s == "same"@ {
        Some(DomainMode::Same)
    } else {
        None
    }
}

pub fn parse_domain_mode(value: &str) -> (r: Result<DomainMode, String>)
    ensures
        match domain_of(value@) {
            Some(k) => r == Ok::<DomainMode, String>(k),
            None => r is Err && r->Err_0@ == "unsupported domains mode: "@ + value@,
        },
{
    proof {
        reveal_strlit("different");
        reveal_strlit("same");
    }
    if str_is(value, "different") {
        Ok(DomainMode::Different)
    } else if str_is(value, "same") {
        Ok(DomainMode::Same)
    } else {
        Err(message("unsupported domains mode: ", value))
    }
}

/// The control that `s` names, if any.
pub open spec fn control_of(s: Seq<char>) -> Option<ControlMode> {
    if s == "none"@ {
        Some(ControlMode::NoControl)
    } else if s == "no-victim"@ {
        Some(ControlMode::NoVictim)
    } else if s == "forced-eviction"@ {
        Some(ControlMode::ForcedEviction)
    } else {
        None
    }
}

pub fn parse_control_mode(value: &str) -> (r: Result<ControlMode, String>)
    ensures
        match control_of(value@) {
            Some(k) => r == Ok::<ControlMode, String>(k),
            None => r is Err && r->Err_0@ == "unsupported control: "@ + value@,
        },
{
    proof {
        reveal_strlit("none");
        reveal_strlit("no-victim");
        reveal_strlit("forced-eviction");
    }
    if str_is(value, "none") {
        Ok(ControlMode::NoControl)
    } else if str_is(value, "no-victim") {
        Ok(ControlMode::NoVictim)
    } else if str_is(value, "forced-eviction") {
        Ok(ControlMode::ForcedEviction)
    } else {
        Err(message("unsupported control: ", value))
    }
}

/// Parses a memory model's name, the inverse of [`memory_model_name`].
/// The memory model that `s` names, if any.
pub open spec fn memory_model_of(s: Seq<char>) -> Option<MemoryModel> {
    if s == "default"@ {
        Some(MemoryModel::Default)
    } else if s == "smtcache"@ {
        Some(MemoryModel::SmtCache)
    } else if s == "backcache"@ {
        Some(MemoryModel::BackCache)
    } else if s == "newcache"@ {
        Some(MemoryModel::NewCache)
    } else if s == "secdcp"@ {
        Some(MemoryModel::SecDcp)
    } else {
        None
    }
}

pub fn parse_memory_model(value: &str) -> (r: Result<MemoryModel, String>)
    ensures
        match memory_model_of(value@) {
            Some(k) => r == Ok::<MemoryModel, String>(k),
            None => r is Err && r->Err_0@ == "unsupported memory model: "@ + value@,
        },
{
    proof {
        reveal_strlit("default");
        reveal_strlit("smtcache");
        reveal_strlit("backcache");
        reveal_strlit("newcache");
        reveal_strlit("secdcp");
    }
    if str_is(value, "default") {
        Ok(MemoryModel::Default)
    } else if str_is(value, "smtcache") {
        Ok(MemoryModel::SmtCache)
    } else if str_is(value, "backcache") {
        Ok(MemoryModel::BackCache)
    } else if str_is(value, "newcache") {
        Ok(MemoryModel::NewCache)
    } else if str_is(value, "secdcp") {
        Ok(MemoryModel::SecDcp)
    } else {
        Err(message("unsupported memory model: ", value))
    }
}

/// The name of the memory model `model` in arguments and reports.
pub open spec fn memory_model_label(model: MemoryModel) -> Seq<char> {
    match model {
        MemoryModel::Default => "default"@,
        MemoryModel::SmtCache => "smtcache"@,
        MemoryModel::BackCache => "backcache"@,
        MemoryModel::NewCache => "newcache"@,
        MemoryModel::SecDcp => "secdcp"@,
    }
}

pub fn memory_model_name(model: MemoryModel) -> (s: &'static str)
    ensures
        s@ == memory_model_label(model),
{
    match model {
        MemoryModel::Default => "default",
        MemoryModel::SmtCache => "smtcache",
        MemoryModel::BackCache => "backcache",
        MemoryModel::NewCache => "newcache",
        MemoryModel::SecDcp => "secdcp",
    }
}

/// The name of the attack `attack` in arguments and reports.
pub open spec fn attack_label(attack: AttackKind) -> Seq<char> {
    match attack {
        AttackKind::BinaryPrimeProbe => "binary-pp"@,
        AttackKind::PrimeProbe => "prime-probe"@,
        AttackKind::EvictTime => "evict-time"@,
    }
}

pub fn attack_name(attack: AttackKind) -> (s: &'static str)
    ensures
        s@ == attack_label(attack),
{
    match attack {
        AttackKind::BinaryPrimeProbe => "binary-pp",
        AttackKind::PrimeProbe => "prime-probe",
        AttackKind::EvictTime => "evict-time",
    }
}

/// The name of the schedule mode `mode` in arguments and reports.
pub open spec fn schedule_label(mode: ScheduleMode) -> Seq<char> {
    match mode {
        ScheduleMode::TimeSliced => "time-sliced"@,
        ScheduleMode::Smt => "smt"@,
    }
}

pub fn schedule_name(mode: ScheduleMode) -> (s: &'static str)
    ensures
        s@ == schedule_label(mode),
{
    match mode {
        ScheduleMode::TimeSliced => "time-sliced",
        ScheduleMode::Smt => "smt",
    }
}

/// The name of the domain mode `mode` in arguments and reports.
pub open spec fn domain_label(mode: DomainMode) -> Seq<char> {
    match mode {
        DomainMode::Different => "different"@,
        DomainMode::Same => "same"@,
    }
}

pub fn domain_name(mode: DomainMode) -> (s: &'static str)
    ensures
        s@ == domain_label(mode),
{
    match mode {
        DomainMode::Different => "different",
        DomainMode::Same => "same",
    }
}

/// The name of the control mode `mode` in arguments and reports.
pub open spec fn control_label(mode: ControlMode) -> Seq<char> {
    match mode {
        ControlMode::NoControl => "none"@,
        ControlMode::NoVictim => "no-victim"@,
        ControlMode::ForcedEviction => "forced-eviction"@,
    }
}

pub fn control_name(mode: ControlMode) -> (s: &'static str)
    ensures
        s@ == control_label(mode),
{
    match mode {
        ControlMode::NoControl => "none",
        ControlMode::NoVictim => "no-victim",
        ControlMode::ForcedEviction => "forced-eviction",
    }
}

/// Every memory model is read back from its own name.
pub proof fn lemma_memory_model_name_parses(model: MemoryModel)
    ensures
        memory_model_of(memory_model_label(model)) == Some(model),
{
    reveal_strlit("default");
    reveal_strlit("smtcache");
    reveal_strlit("backcache");
    reveal_strlit("newcache");
    reveal_strlit("secdcp");
    match model {
        MemoryModel::Default => {},
        MemoryModel::SmtCache => {
            assert("smtcache"@.len() != "default"@.len());
        },
        MemoryModel::BackCache => {
            assert("backcache"@.len() != "default"@.len());
            assert("backcache"@.len() != "smtcache"@.len());
        },
        MemoryModel::NewCache => {
            assert("newcache"@.len() != "default"@.len());
            assert("newcache"@[0] != "smtcache"@[0]);
            assert("newcache"@.len() != "backcache"@.len());
        },
        MemoryModel::SecDcp => {
            assert("secdcp"@.len() != "default"@.len());
            assert("secdcp"@.len() != "smtcache"@.len());
            assert("secdcp"@.len() != "backcache"@.len());
            assert("secdcp"@.len() != "newcache"@.len());
        },
    }
}

/// Every attack is read back from its own name.
pub proof fn lemma_attack_name_parses(attack: AttackKind)
    ensures
        attack_of(attack_label(attack)) == Some(attack),
{
    reveal_strlit("binary-pp");
    reveal_strlit("prime-probe");
    reveal_strlit("evict-time");
    reveal_strlit("binary-prime-probe");
    match attack {
        AttackKind::BinaryPrimeProbe => {},
        AttackKind::PrimeProbe => {
            assert("prime-probe"@.len() != "binary-pp"@.len());
            assert("prime-probe"@.len() != "binary-prime-probe"@.len());
        },
        AttackKind::EvictTime => {
            assert("evict-time"@.len() != "binary-pp"@.len());
            assert("evict-time"@.len() != "binary-prime-probe"@.len());
            assert("evict-time"@.len() != "prime-probe"@.len());
        },
    }
}

/// Every schedule mode is read back from its own name.
pub proof fn lemma_schedule_name_parses(mode: ScheduleMode)
    ensures
        schedule_of(schedule_label(mode)) == Some(mode),
{
    reveal_strlit("time-sliced");
    reveal_strlit("smt");
    match mode {
        ScheduleMode::TimeSliced => {},
        ScheduleMode::Smt => {
            assert("smt"@.len() != "time-sliced"@.len());
        },
    }
}

/// Every domain mode is read back from its own name.
pub proof fn lemma_domain_name_parses(mode: DomainMode)
    ensures
        domain_of(domain_label(mode)) == Some(mode),
{
    reveal_strlit("different");
    reveal_strlit("same");
    match mode {
        DomainMode::Different => {},
        DomainMode::Same => {
            assert("same"@.len() != "different"@.len());
        },
    }
}

/// Every control mode is read back from its own name.
pub proof fn lemma_control_name_parses(mode: ControlMode)
    ensures
        control_of(control_label(mode)) == Some(mode),
{
    reveal_strlit("none");
    reveal_strlit("no-victim");
    reveal_strlit("forced-eviction");
    match mode {
        ControlMode::NoControl => {},
        ControlMode::NoVictim => {
            assert("no-victim"@.len() != "none"@.len());
        },
        ControlMode::ForcedEviction => {
            assert("forced-eviction"@.len() != "none"@.len());
            assert("forced-eviction"@.len() != "no-victim"@.len());
        },
    }
}

/// The xorshift generator that draws the trials' secrets.
pub struct XorShift64 {
    pub state: u64,
}

impl XorShift64 {
    /// A generator seeded with `seed`, where a zero seed counts as one.
    pub fn new(seed: u64) -> (g: Self)
        ensures
            g.state == if seed == 0 { 1 } else { seed },
    {
        XorShift64 { state: if seed == 0 { 1 } else { seed } }
    }

    pub fn next(&mut self) -> (r: u64)
        ensures
            r == xorshift(old(self).state),
            final(self).state == r,
    {
        let mut s = self.state;
        s = s ^ (s << 13u64);
        s = s ^ (s >> 7u64);
        s = s ^ (s << 17u64);
        self.state = s;
        s
    }

    /// A draw below `modulus` from the upper half of the next state.
    pub fn next_usize(&mut self, modulus: usize) -> (r: usize)
        requires
            modulus > 0,
        ensures
            final(self).state == xorshift(old(self).state),
            r == ((xorshift(old(self).state) >> 32u64) as usize) % modulus,
            r < modulus,
    {
        let v = self.next();
        let high = v >> 32u64;
        proof {
            assert(high <= 0xffff_ffffu64) by (bit_vector)
                requires
                    high == v >> 32u64,
            ;
        }
        (high as usize) % modulus
    }
}

/// A measured set drawn at random: any set but the reserved stack set.
pub fn random_measured_set(rng: &mut XorShift64) -> (set: usize)
    ensures
        set < SETS,
        set != RESERVED_STACK_SET,
        final(rng).state == xorshift(old(rng).state),
        ({
            let d = ((xorshift(old(rng).state) >> 32u64) as usize) % (SETS - 1) as usize;
            set == if d >= RESERVED_STACK_SET { d + 1 } else { d as int }
        }),
{
    let mut set = rng.next_usize(SETS - 1);
    if set >= RESERVED_STACK_SET {
        set = set + 1;
    }
    set
}

/// The draw of a binary secret bit from a generator in state `state`.
pub open spec fn bit_draw(state: u64) -> u32 {
    (((xorshift(state) >> 32u64) as usize) % 2) as u32
}

/// The draw of a measured set from a generator in state `state`.
pub open spec fn set_draw(state: u64) -> usize {
    let d = ((xorshift(state) >> 32u64) as usize) % (SETS - 1) as usize;
    if d >= RESERVED_STACK_SET { (d + 1) as usize } else { d }
}

/// The secret of a binary trial, as `(secret set, secret bit)`: bit one
/// under forced eviction, else a random bit; the secret set is the target
/// set for bit one and the decoy set for bit zero.
pub fn binary_trial_secret(control: ControlMode, rng: &mut XorShift64, target_set: usize, decoy_set: usize) -> (r: (usize, u32))
    ensures
        control is ForcedEviction ==> r.1 == 1 && final(rng).state == old(rng).state,
        !(control is ForcedEviction) ==> r.1 == bit_draw(old(rng).state) && final(rng).state == xorshift(old(rng).state),
        r.0 == if r.1 == 1 { target_set } else { decoy_set },
{
    let bit: u32 = if control == ControlMode::ForcedEviction {
        1
    } else {
        rng.next_usize(2) as u32
    };
    let set = if bit == 1 {
        target_set
    } else {
        decoy_set
    };
    (set, bit)
}

/// The secret set of a prime-and-probe or evict-time trial: `forced_set`
/// under forced eviction, else a random measured set.
pub fn trial_secret_set(control: ControlMode, rng: &mut XorShift64, forced_set: usize) -> (set: usize)
    ensures
        control is ForcedEviction ==> set == forced_set && final(rng).state == old(rng).state,
        !(control is ForcedEviction) ==> set == set_draw(old(rng).state) && final(rng).state == xorshift(
            old(rng).state,
        ),
{
    if control == ControlMode::ForcedEviction {
        forced_set
    } else {
        random_measured_set(rng)
    }
}

/// The phases a trial runs, in order, each with the program that runs it
/// (0 the attacker, 1 the victim).
pub open spec fn trial_plan(attack: AttackKind, control: ControlMode) -> Seq<(u32, usize)> {
    match attack {
        AttackKind::EvictTime => if control is NoVictim {
            seq![(PHASE_WARM_VICTIM, 1usize), (PHASE_EVICT_TARGET, 0usize)]
        } else {
            seq![(PHASE_WARM_VICTIM, 1usize), (PHASE_EVICT_TARGET, 0usize), (PHASE_VICTIM_ACCESS, 1usize)]
        },
        _ => if control is NoVictim {
            seq![(PHASE_PRIME, 0usize), (PHASE_PROBE, 0usize)]
        } else {
            seq![(PHASE_PRIME, 0usize), (PHASE_VICTIM_ACCESS, 1usize), (PHASE_PROBE, 0usize)]
        },
    }
}

/// The phases a trial of `attack` runs under `control`.
pub fn trial_steps(attack: AttackKind, control: ControlMode) -> (steps: Vec<(u32, usize)>)
    ensures
        steps@ == trial_plan(attack, control),
{
    let mut steps: Vec<(u32, usize)> = Vec::new();
    match attack {
        AttackKind::EvictTime => {
            steps.push((PHASE_WARM_VICTIM, 1));
            steps.push((PHASE_EVICT_TARGET, 0));
        },
        _ => {
            steps.push((PHASE_PRIME, 0));
        },
    }
    if control != ControlMode::NoVictim {
        steps.push((PHASE_VICTIM_ACCESS, 1));
    }
    match attack {
        AttackKind::EvictTime => {},
        _ => {
            steps.push((PHASE_PROBE, 0));
        },
    }
    proof {
        assert(steps@ =~= trial_plan(attack, control));
    }
    steps
}

/// How many trials an evict-time run spends on each set.
pub fn trials_per_set(trials: usize) -> (n: usize)
    ensures
        n == (if trials > SETS { trials } else { SETS }) / SETS,
{
    let m = if trials > SETS { trials } else { SETS };
    m / SETS
}

/// One trial to run: the set it measures, the set the victim touches and,
/// where the attack has one, the secret bit.
#[derive(Clone, Copy, Debug, PartialEq, Eq, Structural)]
pub struct PlannedTrial {
    pub target_set: usize,
    pub secret_set: usize,
    pub secret_bit: Option<u32>,
}

/// The trial that comes after `done` trials, with the generator in state
/// `rng`, and the generator's state after it: the binary attack draws a bit
/// that picks the target or the decoy set, prime+probe draws the victim's
/// set, and evict+time measures each set in turn, `per_set` trials each,
/// with the bit telling whether the victim touched the measured set; under
/// forced eviction nothing is drawn and the victim touches the target.
pub open spec fn planned_trial(
    attack: AttackKind,
    control: ControlMode,
    target_set: usize,
    decoy_set: usize,
    per_set: int,
    done: int,
    rng: u64,
) -> (PlannedTrial, u64) {
    let forced = control is ForcedEviction;
    let next = if forced { rng } else { xorshift(rng) };
    match attack {
        AttackKind::BinaryPrimeProbe => {
            let bit: u32 = if forced { 1 } else { bit_draw(rng) };
            (PlannedTrial {
                target_set,
                secret_set: if bit == 1 { target_set } else { decoy_set },
                secret_bit: Some(bit),
            }, next)
        },
        AttackKind::PrimeProbe => {
            let set = if forced { target_set } else { set_draw(rng) };
            (PlannedTrial { target_set, secret_set: set, secret_bit: None }, next)
        },
        AttackKind::EvictTime => {
            let measured = if per_set == 0 { 0usize } else { (done / per_set) as usize };
            let set = if forced { measured } else { set_draw(rng) };
            (PlannedTrial {
                target_set: measured,
                secret_set: set,
                secret_bit: Some(if set == measured { 1u32 } else { 0u32 }),
            }, next)
        },
    }
}

/// Under forced eviction no secret is drawn and the victim touches the set
/// that the trial measures: prime+probe and the binary attack touch the
/// configured target set (the binary attack with bit 1), evict+time the set
/// it measures (so its bit is 1).
pub proof fn lemma_forced_eviction_touches_target(
    attack: AttackKind,
    target_set: usize,
    decoy_set: usize,
    per_set: int,
    done: int,
    rng: u64,
)
    ensures
        ({
            let (p, next) = planned_trial(attack, ControlMode::ForcedEviction, target_set, decoy_set, per_set, done, rng);
            &&& next == rng
            &&& p.secret_set == p.target_set
            &&& !(attack is EvictTime) ==> p.target_set == target_set
            &&& attack is PrimeProbe ==> p.secret_bit is None
            &&& !(attack is PrimeProbe) ==> p.secret_bit == Some(1u32)
        }),
{
}

/// Without forced eviction a binary trial's victim touches the target set
/// when its bit is 1 and the decoy set when it is 0, and a prime+probe
/// trial always measures the configured target set.
pub proof fn lemma_drawn_trial_sets(
    attack: AttackKind,
    control: ControlMode,
    target_set: usize,
    decoy_set: usize,
    per_set: int,
    done: int,
    rng: u64,
)
    ensures
        ({
            let (p, next) = planned_trial(attack, control, target_set, decoy_set, per_set, done, rng);
            &&& !(control is ForcedEviction) ==> next == xorshift(rng)
            &&& attack is BinaryPrimeProbe ==> p.target_set == target_set && (p.secret_bit == Some(1u32)
                ==> p.secret_set == target_set) && (p.secret_bit == Some(0u32) ==> p.secret_set == decoy_set)
            &&& attack is PrimeProbe ==> p.target_set == target_set
        }),
{
}

/// The trials of an experiment, handed out one at a time in the order they
/// run.
pub struct TrialSchedule {
    attack: AttackKind,
    control: ControlMode,
    target_set: usize,
    decoy_set: usize,
    per_set: usize,
    total: usize,
    done: usize,
}

impl TrialSchedule {
    /// How many trials the experiment runs.
    pub closed spec fn total_trials(&self) -> int {
        self.total as int
    }

    /// How many trials have been handed out.
    pub closed spec fn trials_done(&self) -> int {
        self.done as int
    }

    /// The attack, the control, the target and decoy sets, and the trials
    /// per set of evict+time.
    pub closed spec fn settings(&self) -> (AttackKind, ControlMode, usize, usize, int) {
        (self.attack, self.control, self.target_set, self.decoy_set, self.per_set as int)
    }

    /// The trials of `config`: `config.trials` of them, or for evict+time as
    /// many per set as [`trials_per_set`] gives, for every set.
    pub fn new(config: &ExperimentConfig) -> (t: Self)
        ensures
            t.trials_done() == 0,
            t.settings() == (
                config.attack,
                config.control,
                config.target_set,
                config.decoy_set,
                ((if config.trials > SETS { config.trials } else { SETS }) / SETS) as int,
            ),
            t.total_trials() == if config.attack is EvictTime {
                ((if config.trials > SETS { config.trials } else { SETS }) / SETS) * SETS
            } else {
                config.trials as int
            },
    {
        let per_set = trials_per_set(config.trials);
        let total = if config.attack == AttackKind::EvictTime {
            proof {
                let m: int = if config.trials > SETS { config.trials as int } else { SETS as int };
                lemma_fundamental_div_mod(m, SETS as int);
                assert(per_set * SETS <= m) by (nonlinear_arith)
                    requires
                        m == SETS * (m / SETS as int) + m % (SETS as int),
                        0 <= m % (SETS as int),
                        per_set == m / SETS as int,
                ;
            }
            per_set * SETS
        } else {
            config.trials
        };
        TrialSchedule {
            attack: config.attack,
            control: config.control,
            target_set: config.target_set,
            decoy_set: config.decoy_set,
            per_set,
            total,
            done: 0,
        }
    }

    /// The next trial, drawing its secret from `rng`; `None`, changing
    /// nothing, once every trial has been handed out.
    pub fn next_trial(&mut self, rng: &mut XorShift64) -> (t: Option<PlannedTrial>)
        ensures
            final(self).total_trials() == old(self).total_trials(),
            final(self).settings() == old(self).settings(),
            old(self).trials_done() >= old(self).total_trials() ==> t is None && final(self).trials_done()
                == old(self).trials_done() && final(rng).state == old(rng).state,
            old(self).trials_done() < old(self).total_trials() ==> {
                let (attack, control, target_set, decoy_set, per_set) = old(self).settings();
                let (p, next) = planned_trial(
                    attack,
                    control,
                    target_set,
                    decoy_set,
                    per_set,
                    old(self).trials_done(),
                    old(rng).state,
                );
                &&& t == Some(p)
                &&& final(rng).state == next
                &&& final(self).trials_done() == old(self).trials_done() + 1
            },
    {
        if self.done >= self.total {
            return None;
        }
        let p = match self.attack {
            AttackKind::BinaryPrimeProbe => {
                let (secret_set, bit) = binary_trial_secret(self.control, rng, self.target_set, self.decoy_set);
                PlannedTrial { target_set: self.target_set, secret_set, secret_bit: Some(bit) }
            },
            AttackKind::PrimeProbe => {
                let secret_set = trial_secret_set(self.control, rng, self.target_set);
                PlannedTrial { target_set: self.target_set, secret_set, secret_bit: None }
            },
            AttackKind::EvictTime => {
                let measured = if self.per_set == 0 { 0 } else { self.done / self.per_set };
                let secret_set = trial_secret_set(self.control, rng, measured);
                let bit: u32 = if secret_set == measured { 1 } else { 0 };
                PlannedTrial { target_set: measured, secret_set, secret_bit: Some(bit) }
            },
        };
        self.done = self.done + 1;
        Some(p)
    }
}

/// What the experiment builtins read and record for the programs.
pub struct ExperimentBuiltinState {
    pub phase: u32,
    pub secret_set: u32,
    pub secret_bit: u32,
    pub target_set: u32,
    pub done: bool,
    pub submitted: Vec<u64>,
}

impl ExperimentBuiltinState {
    pub fn new() -> (s: Self)
        ensures
            s.phase == 0,
            s.secret_set == 0,
            s.secret_bit == 0,
            s.target_set == 0,
            !s.done,
            s.submitted@ == Seq::<u64>::empty(),
    {
        ExperimentBuiltinState { phase: 0, secret_set: 0, secret_bit: 0, target_set: 0, done: false, submitted: Vec::new() }
    }

    /// Starts a phase: sets what the programs will read and clears the
    /// done flag, and the submissions when `clear_submission` holds.
    pub fn begin_phase(&mut self, phase: u32, secret_set: usize, secret_bit: u32, target_set: usize, clear_submission: bool)
        ensures
            final(self).phase == phase,
            final(self).secret_set == secret_set as u32,
            final(self).secret_bit == secret_bit,
            final(self).target_set == target_set as u32,
            !final(self).done,
            final(self).submitted@ == if clear_submission { Seq::<u64>::empty() } else { old(self).submitted@ },
    {
        self.phase = phase;
        self.secret_set = #[verifier::truncate] (secret_set as u32);
        self.secret_bit = secret_bit;
        self.target_set = #[verifier::truncate] (target_set as u32);
        self.done = false;
        if clear_submission {
            self.submitted.clear();
        }
    }
}

/// `s` with `value` at `idx`, padded with zeros up to it.
pub open spec fn submit_at(s: Seq<u64>, idx: int, value: u64) -> Seq<u64> {
    if idx < s.len() {
        s.update(idx, value)
    } else {
        (s + Seq::new((idx + 1 - s.len()) as nat, |i: int| 0u64)).update(idx, value)
    }
}

/// The 64-bit value whose halves are `lo` and `hi`.
pub open spec fn join_words(lo: u32, hi: u32) -> u64 {
    (lo as u64) | ((hi as u64) << 32u64)
}

/// Registers the experiment builtins, to be performed by the host.
pub fn register_experiment_builtins(machine: &mut RiscV32IntegerMachine)
    ensures
        final(machine).builtin_map() == old(machine).builtin_map().insert(BUILTIN_EXP_GET_PHASE, Builtin::Host).insert(
            BUILTIN_EXP_GET_SECRET_SET,
            Builtin::Host,
        ).insert(BUILTIN_EXP_GET_SECRET_BIT, Builtin::Host).insert(BUILTIN_EXP_GET_TARGET_SET, Builtin::Host).insert(
            BUILTIN_EXP_SUBMIT_SCALAR,
            Builtin::Host,
        ).insert(BUILTIN_EXP_SUBMIT_VECTOR, Builtin::Host).insert(BUILTIN_EXP_DONE, Builtin::Host),
        final(machine).same_except_builtins(old(machine)),
{
    machine.register_builtin(BUILTIN_EXP_GET_PHASE, Builtin::Host);
    machine.register_builtin(BUILTIN_EXP_GET_SECRET_SET, Builtin::Host);
    machine.register_builtin(BUILTIN_EXP_GET_SECRET_BIT, Builtin::Host);
    machine.register_builtin(BUILTIN_EXP_GET_TARGET_SET, Builtin::Host);
    machine.register_builtin(BUILTIN_EXP_SUBMIT_SCALAR, Builtin::Host);
    machine.register_builtin(BUILTIN_EXP_SUBMIT_VECTOR, Builtin::Host);
    machine.register_builtin(BUILTIN_EXP_DONE, Builtin::Host);
}

/// Whether `number` is one of the experiment builtins.
pub open spec fn is_experiment_builtin(number: u32) -> bool {
    BUILTIN_EXP_GET_PHASE <= number <= BUILTIN_EXP_DONE
}

/// Address of a vector word: `ptr + 8 * k`, wrapping around 32 bits.
pub open spec fn vector_addr(ptr: u32, k: int) -> int {
    (ptr as int + 8 * k) % 0x1_0000_0000
}

/// Whether both halves of vector word `k` lie in memory.
pub open spec fn vector_fits(ptr: u32, k: int) -> bool {
    vector_addr(ptr, k) + 7 < MEMORY_SIZE
}

/// Vector word `k` as memory `mem` holds it.
pub open spec fn vector_word(mem: Seq<u8>, ptr: u32, k: int) -> u64 {
    join_words(
        le_u32(mem, vector_addr(ptr, k)) as u32,
        le_u32(mem, vector_addr(ptr, k) + 4) as u32,
    )
}

/// A 64-bit value handed over in two registers or words is the low word
/// plus 2^32 times the high word.
pub proof fn lemma_join_words_value(lo: u32, hi: u32)
    ensures
        join_words(lo, hi) as int == lo + 0x1_0000_0000 * hi,
{
    assert((lo as u64) | ((hi as u64) << 32u64) == (lo as u64) + (hi as u64) * 0x1_0000_0000) by (bit_vector);
}

/// Little-endian value of the eight bytes of `s` at `a`.
pub open spec fn le_u64_at(s: Seq<u8>, a: int) -> int {
    s[a] + 0x100 * s[a + 1] + 0x1_0000 * s[a + 2] + 0x100_0000 * s[a + 3] + 0x1_0000_0000 * s[a + 4]
        + 0x100_0000_0000 * s[a + 5] + 0x1_0000_0000_0000 * s[a + 6] + 0x100_0000_0000_0000 * s[a + 7]
}

/// Each submitted vector element is the little-endian 64-bit word of the
/// eight bytes at `ptr + 8k`: the word at `ptr + 8k` is its low half and
/// the word at `ptr + 8k + 4` its high half.
pub proof fn lemma_vector_word_little_endian(mem: Seq<u8>, ptr: u32, k: int)
    ensures
        vector_word(mem, ptr, k) as int == le_u64_at(mem, vector_addr(ptr, k)),
{
    let a = vector_addr(ptr, k);
    let lo = le_u32(mem, a) as u32;
    let hi = le_u32(mem, a + 4) as u32;
    assert(0 <= le_u32(mem, a) < 0x1_0000_0000);
    assert(0 <= le_u32(mem, a + 4) < 0x1_0000_0000);
    assert(lo == le_u32(mem, a));
    assert(hi == le_u32(mem, a + 4));
    assert((lo as u64) | ((hi as u64) << 32u64) == (lo as u64) + (hi as u64) * 0x1_0000_0000) by (bit_vector);
}

impl ExperimentBuiltinState {
    /// Reads the submitted vector: `len` 64-bit words from `ptr` on,
    /// stopping at the first word that would run past the end of memory.
    fn read_vector(machine: &mut RiscV32IntegerMachine, ptr: u32, len: u32) -> (values: Vec<u64>)
        requires
            old(machine).wf(),
        ensures
            final(machine).wf(),
            final(machine).regs() == old(machine).regs(),
            final(machine).same_periphery(old(machine)),
            final(machine).ticks() >= old(machine).ticks(),
            values@.len() <= len,
            forall|k: int| 0 <= k < values@.len() ==> vector_fits(ptr, k),
            values@.len() < len ==> !vector_fits(ptr, values@.len() as int),
            old(machine).consistent() ==> {
                &&& final(machine).consistent()
                &&& final(machine).mem() == old(machine).mem()
                &&& forall|k: int| 0 <= k < values@.len() ==> #[trigger] values@[k] == vector_word(old(machine).mem(), ptr, k)
            },
    {
        let mut values: Vec<u64> = Vec::new();
        let mut idx: u32 = 0;
        proof {
            RiscV32IntegerMachine::lemma_periphery_refl(machine);
        }
        while idx < len
            invariant
                machine.wf(),
                machine.regs() == old(machine).regs(),
                machine.same_periphery(old(machine)),
                machine.ticks() >= old(machine).ticks(),
                idx <= len,
                values@.len() == idx,
                forall|k: int| 0 <= k < values@.len() ==> vector_fits(ptr, k),
                old(machine).consistent() ==> {
                    &&& machine.consistent()
                    &&& machine.mem() == old(machine).mem()
                    &&& forall|k: int| 0 <= k < values@.len() ==> #[trigger] values@[k] == vector_word(old(machine).mem(), ptr, k)
                },
            decreases len - idx,
        {
            let addr = ptr.wrapping_add(idx.wrapping_mul(8));
            proof {
                assert(idx.wrapping_mul(8) == (8 * idx) % 0x1_0000_0000) by (bit_vector);
                assert(ptr.wrapping_add(idx.wrapping_mul(8)) == (ptr as int + 8 * idx) % 0x1_0000_0000) by (bit_vector);
            }
            if addr > 0xffff_fff8u32 {
                return values;
            }
            let lo = machine.load_u32(addr);
            let hi = machine.load_u32(addr + 4);
            let v = (lo as u64) | ((hi as u64) << 32u64);
            values.push(v);
            idx = idx + 1;
        }
        values
    }

    /// Performs experiment builtin `number` for the program on `machine`;
    /// returns false, changing nothing, for any other number.
    pub fn service(&mut self, machine: &mut RiscV32IntegerMachine, number: u32) -> (handled: bool)
        requires
            old(machine).wf(),
        ensures
            handled == is_experiment_builtin(number),
            final(machine).wf(),
            final(machine).same_periphery(old(machine)),
            final(machine).regs().pc == old(machine).regs().pc,
            final(machine).ticks() >= old(machine).ticks(),
            old(machine).consistent() ==> final(machine).consistent() && final(machine).mem() == old(machine).mem(),
            !handled ==> *final(machine) == *old(machine) && *final(self) == *old(self),
            number == BUILTIN_EXP_GET_PHASE ==> final(machine).regs().file() == write_reg(old(machine).regs().file(), 10, old(self).phase),
            number == BUILTIN_EXP_GET_SECRET_SET ==> final(machine).regs().file() == write_reg(old(machine).regs().file(), 10, old(self).secret_set),
            number == BUILTIN_EXP_GET_SECRET_BIT ==> final(machine).regs().file() == write_reg(old(machine).regs().file(), 10, old(self).secret_bit),
            number == BUILTIN_EXP_GET_TARGET_SET ==> final(machine).regs().file() == write_reg(old(machine).regs().file(), 10, old(self).target_set),
            number == BUILTIN_EXP_SUBMIT_SCALAR ==> {
                let f = old(machine).regs().file();
                &&& final(self).submitted@ == submit_at(old(self).submitted@, f[10] as int, join_words(f[11], f[12]))
                &&& final(machine).regs() == old(machine).regs()
            },
            number == BUILTIN_EXP_SUBMIT_VECTOR ==> {
                let f = old(machine).regs().file();
                &&& final(self).submitted@.len() <= f[11]
                &&& forall|k: int| 0 <= k < final(self).submitted@.len() ==> vector_fits(f[10], k)
                &&& final(self).submitted@.len() < f[11] ==> !vector_fits(f[10], final(self).submitted@.len() as int)
                &&& old(machine).consistent() ==> forall|k: int| 0 <= k < final(self).submitted@.len() ==> #[trigger] final(self).submitted@[k] == vector_word(old(machine).mem(), f[10], k)
                &&& final(machine).regs() == old(machine).regs()
            },
            number == BUILTIN_EXP_DONE ==> final(self).done && final(machine).regs() == old(machine).regs(),
            number != BUILTIN_EXP_DONE ==> final(self).done == old(self).done,
            final(self).phase == old(self).phase,
            final(self).secret_set == old(self).secret_set,
            final(self).secret_bit == old(self).secret_bit,
            final(self).target_set == old(self).target_set,
            !(number == BUILTIN_EXP_SUBMIT_SCALAR || number == BUILTIN_EXP_SUBMIT_VECTOR) ==> final(self).submitted@ == old(self).submitted@,
    {
        proof {
            RiscV32IntegerMachine::lemma_periphery_refl(machine);
        }
        if number == BUILTIN_EXP_GET_PHASE {
            machine.set_x(10, self.phase);
        } else if number == BUILTIN_EXP_GET_SECRET_SET {
            machine.set_x(10, self.secret_set);
        } else if number == BUILTIN_EXP_GET_SECRET_BIT {
            machine.set_x(10, self.secret_bit);
        } else if number == BUILTIN_EXP_GET_TARGET_SET {
            machine.set_x(10, self.target_set);
        } else if number == BUILTIN_EXP_SUBMIT_SCALAR {
            let idx = machine.x(10) as usize;
            let lo = machine.x(11);
            let hi = machine.x(12);
            let value = (lo as u64) | ((hi as u64) << 32u64);
            let ghost s0 = self.submitted@;
            if self.submitted.len() <= idx {
                while self.submitted.len() <= idx
                    invariant
                        self.phase == old(self).phase,
                        self.secret_set == old(self).secret_set,
                        self.secret_bit == old(self).secret_bit,
                        self.target_set == old(self).target_set,
                        self.done == old(self).done,
                        s0.len() <= idx,
                        s0.len() <= self.submitted@.len() <= idx + 1,
                        forall|k: int| 0 <= k < s0.len() ==> self.submitted@[k] == s0[k],
                        forall|k: int| s0.len() <= k < self.submitted@.len() ==> self.submitted@[k] == 0u64,
                    decreases idx + 1 - self.submitted@.len(),
                {
                    self.submitted.push(0);
                }
                proof {
                    assert(self.submitted@ =~= s0 + Seq::new((idx + 1 - s0.len()) as nat, |i: int| 0u64));
                }
            }
            self.submitted.set(idx, value);
        } else if number == BUILTIN_EXP_SUBMIT_VECTOR {
            let ptr = machine.x(10);
            let len = machine.x(11);
            let values = Self::read_vector(machine, ptr, len);
            self.submitted = values;
        } else if number == BUILTIN_EXP_DONE {
            self.done = true;
        } else {
            return false;
        }
        true
    }
}

/// Identity of a simulated process.
#[derive(Clone, Copy, Debug)]
pub struct ProcessMetadata {
    pub pid: u32,
    pub asid: u32,
    pub security_domain_id: u32,
    pub current_core: u32,
    pub current_hardware_thread: u32,
}

/// A program of an experiment: its saved registers, its segment, its
/// identity and whether it has exited.
#[derive(Clone, Copy, Debug)]
pub struct ExperimentContext {
    pub registers: Registers,
    pub memory_segment: MemorySegment,
    pub security_class: SecurityClass,
    pub metadata: ProcessMetadata,
    pub exited: bool,
    pub exit_code: i32,
}

impl ExperimentContext {
    pub fn new(entry_pc: u32, memory_segment: MemorySegment, security_class: SecurityClass, metadata: ProcessMetadata) -> (c: Self)
        ensures
            c.registers.pc == entry_pc,
            forall|i: int| 0 <= i < 32 ==> #[trigger] c.registers.reg(i) == 0,
            c.memory_segment == memory_segment,
            c.security_class == security_class,
            c.metadata == metadata,
            !c.exited,
            c.exit_code == 0,
    {
        let registers = Registers { pc: entry_pc, x: [0u32; 32] };
        proof {
            assert forall|i: int| 0 <= i < 32 implies #[trigger] registers.reg(i) == 0 by {
                if i != 0 {
                    assert(registers.x@[i] == 0);
                }
            }
        }
        ExperimentContext { registers, memory_segment, security_class, metadata, exited: false, exit_code: 0 }
    }
}

/// Where the victim program is loaded and starts.
pub const VICTIM_BASE: u32 = 0x8001_0000;

/// The two programs of an experiment as [`experiment_contexts`] sets them up.
pub open spec fn is_experiment_setup(c: Seq<ExperimentContext>, domain_mode: DomainMode, schedule_mode: ScheduleMode) -> bool {
    &&& c.len() == 2
    &&& c[0].registers.pc == 0
    &&& c[0].memory_segment == (MemorySegment { start: 0, end_exclusive: MEMORY_SIZE / 2 })
    &&& c[0].security_class == SecurityClass::Low
    &&& c[0].metadata == (ProcessMetadata { pid: 1, asid: 1, security_domain_id: 1, current_core: 0, current_hardware_thread: 0 })
    &&& c[1].registers.pc == VICTIM_BASE
    &&& c[1].memory_segment == (MemorySegment { start: (MEMORY_SIZE / 2) as u32, end_exclusive: MEMORY_SIZE })
    &&& c[1].security_class == if domain_mode == DomainMode::Same { SecurityClass::Low } else { SecurityClass::High }
    &&& c[1].metadata == (ProcessMetadata {
            pid: 2,
            asid: if domain_mode == DomainMode::Same { 1 } else { 2 },
            security_domain_id: if domain_mode == DomainMode::Same { 1 } else { 2 },
            current_core: 0,
            current_hardware_thread: if schedule_mode == ScheduleMode::Smt { 1 } else { 0 },
        })
    &&& forall|i: int| 0 <= i < 2 ==> !(#[trigger] c[i]).exited && c[i].exit_code == 0
    &&& forall|i: int, j: int| 0 <= i < 2 && 0 <= j < 32 ==> #[trigger] c[i].registers.reg(j) == 0
}

/// The attacker (process 1, low class, lower half of memory, loaded at 0)
/// and the victim (process 2, upper half, loaded at [`VICTIM_BASE`]),
/// which shares the attacker's class, address space and domain when the
/// domains are the same, and runs on the second hardware thread under SMT.
pub fn experiment_contexts(domain_mode: DomainMode, schedule_mode: ScheduleMode) -> (c: Vec<ExperimentContext>)
    ensures
        is_experiment_setup(c@, domain_mode, schedule_mode),

{
    let midpoint: u64 = MEMORY_SIZE / 2;
    let segment_a = MemorySegment { start: 0, end_exclusive: midpoint };
    let segment_v = MemorySegment { start: 0x8000_0000u32, end_exclusive: MEMORY_SIZE };
    let same = domain_mode == DomainMode::Same;
    let attacker = ExperimentContext::new(
        0,
        segment_a,
        SecurityClass::Low,
        ProcessMetadata { pid: 1, asid: 1, security_domain_id: 1, current_core: 0, current_hardware_thread: 0 },
    );
    let victim = ExperimentContext::new(
        VICTIM_BASE,
        segment_v,
        if same { SecurityClass::Low } else { SecurityClass::High },
        ProcessMetadata {
            pid: 2,
            asid: if same { 1 } else { 2 },
            security_domain_id: if same { 1 } else { 2 },
            current_core: 0,
            current_hardware_thread: if schedule_mode == ScheduleMode::Smt { 1 } else { 0 },
        },
    );
    let mut c: Vec<ExperimentContext> = Vec::new();
    c.push(attacker);
    c.push(victim);
    c
}

/// Loads the attacker at 0 and the victim at [`VICTIM_BASE`], past the
/// caches, and hands back the two programs' contexts.
pub fn load_experiment_programs(
    machine: &mut RiscV32IntegerMachine,
    attacker: &[u8],
    victim: &[u8],
    domain_mode: DomainMode,
    schedule_mode: ScheduleMode,
) -> (c: Vec<ExperimentContext>)
    requires
        old(machine).wf(),
        attacker@.len() <= MEMORY_SIZE,
        VICTIM_BASE + victim@.len() <= MEMORY_SIZE,
    ensures
        final(machine).wf(),
        final(machine).same_periphery(old(machine)),
        is_experiment_setup(c@, domain_mode, schedule_mode),
        old(machine).consistent() && uncached(*old(machine), 0, attacker@.len() as int) && uncached(
            *old(machine),
            VICTIM_BASE as int,
            victim@.len() as int,
        ) ==> {
            &&& final(machine).consistent()
            &&& final(machine).mem() == loaded(
                loaded(old(machine).mem(), 0, attacker@),
                VICTIM_BASE as int,
                victim@,
            )
        },
{
    let ghost start = *machine;
    machine.load_binary_at(attacker, 0);
    let ghost mid_state = *machine;
    machine.load_binary_at(victim, VICTIM_BASE);
    proof {
        if start.consistent() && uncached(start, 0, attacker@.len() as int) && uncached(
            start,
            VICTIM_BASE as int,
            victim@.len() as int,
        ) {
            assert(uncached(mid_state, VICTIM_BASE as int, victim@.len() as int));
        }
    }
    experiment_contexts(domain_mode, schedule_mode)
}

/// Points the machine at a program: its segment, its identity and its
/// registers; a time-sliced schedule also tells the caches of the switch.
pub fn enter_experiment_context(machine: &mut RiscV32IntegerMachine, context: &ExperimentContext, schedule_mode: ScheduleMode)
    requires
        old(machine).wf(),
    ensures
        final(machine).wf(),
        final(machine).regs() == context.registers,
        final(machine).segment_spec() == context.memory_segment,
        final(machine).builtin_map() == old(machine).builtin_map(),
        final(machine).model_spec() == old(machine).model_spec(),
        final(machine).ticks() == old(machine).ticks(),
{
    machine.set_memory_segment(context.memory_segment);
    machine.set_requester_identity(context.security_class, context.metadata.pid, context.metadata.security_domain_id);
    if schedule_mode == ScheduleMode::TimeSliced {
        machine.notify_context_switch();
    }
    machine.restore_registers(&context.registers);
}

/// Why a program stopped running.
#[derive(Clone, Copy, Debug, PartialEq, Eq)]
pub enum ContextEvent {
    /// The program called the done builtin.
    Done,
    /// The program halted with this exit code.
    Halted(i32),
    /// The program called a builtin that the host has to perform.
    HostRequest(u32),
    /// The program reached an instruction the machine does not execute.
    Unimplemented(&'static str),
    /// The cycle counter reached its largest value.
    CycleLimit,
}

/// Runs the current program, performing the experiment builtins, until it
/// is done, halts, needs the host, or cannot go on.
pub fn run_until_event(machine: &mut RiscV32IntegerMachine, state: &mut ExperimentBuiltinState) -> (e: ContextEvent)
    requires
        old(machine).wf(),
    ensures
        final(machine).wf(),
        final(machine).model_spec() == old(machine).model_spec(),
        final(machine).builtin_map() == old(machine).builtin_map(),
        final(machine).segment_spec() == old(machine).segment_spec(),
        final(machine).ticks() >= old(machine).ticks(),
        e is Done ==> final(state).done,
        (e is Done) == final(state).done,
        old(state).done ==> e is Done && *final(machine) == *old(machine) && *final(state) == *old(state),
        e is HostRequest ==> !is_experiment_builtin(e->HostRequest_0),
        e is CycleLimit ==> final(machine).ticks() == u64::MAX,
        !(e is Done) && !(e is CycleLimit) ==> final(machine).ticks() > old(machine).ticks(),
        old(machine).consistent() ==> final(machine).consistent(),
        old(machine).consistent() ==> match e {
            ContextEvent::Halted(code) => halted_at(*final(machine), code),
            ContextEvent::Unimplemented(op) => step_effect(
                *final(machine),
                *final(machine),
                StepResult::Unimplemented(op),
            ),
            _ => true,
        },
{
    loop
        invariant
            old(state).done ==> *state == *old(state) && *machine == *old(machine),
            machine.wf(),
            machine.model_spec() == old(machine).model_spec(),
            machine.builtin_map() == old(machine).builtin_map(),
            machine.segment_spec() == old(machine).segment_spec(),
            machine.ticks() >= old(machine).ticks(),
            old(machine).consistent() ==> machine.consistent(),
        decreases u64::MAX - machine.ticks(),
    {
        if state.done {
            return ContextEvent::Done;
        }
        if machine.cycle_count() == u64::MAX {
            return ContextEvent::CycleLimit;
        }
        let ghost prior = *machine;
        let r = machine.step();
        match r {
            StepResult::Halt(code) => {
                proof {
                    if old(machine).consistent() {
                        lemma_halt_point(prior, *machine, code);
                    }
                }
                return ContextEvent::Halted(code);
            },
            StepResult::Unimplemented(op) => {
                proof {
                    if old(machine).consistent() {
                        lemma_reject_point(prior, *machine, op);
                    }
                }
                return ContextEvent::Unimplemented(op);
            },
            _ => {},
        }
        let ghost after_step = machine.ticks();
        match machine.take_host_request() {
            Some(n) => {
                if !state.service(machine, n) {
                    return ContextEvent::HostRequest(n);
                }
            },
            None => {},
        }
    }
}

/// Whether `e` is the victim (process 2) evicting a line of the attacker
/// (process 1) from the first level.
pub open spec fn victim_evicts_attacker(e: CacheAccessEvent) -> bool {
    &&& e.requester_pid == 2
    &&& e.evicted_pid == Some(1u32)
    &&& e.source == CacheAccessSource::Lower
}

/// How many of `events` are the victim evicting the attacker's lines.
pub open spec fn victim_evictions(events: Seq<CacheAccessEvent>) -> nat
    decreases events.len(),
{
    if events.len() == 0 {
        0
    } else {
        victim_evictions(events.drop_last()) + if victim_evicts_attacker(events.last()) { 1nat } else { 0nat }
    }
}

/// What one trial measured.
#[derive(Clone, Debug)]
pub struct TrialRecord {
    pub target_set: Option<usize>,
    pub secret_set: usize,
    pub secret_bit: Option<u32>,
    pub probe_time: Vec<u64>,
    pub victim_elapsed_cycles: Option<u64>,
    pub total_trial_cycles: u64,
    pub attacker_l1d_evictions_by_victim: u64,
}

/// The record of a trial whose first level traced `events`.
pub fn record_from_events(
    target_set: Option<usize>,
    secret_set: usize,
    secret_bit: Option<u32>,
    probe_time: Vec<u64>,
    victim_elapsed_cycles: Option<u64>,
    total_trial_cycles: u64,
    events: &[CacheAccessEvent],
) -> (r: TrialRecord)
    ensures
        r.target_set == target_set,
        r.secret_set == secret_set,
        r.secret_bit == secret_bit,
        r.probe_time@ == probe_time@,
        r.victim_elapsed_cycles == victim_elapsed_cycles,
        r.total_trial_cycles == total_trial_cycles,
        r.attacker_l1d_evictions_by_victim == victim_evictions(events@),
{
    let mut count: u64 = 0;
    let mut i: usize = 0;
    while i < events.len()
        invariant
            i <= events@.len(),
            count == victim_evictions(events@.subrange(0, i as int)),
            count <= i,
        decreases events@.len() - i,
    {
        let e = events[i];
        let hit = e.requester_pid == 2 && match (e.evicted_pid, e.source) {
            (Some(1u32), CacheAccessSource::Lower) => true,
            _ => false,
        };
        proof {
            assert(events@.subrange(0, i + 1).drop_last() =~= events@.subrange(0, i as int));
            assert(hit == victim_evicts_attacker(events@[i as int]));
        }
        if hit {
            count = count + 1;
        }
        i = i + 1;
    }
    proof {
        assert(events@.subrange(0, events@.len() as int) =~= events@);
    }
    TrialRecord {
        target_set,
        secret_set,
        secret_bit,
        probe_time,
        victim_elapsed_cycles,
        total_trial_cycles,
        attacker_l1d_evictions_by_victim: count,
    }
}

/// The measured set among the first `n` with the longest probe time, the
/// last of them on a tie.
pub open spec fn probe_argmax(s: Seq<u64>, n: int) -> Option<int>
    decreases n,
{
    if n <= 0 {
        None
    } else {
        let prev = probe_argmax(s, n - 1);
        if n - 1 == RESERVED_STACK_SET {
            prev
        } else {
            match prev {
                Some(k) => if s[n - 1] >= s[k] { Some(n - 1) } else { Some(k) },
                None => Some(n - 1),
            }
        }
    }
}

/// The set a prime-and-probe trial guesses: the measured set with the
/// longest probe time, the last of them on a tie; none when no time was
/// submitted.
pub fn prime_probe_prediction(probe_time: &Vec<u64>) -> (p: Option<usize>)
    ensures
        match probe_argmax(probe_time@, probe_time@.len() as int) {
            Some(k) => p == Some(k as usize),
            None => p is None,
        },
{
    let mut best: Option<usize> = None;
    let mut i: usize = 0;
    while i < probe_time.len()
        invariant
            i <= probe_time@.len(),
            match probe_argmax(probe_time@, i as int) {
                Some(k) => best == Some(k as usize) && 0 <= k < i,
                None => best is None,
            },
        decreases probe_time@.len() - i,
    {
        if i != RESERVED_STACK_SET {
            match best {
                Some(k) => {
                    if probe_time[i] >= probe_time[k] {
                        best = Some(i);
                    }
                },
                None => {
                    best = Some(i);
                },
            }
        }
        i = i + 1;
    }
    best
}

/// The guess of a prime-and-probe trial is a measured set whose probe
/// time no other measured set exceeds, and no later measured set matches;
/// there is none only when no time was submitted.
pub proof fn lemma_probe_argmax_is_last_maximum(s: Seq<u64>, n: int)
    requires
        0 <= n <= s.len(),
    ensures
        match probe_argmax(s, n) {
            Some(k) => {
                &&& 0 <= k < n
                &&& k != RESERVED_STACK_SET
                &&& forall|i: int| 0 <= i < n && i != RESERVED_STACK_SET ==> s[i] <= s[k]
                &&& forall|i: int| k < i < n && i != RESERVED_STACK_SET ==> s[i] < s[k]
            },
            None => n == 0,
        },
    decreases n,
{
    if n > 0 {
        lemma_probe_argmax_is_last_maximum(s, n - 1);
    }
}

/// The probe time a binary trial looks at: that of set `set`, zero when
/// the program submitted none.
pub fn binary_probe_time(probe_time: &Vec<u64>, set: usize) -> (t: u64)
    ensures
        t == if set < probe_time@.len() { probe_time@[set as int] } else { 0 },
{
    if set < probe_time.len() {
        probe_time[set]
    } else {
        0
    }
}

/// The bit a binary trial guesses from probe time `t`.
pub fn binary_prediction(t: u64) -> (bit: u32)
    ensures
        bit == if t >= BINARY_THRESHOLD { 1u32 } else { 0u32 },
{
    if t >= BINARY_THRESHOLD {
        1
    } else {
        0
    }
}

/// The counts that a run of trials adds up, and the binary probe times
/// with their secret bits.
pub struct TrialCounts {
    pub trials: usize,
    pub correct: usize,
    pub binary_tp: usize,
    pub binary_tn: usize,
    pub binary_fp: usize,
    pub binary_fn: usize,
    pub total_trial_cycles: u64,
    pub victim_evicted_attacker_lines: u64,
    pub victim_memory_accesses: u64,
    /// `(probe time, secret bit is one)` of each binary trial.
    pub binary_samples: Vec<(u64, bool)>,
    /// Trials by secret bit and guessed bit, at `bit * 2 + guess`.
    pub binary_joint: Vec<usize>,
    /// Trials by secret set and guessed set, at `secret * SETS + guess`.
    pub multi_joint: Vec<usize>,
}

/// The probe time a binary trial is judged by: that of the trial's target
/// set, or of `target_set` when the trial names none.
pub open spec fn binary_time(r: TrialRecord, target_set: usize) -> u64 {
    let set = match r.target_set {
        Some(t) => t,
        None => target_set,
    };
    if set < r.probe_time@.len() { r.probe_time@[set as int] } else { 0 }
}

/// The bit a binary trial guesses.
pub open spec fn binary_guess(r: TrialRecord, target_set: usize) -> u32 {
    if binary_time(r, target_set) >= BINARY_THRESHOLD { 1 } else { 0 }
}

/// The secret bit of a binary trial, zero when it has none.
pub open spec fn binary_secret(r: TrialRecord) -> u32 {
    match r.secret_bit {
        Some(b) => b,
        None => 0,
    }
}

/// The timing sample a trial adds: whether the secret touched the
/// measured set, and the time measured; none for prime-and-probe.
pub open spec fn timing_sample(attack: AttackKind, r: TrialRecord, target_set: usize) -> Option<(bool, u64)> {
    match attack {
        AttackKind::PrimeProbe => None,
        AttackKind::BinaryPrimeProbe => Some((binary_secret(r) == 1, binary_time(r, target_set))),
        AttackKind::EvictTime => Some((
            r.secret_set == match r.target_set {
                Some(t) => t,
                None => usize::MAX,
            },
            match r.victim_elapsed_cycles {
                Some(c) => c,
                None => 0,
            },
        )),
    }
}

impl TrialCounts {
    /// No trial counted yet.
    pub fn new() -> (c: Self)
        ensures
            c.trials == 0,
            c.correct == 0,
            c.binary_tp == 0,
            c.binary_tn == 0,
            c.binary_fp == 0,
            c.binary_fn == 0,
            c.total_trial_cycles == 0,
            c.victim_evicted_attacker_lines == 0,
            c.victim_memory_accesses == 0,
            c.binary_samples@ == Seq::<(u64, bool)>::empty(),
            c.binary_joint@ == Seq::new(4, |i: int| 0usize),
            c.multi_joint@ == Seq::new((SETS * SETS) as nat, |i: int| 0usize),
    {
        let mut binary_joint: Vec<usize> = Vec::new();
        let mut k: usize = 0;
        while k < 4
            invariant
                k <= 4,
                binary_joint@ == Seq::new(k as nat, |i: int| 0usize),
            decreases 4 - k,
        {
            binary_joint.push(0);
            k = k + 1;
            proof {
                assert(binary_joint@ =~= Seq::new(k as nat, |i: int| 0usize));
            }
        }
        let mut multi_joint: Vec<usize> = Vec::new();
        let mut k: usize = 0;
        while k < SETS * SETS
            invariant
                k <= SETS * SETS,
                multi_joint@ == Seq::new(k as nat, |i: int| 0usize),
            decreases SETS * SETS - k,
        {
            multi_joint.push(0);
            k = k + 1;
            proof {
                assert(multi_joint@ =~= Seq::new(k as nat, |i: int| 0usize));
            }
        }
        TrialCounts {
            trials: 0,
            correct: 0,
            binary_tp: 0,
            binary_tn: 0,
            binary_fp: 0,
            binary_fn: 0,
            total_trial_cycles: 0,
            victim_evicted_attacker_lines: 0,
            victim_memory_accesses: 0,
            binary_samples: Vec::new(),
            binary_joint,
            multi_joint,
        }
    }

    /// Whether the tables have their shapes.
    pub open spec fn wf(&self) -> bool {
        &&& self.binary_joint@.len() == 4
        &&& self.multi_joint@.len() == SETS * SETS
    }

    /// Whether counting the trial `r` of attack `attack` overflows nothing
    /// and indexes nothing past its table.
    pub open spec fn can_count(&self, attack: AttackKind, r: TrialRecord, target_set: usize) -> bool {
        &&& self.trials < usize::MAX
        &&& self.correct < usize::MAX
        &&& self.total_trial_cycles + r.total_trial_cycles <= u64::MAX
        &&& self.victim_evicted_attacker_lines + r.attacker_l1d_evictions_by_victim <= u64::MAX
        &&& self.victim_memory_accesses < u64::MAX
        &&& match attack {
            AttackKind::PrimeProbe => match probe_argmax(r.probe_time@, r.probe_time@.len() as int) {
                Some(k) => {
                    &&& k < SETS
                    &&& r.secret_set < SETS
                    &&& self.multi_joint@[r.secret_set * SETS + k] < usize::MAX
                },
                None => true,
            },
            AttackKind::BinaryPrimeProbe => {
                &&& binary_secret(r) <= 1
                &&& self.binary_joint@[binary_secret(r) * 2 + binary_guess(r, target_set)] < usize::MAX
                &&& self.binary_tp < usize::MAX
                &&& self.binary_tn < usize::MAX
                &&& self.binary_fp < usize::MAX
                &&& self.binary_fn < usize::MAX
            },
            AttackKind::EvictTime => true,
        }
    }

    /// Counts the trial `r` of attack `attack`, where `target_set` is the
    /// configured target set; hands back the timing sample the trial adds.
    pub fn count(&mut self, attack: AttackKind, r: &TrialRecord, target_set: usize) -> (sample: Option<(bool, u64)>)
        requires
            old(self).wf(),
            old(self).can_count(attack, *r, target_set),
        ensures
            final(self).wf(),
            sample == timing_sample(attack, *r, target_set),
            final(self).trials == old(self).trials + 1,
            final(self).total_trial_cycles == old(self).total_trial_cycles + r.total_trial_cycles,
            final(self).victim_evicted_attacker_lines == old(self).victim_evicted_attacker_lines
                + r.attacker_l1d_evictions_by_victim,
            final(self).victim_memory_accesses == old(self).victim_memory_accesses + 1,
            attack is PrimeProbe ==> {
                &&& final(self).binary_tp == old(self).binary_tp
                &&& final(self).binary_tn == old(self).binary_tn
                &&& final(self).binary_fp == old(self).binary_fp
                &&& final(self).binary_fn == old(self).binary_fn
                &&& final(self).binary_samples@ == old(self).binary_samples@
                &&& final(self).binary_joint@ == old(self).binary_joint@
                &&& match probe_argmax(r.probe_time@, r.probe_time@.len() as int) {
                    Some(k) => {
                        &&& final(self).correct == old(self).correct + if k == r.secret_set { 1int } else { 0int }
                        &&& final(self).multi_joint@ == old(self).multi_joint@.update(
                            r.secret_set * SETS + k,
                            (old(self).multi_joint@[r.secret_set * SETS + k] + 1) as usize,
                        )
                    },
                    None => {
                        &&& final(self).correct == old(self).correct
                        &&& final(self).multi_joint@ == old(self).multi_joint@
                    },
                }
            },
            attack is BinaryPrimeProbe ==> {
                let t = binary_time(*r, target_set);
                let guess = binary_guess(*r, target_set);
                let bit = binary_secret(*r);
                &&& final(self).correct == old(self).correct + if guess == bit { 1int } else { 0int }
                &&& final(self).binary_samples@ == old(self).binary_samples@.push((t, bit == 1))
                &&& final(self).binary_joint@ == old(self).binary_joint@.update(
                    bit * 2 + guess,
                    (old(self).binary_joint@[bit * 2 + guess] + 1) as usize,
                )
                &&& final(self).binary_tp == old(self).binary_tp + if bit == 1 && guess == 1 { 1int } else { 0int }
                &&& final(self).binary_tn == old(self).binary_tn + if bit == 0 && guess == 0 { 1int } else { 0int }
                &&& final(self).binary_fp == old(self).binary_fp + if bit == 0 && guess == 1 { 1int } else { 0int }
                &&& final(self).binary_fn == old(self).binary_fn + if bit == 1 && guess == 0 { 1int } else { 0int }
                &&& final(self).multi_joint@ == old(self).multi_joint@
            },
            attack is EvictTime ==> {
                &&& final(self).correct == old(self).correct
                &&& final(self).binary_tp == old(self).binary_tp
                &&& final(self).binary_tn == old(self).binary_tn
                &&& final(self).binary_fp == old(self).binary_fp
                &&& final(self).binary_fn == old(self).binary_fn
                &&& final(self).binary_samples@ == old(self).binary_samples@
                &&& final(self).binary_joint@ == old(self).binary_joint@
                &&& final(self).multi_joint@ == old(self).multi_joint@
            },
    {
        self.trials = self.trials + 1;
        self.total_trial_cycles = self.total_trial_cycles + r.total_trial_cycles;
        self.victim_evicted_attacker_lines = self.victim_evicted_attacker_lines + r.attacker_l1d_evictions_by_victim;
        self.victim_memory_accesses = self.victim_memory_accesses + 1;
        match attack {
            AttackKind::PrimeProbe => {
                proof {
                    lemma_probe_argmax_is_last_maximum(r.probe_time@, r.probe_time@.len() as int);
                }
                match prime_probe_prediction(&r.probe_time) {
                    Some(predicted) => {
                        if predicted == r.secret_set {
                            self.correct = self.correct + 1;
                        }
                        proof {
                            assert(r.secret_set * SETS + predicted < SETS * SETS) by (nonlinear_arith)
                                requires
                                    r.secret_set < SETS,
                                    predicted < SETS,
                            ;
                        }
                        let cell = r.secret_set * SETS + predicted;
                        let v = self.multi_joint[cell];
                        self.multi_joint.set(cell, v + 1);
                    },
                    None => {},
                }
                None
            },
            AttackKind::BinaryPrimeProbe => {
                let set = match r.target_set {
                    Some(t) => t,
                    None => target_set,
                };
                let t = binary_probe_time(&r.probe_time, set);
                let predicted = binary_prediction(t);
                let bit = match r.secret_bit {
                    Some(b) => b,
                    None => 0,
                };
                if predicted == bit {
                    self.correct = self.correct + 1;
                }
                self.binary_samples.push((t, bit == 1));
                let cell = (bit * 2 + predicted) as usize;
                let v = self.binary_joint[cell];
                self.binary_joint.set(cell, v + 1);
                if bit == 1 && predicted == 1 {
                    self.binary_tp = self.binary_tp + 1;
                } else if bit == 0 && predicted == 0 {
                    self.binary_tn = self.binary_tn + 1;
                } else if bit == 0 && predicted == 1 {
                    self.binary_fp = self.binary_fp + 1;
                } else if bit == 1 && predicted == 0 {
                    self.binary_fn = self.binary_fn + 1;
                }
                Some((bit == 1, t))
            },
            AttackKind::EvictTime => {
                let touched = r.secret_set == match r.target_set {
                    Some(t) => t,
                    None => usize::MAX,
                };
                let elapsed = match r.victim_elapsed_cycles {
                    Some(c) => c,
                    None => 0,
                };
                Some((touched, elapsed))
            },
        }
    }
}

/// What a run of trial phases stopped for.
#[derive(Clone, Debug)]
pub enum TrialEvent {
    /// Every phase is done; a trial hands over its record.
    Finished(Option<TrialRecord>),
    /// The running program called a builtin that the host performs; the
    /// run goes on where it stopped once the host has done so.
    HostRequest(u32),
    /// The running program reached an instruction the machine does not
    /// execute.
    Unimplemented(&'static str),
    /// The cycle counter reached its largest value.
    CycleLimit,
}

/// A run of phases, each run by one program until it reports done or
/// halts, between the builtins a host performs for it. A trial's run
/// gathers the trial's record when its last phase is done.
pub struct TrialRun {
    steps: Vec<(u32, usize)>,
    next: usize,
    running: Option<usize>,
    schedule_mode: ScheduleMode,
    secret_set: usize,
    phase_bit: u32,
    target_set: usize,
    secret_bit: Option<u32>,
    evict_time: bool,
    trial: bool,
    trial_start: u64,
    victim_start: Option<u64>,
    /// The traced accesses handed over when the record was gathered.
    handed: Ghost<Seq<CacheAccessEvent>>,
}

impl TrialRun {
    /// The phases still to run, the one running first.
    pub closed spec fn remaining(&self) -> Seq<(u32, usize)> {
        self.steps@.subrange(self.next as int, self.steps@.len() as int)
    }

    /// The accesses the first cache level had traced when the record was
    /// gathered, which it handed over.
    pub closed spec fn handed_events(&self) -> Seq<CacheAccessEvent> {
        self.handed@
    }

    /// The cycle count at which the victim's access phase began, once it
    /// has.
    pub closed spec fn victim_start_spec(&self) -> Option<u64> {
        self.victim_start
    }

    /// Whether the run gathers a trial's record.
    pub closed spec fn is_trial(&self) -> bool {
        self.trial
    }

    /// The secret set, secret bit and target set the record names, whether
    /// the trial times the victim, and the cycle count at its start.
    pub closed spec fn trial_spec(&self) -> (usize, Option<u32>, usize, bool, u64) {
        (self.secret_set, self.secret_bit, self.target_set, self.evict_time, self.trial_start)
    }

    /// Whether the run is in order for contexts `contexts`.
    pub closed spec fn inv(&self, contexts: Seq<ExperimentContext>) -> bool {
        &&& self.next <= self.steps@.len()
        &&& forall|k: int| 0 <= k < self.steps@.len() ==> (#[trigger] self.steps@[k]).1 < contexts.len()
        &&& match self.running {
            Some(idx) => idx < contexts.len() && self.next < self.steps@.len() && idx == self.steps@[self.next as int].1,
            None => true,
        }
    }

    /// The run of one trial of `attack` under `control`: it drains the
    /// trace and notes the cycle count now, runs the phases
    /// [`trial_plan`] lists with the secret set `secret_set`, the secret
    /// bit `secret_bit` and the target set `target_set`, and gathers the
    /// record at the end.
    pub fn trial(
        machine: &mut RiscV32IntegerMachine,
        attack: AttackKind,
        control: ControlMode,
        schedule_mode: ScheduleMode,
        secret_set: usize,
        secret_bit: Option<u32>,
        target_set: usize,
    ) -> (run: TrialRun)
        ensures
            run.remaining() == trial_plan(attack, control),
            run.is_trial(),
            run.trial_spec() == (secret_set, secret_bit, target_set, attack is EvictTime, old(machine).ticks()),
            forall|c: Seq<ExperimentContext>| c.len() == 2 ==> #[trigger] run.inv(c),
            final(machine).wf() == old(machine).wf(),
            final(machine).regs() == old(machine).regs(),
            final(machine).same_periphery(old(machine)),
            final(machine).ticks() == old(machine).ticks(),
            final(machine).mem() == old(machine).mem(),
            final(machine).consistent() == old(machine).consistent(),
    {
        let trial_start = machine.cycle_count();
        let _ = machine.drain_cache_trace();
        let evict_time = match attack {
            AttackKind::EvictTime => true,
            _ => false,
        };
        let phase_bit: u32 = if evict_time {
            0
        } else {
            match secret_bit {
                Some(b) => b,
                None => 0,
            }
        };
        let steps = trial_steps(attack, control);
        let run = TrialRun {
            steps,
            next: 0,
            running: None,
            schedule_mode,
            secret_set,
            phase_bit,
            target_set,
            secret_bit,
            evict_time,
            trial: true,
            trial_start,
            victim_start: None,
            handed: Ghost(Seq::empty()),
        };
        proof {
            assert(run.remaining() =~= trial_plan(attack, control));
        }
        run
    }

    /// The run of the single phase `phase` by program `idx`, with no secret
    /// and no target, and no record.
    pub fn phase(phase: u32, idx: usize, schedule_mode: ScheduleMode) -> (run: TrialRun)
        ensures
            run.remaining() == seq![(phase, idx)],
            !run.is_trial(),
            forall|c: Seq<ExperimentContext>| idx < c.len() ==> #[trigger] run.inv(c),
    {
        let mut steps: Vec<(u32, usize)> = Vec::new();
        steps.push((phase, idx));
        let run = TrialRun {
            steps,
            next: 0,
            running: None,
            schedule_mode,
            secret_set: 0,
            phase_bit: 0,
            target_set: 0,
            secret_bit: None,
            evict_time: false,
            trial: false,
            trial_start: 0,
            victim_start: None,
            handed: Ghost(Seq::empty()),
        };
        proof {
            assert(run.remaining() =~= seq![(phase, idx)]);
        }
        run
    }

    /// Runs the phases until they are all done or the running program needs
    /// the host or cannot go on.
    pub fn resume(
        &mut self,
        machine: &mut RiscV32IntegerMachine,
        contexts: &mut Vec<ExperimentContext>,
        state: &mut ExperimentBuiltinState,
    ) -> (e: TrialEvent)
        requires
            old(self).inv(old(contexts)@),
            old(machine).wf(),
        ensures
            final(self).inv(final(contexts)@),
            final(contexts)@.len() == old(contexts)@.len(),
            final(machine).wf(),
            final(machine).model_spec() == old(machine).model_spec(),
            final(machine).builtin_map() == old(machine).builtin_map(),
            final(machine).ticks() >= old(machine).ticks(),
            e is CycleLimit ==> final(machine).ticks() == u64::MAX,
            e is HostRequest ==> !is_experiment_builtin(e->HostRequest_0),
            e is HostRequest || e is Unimplemented ==> final(machine).ticks() > old(machine).ticks(),
            e is Finished <==> final(self).remaining().len() == 0,
            e matches TrialEvent::Finished(r) ==> {
                let (secret_set, secret_bit, target_set, evict_time, start) = old(self).trial_spec();
                &&& (r is Some <==> old(self).is_trial())
                &&& r matches Some(rec) ==> {
                    &&& rec.target_set == Some(target_set)
                    &&& rec.secret_set == secret_set
                    &&& rec.secret_bit == secret_bit
                    &&& rec.total_trial_cycles == if final(machine).ticks() >= start {
                        (final(machine).ticks() - start) as u64
                    } else {
                        0u64
                    }
                    &&& !evict_time ==> rec.probe_time@ == final(state).submitted@ && rec.victim_elapsed_cycles is None
                    &&& evict_time ==> rec.probe_time@.len() == 0 && rec.victim_elapsed_cycles is Some
                    &&& evict_time ==> {
                        let now = final(machine).ticks();
                        let from = match final(self).victim_start_spec() {
                            Some(t) => t,
                            None => now,
                        };
                        rec.victim_elapsed_cycles == Some(if now >= from { (now - from) as u64 } else { 0u64 })
                    }
                    &&& rec.attacker_l1d_evictions_by_victim == victim_evictions(final(self).handed_events())
                    &&& final(machine).memory_spec().trace_events() == Seq::<CacheAccessEvent>::empty()
                }
            },
    {
        loop
            invariant
                self.inv(contexts@),
                contexts@.len() == old(contexts)@.len(),
                machine.wf(),
                machine.model_spec() == old(machine).model_spec(),
                machine.builtin_map() == old(machine).builtin_map(),
                machine.ticks() >= old(machine).ticks(),
                self.trial_spec() == old(self).trial_spec(),
                self.trial == old(self).trial,
            decreases (self.steps@.len() - self.next) * 2 + if self.running is None { 1int } else { 0int },
        {
            match self.running {
                None => {
                    if self.next == self.steps.len() {
                        if !self.trial {
                            return TrialEvent::Finished(None);
                        }
                        let now = machine.cycle_count();
                        let victim_elapsed = if self.evict_time {
                            let start = match self.victim_start {
                                Some(t) => t,
                                None => now,
                            };
                            Some(now.saturating_sub(start))
                        } else {
                            None
                        };
                        let probe_time = if self.evict_time {
                            Vec::new()
                        } else {
                            state.submitted.clone()
                        };
                        let events = machine.drain_cache_trace();
                        self.handed = Ghost(events@);
                        let record = record_from_events(
                            Some(self.target_set),
                            self.secret_set,
                            self.secret_bit,
                            probe_time,
                            victim_elapsed,
                            now.saturating_sub(self.trial_start),
                            events.as_slice(),
                        );
                        return TrialEvent::Finished(Some(record));
                    }
                    let (phase, idx) = self.steps[self.next];
                    if self.evict_time && phase == PHASE_VICTIM_ACCESS {
                        self.victim_start = Some(machine.cycle_count());
                    }
                    state.begin_phase(phase, self.secret_set, self.phase_bit, self.target_set, true);
                    enter_experiment_context(machine, &contexts[idx], self.schedule_mode);
                    self.running = Some(idx);
                },
                Some(idx) => {
                    let len = self.steps.len();
                    proof {
                        assert(self.next < len);
                    }
                    match run_until_event(machine, state) {
                        ContextEvent::Done => {
                            let mut ctx = contexts[idx];
                            ctx.registers = machine.snapshot_registers();
                            contexts.set(idx, ctx);
                            self.running = None;
                            self.next = self.next + 1;
                        },
                        ContextEvent::Halted(code) => {
                            let mut ctx = contexts[idx];
                            ctx.exited = true;
                            ctx.exit_code = code;
                            ctx.registers = machine.snapshot_registers();
                            contexts.set(idx, ctx);
                            self.running = None;
                            self.next = self.next + 1;
                        },
                        ContextEvent::HostRequest(n) => {
                            return TrialEvent::HostRequest(n);
                        },
                        ContextEvent::Unimplemented(op) => {
                            return TrialEvent::Unimplemented(op);
                        },
                        ContextEvent::CycleLimit => {
                            return TrialEvent::CycleLimit;
                        },
                    }
                },
            }
        }
    }
}

} // verus!