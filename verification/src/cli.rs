use vstd::prelude::*;
use vstd::string::StrSliceExecFns;
use vstd::string::StringSliceAdditionalSpecFns;
use vstd::utf8::{decode_utf8, encode_utf8, is_char_boundary};

use crate::experiment::{
    AttackKind, ControlMode, DEFAULT_DECOY_SET, DEFAULT_TARGET_SET, DomainMode, ExperimentConfig, ScheduleMode,
    attack_of, control_of, domain_of, memory_model_of, message, parse_attack_kind, parse_control_mode, parse_domain_mode,
    parse_memory_model, parse_schedule_mode, schedule_of, SETS,
};
use crate::machine::MemoryModel;

verus! {

broadcast use {
    vstd::utf8::encode_utf8_decode_utf8,
    vstd::utf8::encode_utf8_valid_utf8,
    vstd::utf8::valid_utf8_split,
    vstd::utf8::decode_utf8_encode_utf8,
};

/// What the command line asks of a plain run: the memory model and one or
/// two flat binaries.
#[derive(Debug)]
pub struct CliConfig {
    pub memory_model: MemoryModel,
    pub path_a: String,
    pub path_b: Option<String>,
}

/// The characters of `arg` past `prefix`, when the bytes of `arg` start
/// with those of `prefix` and a character starts right after them.
pub open spec fn value_after(arg: Seq<char>, prefix: Seq<char>) -> Option<Seq<char>> {
    let a = encode_utf8(arg);
    let p = encode_utf8(prefix);
    if p.len() <= a.len() && a.subrange(0, p.len() as int) == p && is_char_boundary(a, p.len() as int) {
        Some(decode_utf8(a.subrange(p.len() as int, a.len() as int)))
    } else {
        None
    }
}

/// `arg` without `prefix`, as [`value_after`] describes it.
fn strip_prefix<'a>(arg: &'a str, prefix: &str) -> (r: Option<&'a str>)
    ensures
        match r {
            Some(v) => value_after(arg@, prefix@) == Some(v@),
            None => value_after(arg@, prefix@) is None,
        },
{
    let whole = arg.as_bytes();
    let b = prefix.as_bytes();
    let n = b.len();
    if n > whole.len() {
        return None;
    }
    if !arg.is_char_boundary(n) {
        return None;
    }
    let (head, tail) = arg.split_at(n);
    let a = head.as_bytes();
    let mut i: usize = 0;
    while i < n
        invariant
            a@ == head.spec_bytes(),
            b@ == prefix.spec_bytes(),
            n <= arg.spec_bytes().len(),
            head.spec_bytes() == arg.spec_bytes().subrange(0, n as int),
            a@.len() == n,
            b@.len() == n,
            i <= n,
            forall|k: int| 0 <= k < i ==> a@[k] == b@[k],
        decreases n - i,
    {
        if a[i] != b[i] {
            proof {
                assert(head.spec_bytes() != prefix.spec_bytes());
                assert(encode_utf8(arg@).subrange(0, n as int) =~= head.spec_bytes());
                assert(encode_utf8(prefix@) == prefix.spec_bytes());
            }
            return None;
        }
        i = i + 1;
    }
    proof {
        assert(a@ =~= b@);
        assert(vstd::utf8::valid_utf8(tail.spec_bytes()));
        assert(decode_utf8(tail.spec_bytes()) == tail@);
    }
    Some(tail)
}

/// Whether `c` is a decimal digit.
pub open spec fn is_digit(c: char) -> bool {
    '0' <= c <= '9'
}

/// The number that the digits `s` spell.
pub open spec fn digits_value(s: Seq<char>) -> int
    decreases s.len(),
{
    if s.len() == 0 {
        0
    } else {
        digits_value(s.drop_last()) * 10 + (s.last() as int - '0' as int)
    }
}

/// The digits of an unsigned number as Rust reads one: `s` without one
/// leading `+`.
pub open spec fn unsigned_digits(s: Seq<char>) -> Seq<char> {
    if s.len() > 0 && s[0] == '+' {
        s.skip(1)
    } else {
        s
    }
}

/// Whether every character of `d` is a decimal digit.
pub open spec fn all_digits(d: Seq<char>) -> bool {
    forall|i: int| 0 <= i < d.len() ==> is_digit(#[trigger] d[i])
}

/// The unsigned number that `s` spells as Rust reads one: an optional `+`
/// and at least one digit, worth at most `max`.
pub open spec fn parse_unsigned(s: Seq<char>, max: int) -> Option<int> {
    let d = unsigned_digits(s);
    if d.len() > 0 && all_digits(d) && digits_value(d) <= max {
        Some(digits_value(d))
    } else {
        None
    }
}

proof fn lemma_digits_nonneg(s: Seq<char>)
    requires
        forall|k: int| 0 <= k < s.len() ==> is_digit(#[trigger] s[k]),
    ensures
        digits_value(s) >= 0,
    decreases s.len(),
{
    if s.len() > 0 {
        lemma_digits_nonneg(s.drop_last());
        assert(is_digit(s[s.len() - 1]));
    }
}

proof fn lemma_digits_grow(s: Seq<char>, i: int, j: int)
    requires
        0 <= i <= j <= s.len(),
        forall|k: int| 0 <= k < s.len() ==> is_digit(#[trigger] s[k]),
    ensures
        digits_value(s.take(i)) <= digits_value(s.take(j)),
    decreases j - i,
{
    if i < j {
        lemma_digits_grow(s, i, j - 1);
        assert(s.take(j).drop_last() =~= s.take(j - 1));
        assert(is_digit(s[j - 1]));
        lemma_digits_nonneg(s.take(j - 1));
        assert(s.take(j).last() == s[j - 1]);
    }
}

/// Reads the unsigned number `value` spells, if it is at most `max`.
fn parse_unsigned_exec(value: &str, max: u64) -> (r: Option<u64>)
    requires
        max >= 9,
    ensures
        match parse_unsigned(value@, max as int) {
            Some(v) => r == Some(v as u64),
            None => r is None,
        },
{
    let ghost s = value@;
    let len = value.unicode_len();
    let mut start: usize = 0;
    if len > 0 && value.get_char(0) == '+' {
        start = 1;
    }
    let ghost d = unsigned_digits(s);
    proof {
        assert(d.len() == len - start);
        assert forall|i: int| 0 <= i < d.len() implies d[i] == s[i + start] by {}
    }
    if start == len {
        return None;
    }
    let mut acc: u64 = 0;
    let mut i: usize = start;
    while i < len
        invariant
            s == value@,
            len == s.len(),
            d == unsigned_digits(s),
            start <= i <= len,
            d.len() == len - start,
            forall|k: int| 0 <= k < d.len() ==> d[k] == s[k + start],
            forall|k: int| 0 <= k < i - start ==> is_digit(#[trigger] d[k]),
            acc == digits_value(d.take(i - start)),
            acc <= max,
            max >= 9,
        decreases len - i,
    {
        let c = value.get_char(i);
        proof {
            assert(d[i - start] == c);
        }
        if c < '0' || c > '9' {
            proof {
                assert(!is_digit(d[i - start]));
                assert(!all_digits(d));
            }
            return None;
        }
        let digit = ((c as u32) - 48u32) as u64;
        proof {
            assert(d.take(i - start + 1).drop_last() =~= d.take(i - start));
            assert(d.take(i - start + 1).last() == c);
            assert(is_digit(d[i - start]));
            assert(digit == c as int - '0' as int);
            assert(digits_value(d.take(i - start + 1)) == acc * 10 + digit);
        }
        if acc > (max - digit) / 10 {
            proof {
                assert(acc * 10 + digit > max) by (nonlinear_arith)
                    requires
                        acc > (max - digit) / 10,
                        digit <= 9,
                        digit <= max,
                ;
                if all_digits(d) {
                    lemma_digits_grow(d, i - start + 1, d.len() as int);
                    assert(d.take(d.len() as int) =~= d);
                }
            }
            return None;
        }
        proof {
            assert(acc * 10 + digit <= max) by (nonlinear_arith)
                requires
                    acc <= (max - digit) / 10,
                    digit <= max,
            ;
        }
        acc = acc * 10 + digit;
        i = i + 1;
    }
    proof {
        assert(d.take(d.len() as int) =~= d);
    }
    Some(acc)
}

/// A number read is never negative and never above the bound.
proof fn lemma_parse_unsigned_range(s: Seq<char>, max: int)
    ensures
        parse_unsigned(s, max) matches Some(v) ==> 0 <= v <= max,
{
    if parse_unsigned(s, max) is Some {
        lemma_digits_nonneg(unsigned_digits(s));
    }
}

/// Reads the unsigned number `value` spells, if a `usize` holds it.
fn parse_usize(value: &str) -> (r: Option<usize>)
    ensures
        match parse_unsigned(value@, usize::MAX as int) {
            Some(v) => r == Some(v as usize),
            None => r is None,
        },
{
    let max: u64 = usize::MAX as u64;
    proof {
        lemma_parse_unsigned_range(value@, usize::MAX as int);
    }
    match parse_unsigned_exec(value, max) {
        Some(n) => {
            assert(n <= usize::MAX);
            Some(n as usize)
        },
        None => None,
    }
}

/// What the experiment arguments say, as plain values.
pub struct ExperimentArgs {
    pub attack: AttackKind,
    pub schedule_mode: ScheduleMode,
    pub memory_model: MemoryModel,
    pub domain_mode: DomainMode,
    pub control: ControlMode,
    pub trials: usize,
    pub seed: u64,
    pub target_set: usize,
    pub decoy_set: usize,
    pub attacker_path: Seq<char>,
    pub victim_path: Seq<char>,
    pub out_dir: Seq<char>,
}

/// Where the firmware of the program `name` lies by default.
pub open spec fn experiment_path_of(name: Seq<char>) -> Seq<char> {
    "riscv-programs/"@ + name + "/firmware.bin"@
}

/// The path of the firmware of the program `name`.
pub fn default_experiment_path(name: &str) -> (r: String)
    ensures
        r@ == experiment_path_of(name@),
{
    String::from_str("riscv-programs/").concat(name).concat("/firmware.bin")
}

/// The experiment settings before any argument is read.
pub open spec fn default_experiment_args() -> ExperimentArgs {
    ExperimentArgs {
        attack: AttackKind::BinaryPrimeProbe,
        schedule_mode: ScheduleMode::TimeSliced,
        memory_model: MemoryModel::Default,
        domain_mode: DomainMode::Different,
        control: ControlMode::NoControl,
        trials: 16384,
        seed: 1,
        target_set: DEFAULT_TARGET_SET,
        decoy_set: DEFAULT_DECOY_SET,
        attacker_path: experiment_path_of("l1d-attacker"@),
        victim_path: experiment_path_of("l1d-victim"@),
        out_dir: "results/l1d-experiment"@,
    }
}

/// The settings after the argument `arg`, or the message that refuses it.
pub open spec fn experiment_arg_step(m: ExperimentArgs, arg: Seq<char>) -> Result<ExperimentArgs, Seq<char>> {
    if let Some(v) = value_after(arg, "--attack="@) {
        match attack_of(v) {
            Some(k) => Ok(ExperimentArgs { attack: k, ..m }),
            None => Err("unsupported attack: "@ + v),
        }
    } else if let Some(v) = value_after(arg, "--mode="@) {
        match schedule_of(v) {
            Some(k) => Ok(ExperimentArgs { schedule_mode: k, ..m }),
            None => Err("unsupported experiment mode: "@ + v),
        }
    } else if let Some(v) = value_after(arg, "--memory-model="@) {
        match memory_model_of(v) {
            Some(k) => Ok(ExperimentArgs { memory_model: k, ..m }),
            None => Err("unsupported memory model: "@ + v),
        }
    } else if let Some(v) = value_after(arg, "--domains="@) {
        match domain_of(v) {
            Some(k) => Ok(ExperimentArgs { domain_mode: k, ..m }),
            None => Err("unsupported domains mode: "@ + v),
        }
    } else if let Some(v) = value_after(arg, "--control="@) {
        match control_of(v) {
            Some(k) => Ok(ExperimentArgs { control: k, ..m }),
            None => Err("unsupported control: "@ + v),
        }
    } else if let Some(v) = value_after(arg, "--trials="@) {
        match parse_unsigned(v, usize::MAX as int) {
            Some(n) => Ok(ExperimentArgs { trials: n as usize, ..m }),
            None => Err("invalid --trials value: "@ + v),
        }
    } else if let Some(v) = value_after(arg, "--seed="@) {
        match parse_unsigned(v, u64::MAX as int) {
            Some(n) => Ok(ExperimentArgs { seed: n as u64, ..m }),
            None => Err("invalid --seed value: "@ + v),
        }
    } else if let Some(v) = value_after(arg, "--target-set="@) {
        match parse_unsigned(v, usize::MAX as int) {
            Some(n) => Ok(ExperimentArgs { target_set: n as usize, ..m }),
            None => Err("invalid --target-set value: "@ + v),
        }
    } else if let Some(v) = value_after(arg, "--decoy-set="@) {
        match parse_unsigned(v, usize::MAX as int) {
            Some(n) => Ok(ExperimentArgs { decoy_set: n as usize, ..m }),
            None => Err("invalid --decoy-set value: "@ + v),
        }
    } else if let Some(v) = value_after(arg, "--attacker="@) {
        Ok(ExperimentArgs { attacker_path: v, ..m })
    } else if let Some(v) = value_after(arg, "--victim="@) {
        Ok(ExperimentArgs { victim_path: v, ..m })
    } else if let Some(v) = value_after(arg, "--out="@) {
        Ok(ExperimentArgs { out_dir: v, ..m })
    } else {
        Err("unsupported experiment argument: "@ + arg)
    }
}

/// The settings after the arguments `args` in order, or the message that
/// refuses the first argument that is refused.
pub open spec fn experiment_args_fold(args: Seq<Seq<char>>) -> Result<ExperimentArgs, Seq<char>>
    decreases args.len(),
{
    if args.len() == 0 {
        Ok(default_experiment_args())
    } else {
        match experiment_args_fold(args.drop_last()) {
            Ok(m) => experiment_arg_step(m, args.last()),
            Err(e) => Err(e),
        }
    }
}

/// What the experiment arguments `args` come to: the settings, or the
/// message that refuses them.
pub open spec fn experiment_args_of(args: Seq<Seq<char>>) -> Result<ExperimentArgs, Seq<char>> {
    match experiment_args_fold(args) {
        Ok(m) => if m.target_set >= SETS {
            Err("--target-set must be in 0..64"@)
        } else if m.decoy_set >= SETS {
            Err("--decoy-set must be in 0..64"@)
        } else {
            Ok(m)
        },
        Err(e) => Err(e),
    }
}

/// Whether the configuration `c` holds the settings `m`.
pub open spec fn config_holds(c: ExperimentConfig, m: ExperimentArgs) -> bool {
    &&& c.attack == m.attack
    &&& c.schedule_mode == m.schedule_mode
    &&& c.memory_model == m.memory_model
    &&& c.domain_mode == m.domain_mode
    &&& c.control == m.control
    &&& c.trials == m.trials
    &&& c.seed == m.seed
    &&& c.target_set == m.target_set
    &&& c.decoy_set == m.decoy_set
    &&& c.attacker_path@ == m.attacker_path
    &&& c.victim_path@ == m.victim_path
    &&& c.out_dir@ == m.out_dir
}

/// The characters of each argument.
pub open spec fn arg_chars(args: Seq<String>) -> Seq<Seq<char>> {
    args.map_values(|a: String| a@)
}

/// Once an argument is refused, the later ones are not read.
proof fn lemma_fold_stops(argv: Seq<Seq<char>>, j: int, e: Seq<char>)
    requires
        0 < j <= argv.len(),
        experiment_args_fold(argv.take(j)) == Err::<ExperimentArgs, Seq<char>>(e),
    ensures
        experiment_args_fold(argv) == Err::<ExperimentArgs, Seq<char>>(e),
        experiment_args_of(argv) == Err::<ExperimentArgs, Seq<char>>(e),
    decreases argv.len() - j,
{
    if j < argv.len() {
        assert(argv.take(j + 1).drop_last() =~= argv.take(j));
        lemma_fold_stops(argv, j + 1, e);
    } else {
        assert(argv.take(j) =~= argv);
    }
}

/// Reads the arguments of an experiment run.
pub fn parse_experiment_args(args: &[String]) -> (r: Result<ExperimentConfig, String>)
    ensures
        match experiment_args_of(arg_chars(args@)) {
            Ok(m) => r is Ok && config_holds(r->Ok_0, m),
            Err(e) => r is Err && r->Err_0@ == e,
        },
{
    let ghost argv = arg_chars(args@);
    let mut attack = AttackKind::BinaryPrimeProbe;
    let mut schedule_mode = ScheduleMode::TimeSliced;
    let mut memory_model = MemoryModel::Default;
    let mut domain_mode = DomainMode::Different;
    let mut control = ControlMode::NoControl;
    let mut trials: usize = 16384;
    let mut seed: u64 = 1;
    let mut target_set: usize = DEFAULT_TARGET_SET;
    let mut decoy_set: usize = DEFAULT_DECOY_SET;
    let mut attacker_path = default_experiment_path("l1d-attacker");
    let mut victim_path = default_experiment_path("l1d-victim");
    let mut out_dir = String::from_str("results/l1d-experiment");
    let mut i: usize = 0;
    while i < args.len()
        invariant
            argv == arg_chars(args@),
            i <= args.len(),
            experiment_args_fold(argv.take(i as int)) == Ok::<ExperimentArgs, Seq<char>>(
                ExperimentArgs {
                    attack,
                    schedule_mode,
                    memory_model,
                    domain_mode,
                    control,
                    trials,
                    seed,
                    target_set,
                    decoy_set,
                    attacker_path: attacker_path@,
                    victim_path: victim_path@,
                    out_dir: out_dir@,
                },
            ),
        decreases args.len() - i,
    {
        let arg = args[i].as_str();
        let ghost before = ExperimentArgs {
            attack,
            schedule_mode,
            memory_model,
            domain_mode,
            control,
            trials,
            seed,
            target_set,
            decoy_set,
            attacker_path: attacker_path@,
            victim_path: victim_path@,
            out_dir: out_dir@,
        };
        proof {
            assert(argv.take(i + 1).drop_last() =~= argv.take(i as int));
            assert(argv.take(i + 1).last() == arg@);
        }
        if let Some(value) = strip_prefix(arg, "--attack=") {
            match parse_attack_kind(value) {
                Ok(k) => attack = k,
                Err(e) => {
                    proof { lemma_fold_stops(argv, i + 1, e@); }
                    return Err(e);
                },
            }
        } else if let Some(value) = strip_prefix(arg, "--mode=") {
            match parse_schedule_mode(value) {
                Ok(k) => schedule_mode = k,
                Err(e) => {
                    proof { lemma_fold_stops(argv, i + 1, e@); }
                    return Err(e);
                },
            }
        } else if let Some(value) = strip_prefix(arg, "--memory-model=") {
            match parse_memory_model(value) {
                Ok(k) => memory_model = k,
                Err(e) => {
                    proof { lemma_fold_stops(argv, i + 1, e@); }
                    return Err(e);
                },
            }
        } else if let Some(value) = strip_prefix(arg, "--domains=") {
            match parse_domain_mode(value) {
                Ok(k) => domain_mode = k,
                Err(e) => {
                    proof { lemma_fold_stops(argv, i + 1, e@); }
                    return Err(e);
                },
            }
        } else if let Some(value) = strip_prefix(arg, "--control=") {
            match parse_control_mode(value) {
                Ok(k) => control = k,
                Err(e) => {
                    proof { lemma_fold_stops(argv, i + 1, e@); }
                    return Err(e);
                },
            }
        } else if let Some(value) = strip_prefix(arg, "--trials=") {
            match parse_usize(value) {
                Some(n) => trials = n,
                None => {
                    let e = message("invalid --trials value: ", value);
                    proof { lemma_fold_stops(argv, i + 1, e@); }
                    return Err(e);
                },
            }
        } else if let Some(value) = strip_prefix(arg, "--seed=") {
            match parse_unsigned_exec(value, u64::MAX) {
                Some(n) => seed = n,
                None => {
                    let e = message("invalid --seed value: ", value);
                    proof { lemma_fold_stops(argv, i + 1, e@); }
                    return Err(e);
                },
            }
        } else if let Some(value) = strip_prefix(arg, "--target-set=") {
            match parse_usize(value) {
                Some(n) => target_set = n,
                None => {
                    let e = message("invalid --target-set value: ", value);
                    proof { lemma_fold_stops(argv, i + 1, e@); }
                    return Err(e);
                },
            }
        } else if let Some(value) = strip_prefix(arg, "--decoy-set=") {
            match parse_usize(value) {
                Some(n) => decoy_set = n,
                None => {
                    let e = message("invalid --decoy-set value: ", value);
                    proof { lemma_fold_stops(argv, i + 1, e@); }
                    return Err(e);
                },
            }
        } else if let Some(value) = strip_prefix(arg, "--attacker=") {
            attacker_path = String::from_str(value);
        } else if let Some(value) = strip_prefix(arg, "--victim=") {
            victim_path = String::from_str(value);
        } else if let Some(value) = strip_prefix(arg, "--out=") {
            out_dir = String::from_str(value);
        } else {
            let e = message("unsupported experiment argument: ", arg);
            proof { lemma_fold_stops(argv, i + 1, e@); }
            return Err(e);
        }
        proof {
            assert(experiment_arg_step(before, arg@) == Ok::<ExperimentArgs, Seq<char>>(
                ExperimentArgs {
                    attack,
                    schedule_mode,
                    memory_model,
                    domain_mode,
                    control,
                    trials,
                    seed,
                    target_set,
                    decoy_set,
                    attacker_path: attacker_path@,
                    victim_path: victim_path@,
                    out_dir: out_dir@,
                },
            ));
        }
        i = i + 1;
    }
    proof {
        assert(argv.take(args.len() as int) =~= argv);
    }
    if target_set >= SETS {
        return Err(String::from_str("--target-set must be in 0..64"));
    }
    if decoy_set >= SETS {
        return Err(String::from_str("--decoy-set must be in 0..64"));
    }
    Ok(ExperimentConfig {
        attack,
        schedule_mode,
        memory_model,
        domain_mode,
        control,
        trials,
        seed,
        target_set,
        decoy_set,
        attacker_path,
        victim_path,
        out_dir,
    })
}

/// The memory model and the positional arguments after `args`, or the
/// message that refuses the first argument that is refused.
pub open spec fn cli_fold(args: Seq<Seq<char>>) -> Result<(MemoryModel, Seq<Seq<char>>), Seq<char>>
    decreases args.len(),
{
    if args.len() == 0 {
        Ok((MemoryModel::Default, Seq::empty()))
    } else {
        match cli_fold(args.drop_last()) {
            Ok((model, positional)) => match value_after(args.last(), "--memory-model="@) {
                Some(v) => match memory_model_of(v) {
                    Some(k) => Ok((k, positional)),
                    None => Err("unsupported memory model: "@ + v),
                },
                None => Ok((model, positional.push(args.last()))),
            },
            Err(e) => Err(e),
        }
    }
}

/// What the command line `args` comes to: the memory model, the first
/// binary and the second one if given, or the message that refuses it.
pub open spec fn cli_args_of(args: Seq<Seq<char>>) -> Result<(MemoryModel, Seq<char>, Option<Seq<char>>), Seq<char>> {
    match cli_fold(args) {
        Ok((model, positional)) => if positional.len() == 0 {
            Err("missing flat-binary-path"@)
        } else if positional.len() > 2 {
            Err("too many arguments"@)
        } else {
            Ok((model, positional[0], if positional.len() == 2 { Some(positional[1]) } else { None }))
        },
        Err(e) => Err(e),
    }
}

/// Once an argument is refused, the later ones are not read.
proof fn lemma_cli_fold_stops(argv: Seq<Seq<char>>, j: int, e: Seq<char>)
    requires
        0 < j <= argv.len(),
        cli_fold(argv.take(j)) == Err::<(MemoryModel, Seq<Seq<char>>), Seq<char>>(e),
    ensures
        cli_fold(argv) == Err::<(MemoryModel, Seq<Seq<char>>), Seq<char>>(e),
    decreases argv.len() - j,
{
    if j < argv.len() {
        assert(argv.take(j + 1).drop_last() =~= argv.take(j));
        lemma_cli_fold_stops(argv, j + 1, e);
    } else {
        assert(argv.take(j) =~= argv);
    }
}

/// Reads the command line of a plain run: `--memory-model=` anywhere, and
/// one or two flat binaries.
pub fn parse_cli_args(args: &[String]) -> (r: Result<CliConfig, String>)
    ensures
        match cli_args_of(arg_chars(args@)) {
            Ok((model, a, b)) => r is Ok && r->Ok_0.memory_model == model && r->Ok_0.path_a@ == a && match b {
                Some(bb) => r->Ok_0.path_b matches Some(p) && p@ == bb,
                None => r->Ok_0.path_b is None,
            },
            Err(e) => r is Err && r->Err_0@ == e,
        },
{
    let ghost argv = arg_chars(args@);
    let mut memory_model = MemoryModel::Default;
    let mut positional: Vec<String> = Vec::new();
    let mut i: usize = 0;
    proof {
        assert(argv.take(0) =~= Seq::<Seq<char>>::empty());
        assert(arg_chars(positional@) =~= Seq::<Seq<char>>::empty());
    }
    while i < args.len()
        invariant
            argv == arg_chars(args@),
            i <= args.len(),
            cli_fold(argv.take(i as int)) == Ok::<(MemoryModel, Seq<Seq<char>>), Seq<char>>(
                (memory_model, arg_chars(positional@)),
            ),
        decreases args.len() - i,
    {
        let arg = args[i].as_str();
        proof {
            assert(argv.take(i + 1).drop_last() =~= argv.take(i as int));
            assert(argv.take(i + 1).last() == arg@);
        }
        if let Some(value) = strip_prefix(arg, "--memory-model=") {
            match parse_memory_model(value) {
                Ok(k) => memory_model = k,
                Err(e) => {
                    proof {
                        lemma_cli_fold_stops(argv, i + 1, e@);
                    }
                    return Err(e);
                },
            }
        } else {
            let ghost before = positional@;
            positional.push(String::from_str(arg));
            proof {
                assert(arg_chars(positional@) =~= arg_chars(before).push(arg@));
            }
        }
        i = i + 1;
    }
    proof {
        assert(argv.take(args.len() as int) =~= argv);
    }
    if positional.len() == 0 {
        return Err(String::from_str("missing flat-binary-path"));
    }
    let path_a = String::from_str(positional[0].as_str());
    let path_b = if positional.len() > 1 {
        Some(String::from_str(positional[1].as_str()))
    } else {
        None
    };
    if positional.len() > 2 {
        return Err(String::from_str("too many arguments"));
    }
    Ok(CliConfig { memory_model, path_a, path_b })
}

} // verus!
