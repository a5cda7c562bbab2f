//! The commands of the card emulator: what its control port takes, and its options.
use crate::bench_command::argument_texts;
use crate::json::{find_member, json_members, JsonValue};
#[allow(unused_imports)]
use crate::json::{json_members_of, member_of, JsonModel};
use crate::sd_card::{BackingStep, CardAction, SdCard};
#[allow(unused_imports)]
use crate::sd_card::{
    after_power_loss, carries_out, flush_effects, flush_setbacks, power_loss_setbacks,
    step_models, wrapped, CardModel, DeviceStatus, FaultKind, StepModel,
};
#[allow(unused_imports)]
use crate::sd_profile::FaultProfile;
use crate::sd_profile::Profile;
use crate::text::same_text;
use crate::text_scan::{characters, parse_small, parse_unsigned, text_of, trim, IntegerFault};
#[allow(unused_imports)]
use crate::text_scan::{small_value, trimmed, unsigned_value};
use vstd::prelude::*;
use vstd::string::*;
use vstd::utf8::*;

verus! {

/// What the control port is asked for.
#[derive(Clone, Copy, Debug, PartialEq, Eq, Structural)]
pub enum ControlCommand {
    Status,
    PowerLoss,
    Reset,
    Detach,
    ReadOnly,
    ReadWrite,
    Flush,
    Shutdown,
    Unknown,
}

pub open spec fn control_of(text: Seq<char>) -> ControlCommand {
    if text == "status"@ {
        ControlCommand::Status
    } else if text == "power-loss"@ {
        ControlCommand::PowerLoss
    } else if text == "reset"@ {
        ControlCommand::Reset
    } else if text == "detach"@ {
        ControlCommand::Detach
    } else if text == "read-only"@ {
        ControlCommand::ReadOnly
    } else if text == "read-write"@ {
        ControlCommand::ReadWrite
    } else if text == "flush"@ {
        ControlCommand::Flush
    } else if text == "shutdown"@ {
        ControlCommand::Shutdown
    } else {
        ControlCommand::Unknown
    }
}

/// The command in a line, and its text without white space around it.
pub fn parse_control(line: &str) -> (outcome: Result<(ControlCommand, String), &'static str>)
    ensures
        match outcome {
            Ok((command, text)) => {
                &&& text@ == trimmed(line@)
                &&& encode_utf8(text@).len() <= 4096
                &&& command == control_of(text@)
            },
            Err(reason) => encode_utf8(trimmed(line@)).len() > 4096 && reason
                == "control command exceeds 4096 bytes",
        },
{
    let text = text_of(trim(characters(line).as_slice()).as_slice());
    if text.as_str().as_bytes().len() > 4096 {
        return Err("control command exceeds 4096 bytes");
    }
    let word = text.as_str();
    let command = if same_text(word, "status") {
        ControlCommand::Status
    } else if same_text(word, "power-loss") {
        ControlCommand::PowerLoss
    } else if same_text(word, "reset") {
        ControlCommand::Reset
    } else if same_text(word, "detach") {
        ControlCommand::Detach
    } else if same_text(word, "read-only") {
        ControlCommand::ReadOnly
    } else if same_text(word, "read-write") {
        ControlCommand::ReadWrite
    } else if same_text(word, "flush") {
        ControlCommand::Flush
    } else if same_text(word, "shutdown") {
        ControlCommand::Shutdown
    } else {
        ControlCommand::Unknown
    };
    Ok((command, text))
}

impl ControlCommand {
    /// Whether clients are disconnected: they must not go on with a card that is no
    /// longer the one they negotiated.
    pub fn disconnects(self) -> (yes: bool)
        ensures
            yes == (self is PowerLoss || self is Detach || self is ReadOnly || self is ReadWrite
                || self is Shutdown),
    {
        match self {
            ControlCommand::PowerLoss => true,
            ControlCommand::Detach => true,
            ControlCommand::ReadOnly => true,
            ControlCommand::ReadWrite => true,
            ControlCommand::Shutdown => true,
            _ => false,
        }
    }

    /// Whether the emulator stops after a command that went this way.
    pub fn stops(self, succeeded: bool) -> (yes: bool)
        ensures
            yes == (self is Shutdown && succeeded),
    {
        match self {
            ControlCommand::Shutdown => succeeded,
            _ => false,
        }
    }

    /// Carries a command out on a card. One that is not known changes nothing, and its
    /// refusal is the caller's.
    pub fn apply(self, card: &mut SdCard) -> (action: CardAction)
        ensures
            match self {
                ControlCommand::PowerLoss => {
                    &&& (final(card).model(), step_models(action.steps@)) == after_power_loss(
                        old(card).model(),
                        FaultKind::PowerLoss,
                    )
                    &&& final(card).setbacks() == power_loss_setbacks(old(card).model())
                    &&& action.outcome is Ok
                    &&& action.latency_us is None
                },
                ControlCommand::Detach => {
                    &&& (final(card).model(), step_models(action.steps@)) == after_power_loss(
                        old(card).model(),
                        FaultKind::DeviceDisappeared,
                    )
                    &&& final(card).setbacks() == power_loss_setbacks(old(card).model())
                    &&& action.outcome is Ok
                    &&& action.latency_us is None
                },
                ControlCommand::Flush => {
                    &&& carries_out(action, final(card).model(), flush_effects(old(card).model()))
                    &&& final(card).setbacks() == flush_setbacks(old(card).model())
                },
                _ => {
                    &&& action.steps@.len() == 0
                    &&& final(card).setbacks() == old(card).setbacks()
                    &&& action.outcome is Ok
                    &&& action.latency_us is None
                    &&& final(card).model() == match self {
                        ControlCommand::Reset => CardModel {
                            status: DeviceStatus::Online,
                            generation: wrapped(old(card).model().generation),
                            ..old(card).model()
                        },
                        ControlCommand::ReadOnly => CardModel {
                            status: DeviceStatus::ReadOnly,
                            generation: wrapped(old(card).model().generation),
                            ..old(card).model()
                        },
                        ControlCommand::ReadWrite => CardModel {
                            status: DeviceStatus::Online,
                            generation: wrapped(old(card).model().generation),
                            ..old(card).model()
                        },
                        _ => old(card).model(),
                    }
                },
            },
    {
        let steps: Vec<BackingStep> = match self {
            ControlCommand::Flush => {
                return card.flush();
            },
            ControlCommand::PowerLoss => card.power_loss(),
            ControlCommand::Detach => card.detach(),
            ControlCommand::Reset => {
                card.reset();
                Vec::new()
            },
            ControlCommand::ReadOnly => {
                card.set_read_only(true);
                Vec::new()
            },
            ControlCommand::ReadWrite => {
                card.set_read_only(false);
                Vec::new()
            },
            _ => Vec::new(),
        };
        CardAction { steps, latency_us: None, outcome: Ok(()) }
    }
}

// Options.

/// What is wrong with the options of a command.
#[allow(inconsistent_fields)]
#[derive(Debug, PartialEq, Eq)]
pub enum OptionFault {
    NeedsValue { flag: String },
    Unknown { flag: String },
    BadNumber { name: &'static str, value: String, fault: IntegerFault },
    BadBool { name: &'static str, value: String },
    /// An option that must be given, with its command.
    Missing(&'static str),
}

/// What a fault holds.
pub enum FaultModel {
    NeedsValue(Seq<char>),
    Unknown(Seq<char>),
    BadNumber(Seq<char>, Seq<char>, IntegerFault),
    BadBool(Seq<char>, Seq<char>),
    Missing(Seq<char>),
}

impl View for OptionFault {
    type V = FaultModel;

    open spec fn view(&self) -> FaultModel {
        match *self {
            OptionFault::NeedsValue { flag } => FaultModel::NeedsValue(flag@),
            OptionFault::Unknown { flag } => FaultModel::Unknown(flag@),
            OptionFault::BadNumber { name, value, fault } => FaultModel::BadNumber(
                name@,
                value@,
                fault,
            ),
            OptionFault::BadBool { name, value } => FaultModel::BadBool(name@, value@),
            OptionFault::Missing(what) => FaultModel::Missing(what@),
        }
    }
}

/// A number, or the fault that says which one is wrong.
pub open spec fn number_option(name: Seq<char>, value: Seq<char>) -> Result<u64, FaultModel> {
    match unsigned_value(value) {
        Ok(n) => Ok(n as u64),
        Err(fault) => Err(FaultModel::BadNumber(name, value, fault)),
    }
}

pub fn parse_u64(name: &'static str, value: &str) -> (outcome: Result<u64, OptionFault>)
    ensures
        match outcome {
            Ok(n) => number_option(name@, value@) == Ok::<u64, FaultModel>(n),
            Err(fault) => number_option(name@, value@) == Err::<u64, _>(fault@),
        },
{
    match parse_unsigned(characters(value).as_slice()) {
        Ok(n) => Ok(n),
        Err(fault) => Err(OptionFault::BadNumber { name, value: value.to_owned(), fault }),
    }
}

pub open spec fn small_option(name: Seq<char>, value: Seq<char>) -> Result<i32, FaultModel> {
    match small_value(value) {
        Ok(n) => Ok(n as i32),
        Err(fault) => Err(FaultModel::BadNumber(name, value, fault)),
    }
}

pub fn parse_i32(name: &'static str, value: &str) -> (outcome: Result<i32, OptionFault>)
    ensures
        match outcome {
            Ok(n) => small_option(name@, value@) == Ok::<i32, FaultModel>(n),
            Err(fault) => small_option(name@, value@) == Err::<i32, _>(fault@),
        },
{
    match parse_small(characters(value).as_slice()) {
        Ok(n) => Ok(n),
        Err(fault) => Err(OptionFault::BadNumber { name, value: value.to_owned(), fault }),
    }
}

pub open spec fn bool_option(name: Seq<char>, value: Seq<char>) -> Result<bool, FaultModel> {
    if value == "true"@ {
        Ok(true)
    } else if value == "false"@ {
        Ok(false)
    } else {
        Err(FaultModel::BadBool(name, value))
    }
}

pub fn parse_bool(name: &'static str, value: &str) -> (outcome: Result<bool, OptionFault>)
    ensures
        match outcome {
            Ok(b) => bool_option(name@, value@) == Ok::<bool, FaultModel>(b),
            Err(fault) => bool_option(name@, value@) == Err::<bool, _>(fault@),
        },
{
    if same_text(value, "true") {
        Ok(true)
    } else if same_text(value, "false") {
        Ok(false)
    } else {
        Err(OptionFault::BadBool { name, value: value.to_owned() })
    }
}

#[derive(Debug, PartialEq, Eq)]
pub struct ServeOptions {
    pub config: Option<String>,
    pub backing: Option<String>,
    pub listen: String,
    pub control: String,
    pub seed: u64,
    pub metrics: Option<String>,
    pub power_loss_after_ops: Option<u64>,
}

/// What options to serve hold.
pub struct ServeModel {
    pub config: Option<Seq<char>>,
    pub backing: Option<Seq<char>>,
    pub listen: Seq<char>,
    pub control: Seq<char>,
    pub seed: u64,
    pub metrics: Option<Seq<char>>,
    pub power_loss_after_ops: Option<u64>,
}

/// The text of an optional string.
pub open spec fn maybe_text(text: Option<String>) -> Option<Seq<char>> {
    match text {
        None => None,
        Some(t) => Some(t@),
    }
}

impl View for ServeOptions {
    type V = ServeModel;

    open spec fn view(&self) -> ServeModel {
        ServeModel {
            config: maybe_text(self.config),
            backing: maybe_text(self.backing),
            listen: self.listen@,
            control: self.control@,
            seed: self.seed,
            metrics: maybe_text(self.metrics),
            power_loss_after_ops: self.power_loss_after_ops,
        }
    }
}

/// What an option with its value sets.
pub open spec fn serve_step(options: ServeModel, flag: Seq<char>, value: Seq<char>) -> Result<
    ServeModel,
    FaultModel,
> {
    if flag == "--config"@ {
        Ok(ServeModel { config: Some(value), ..options })
    } else if flag == "--backing"@ {
        Ok(ServeModel { backing: Some(value), ..options })
    } else if flag == "--listen"@ {
        Ok(ServeModel { listen: value, ..options })
    } else if flag == "--control"@ {
        Ok(ServeModel { control: value, ..options })
    } else if flag == "--seed"@ {
        match number_option("seed"@, value) {
            Ok(seed) => Ok(ServeModel { seed, ..options }),
            Err(fault) => Err(fault),
        }
    } else if flag == "--metrics"@ {
        Ok(ServeModel { metrics: Some(value), ..options })
    } else if flag == "--power-loss-after-ops"@ {
        match number_option("power-loss operation"@, value) {
            Ok(n) => Ok(ServeModel { power_loss_after_ops: Some(n), ..options }),
            Err(fault) => Err(fault),
        }
    } else {
        Err(FaultModel::Unknown(flag))
    }
}

/// What options with their values set, one after the other. The first that is wrong
/// counts.
pub open spec fn serve_steps(options: ServeModel, arguments: Seq<Seq<char>>) -> Result<
    ServeModel,
    FaultModel,
>
    decreases arguments.len(),
{
    if arguments.len() == 0 {
        Ok(options)
    } else if arguments.len() == 1 {
        Err(FaultModel::NeedsValue(arguments[0]))
    } else {
        match serve_step(options, arguments[0], arguments[1]) {
            Ok(next) => serve_steps(next, arguments.skip(2)),
            Err(fault) => Err(fault),
        }
    }
}

/// What serves where no option says otherwise.
pub open spec fn serve_defaults() -> ServeModel {
    ServeModel {
        config: None,
        backing: None,
        listen: "127.0.0.1:10809"@,
        control: "127.0.0.1:10810"@,
        seed: 42,
        metrics: None,
        power_loss_after_ops: None,
    }
}

/// The options to serve with, which need a profile and a backing file.
pub open spec fn serve_options_of(arguments: Seq<Seq<char>>) -> Result<ServeModel, FaultModel> {
    match serve_steps(serve_defaults(), arguments) {
        Err(fault) => Err(fault),
        Ok(options) => if options.config is None {
            Err(FaultModel::Missing("serve needs --config"@))
        } else if options.backing is None {
            Err(FaultModel::Missing("serve needs --backing"@))
        } else {
            Ok(options)
        },
    }
}

fn apply_serve_option(options: &mut ServeOptions, flag: &str, value: &str) -> (outcome: Result<
    (),
    OptionFault,
>)
    ensures
        match outcome {
            Ok(()) => serve_step(old(options)@, flag@, value@) == Ok::<_, FaultModel>(
                final(options)@,
            ),
            Err(fault) => serve_step(old(options)@, flag@, value@) == Err::<ServeModel, _>(fault@),
        },
{
    if same_text(flag, "--config") {
        options.config = Some(value.to_owned());
    } else if same_text(flag, "--backing") {
        options.backing = Some(value.to_owned());
    } else if same_text(flag, "--listen") {
        options.listen = value.to_owned();
    } else if same_text(flag, "--control") {
        options.control = value.to_owned();
    } else if same_text(flag, "--seed") {
        options.seed = parse_u64("seed", value)?;
    } else if same_text(flag, "--metrics") {
        options.metrics = Some(value.to_owned());
    } else if same_text(flag, "--power-loss-after-ops") {
        let n: u64 = parse_u64("power-loss operation", value)?;
        options.power_loss_after_ops = Some(n);
    } else {
        return Err(OptionFault::Unknown { flag: flag.to_owned() });
    }
    Ok(())
}

/// Reads the options to serve with.
#[verifier::loop_isolation(false)]
pub fn parse_serve_options(arguments: &Vec<String>) -> (outcome: Result<ServeOptions, OptionFault>)
    ensures
        match outcome {
            Ok(options) => serve_options_of(argument_texts(arguments@)) == Ok::<_, FaultModel>(
                options@,
            ),
            Err(fault) => serve_options_of(argument_texts(arguments@)) == Err::<ServeModel, _>(
                fault@,
            ),
        },
{
    let ghost all = argument_texts(arguments@);
    let total: usize = arguments.len();
    let mut options = ServeOptions {
        config: None,
        backing: None,
        listen: "127.0.0.1:10809".to_owned(),
        control: "127.0.0.1:10810".to_owned(),
        seed: 42,
        metrics: None,
        power_loss_after_ops: None,
    };
    let mut index: usize = 0;
    assert(all.skip(0) =~= all);
    while index < total
        invariant
            index <= total,
            serve_steps(serve_defaults(), all) == serve_steps(options@, all.skip(index as int)),
        decreases total - index,
    {
        let flag = arguments[index].as_str();
        assert(all.skip(index as int)[0] == flag@);
        if index + 1 >= total {
            return Err(OptionFault::NeedsValue { flag: flag.to_owned() });
        }
        let value = arguments[index + 1].as_str();
        proof {
            assert(all.skip(index as int)[1] == value@);
            assert(all.skip(index as int).skip(2) =~= all.skip(index + 2));
        }
        apply_serve_option(&mut options, flag, value)?;
        index = index + 2;
    }
    assert(all.skip(total as int).len() == 0);
    if options.config.is_none() {
        return Err(OptionFault::Missing("serve needs --config"));
    }
    if options.backing.is_none() {
        return Err(OptionFault::Missing("serve needs --backing"));
    }
    Ok(options)
}

#[derive(Debug, PartialEq, Eq)]
pub struct VerifyOptions {
    pub emulator: Option<String>,
    pub check: Option<String>,
    pub inspect: Option<String>,
    pub output: Option<String>,
    pub expected_points: Option<u64>,
    pub expected_commits: Option<u64>,
    pub writer_exit: Option<i32>,
    pub writer_signal: Option<i32>,
    pub checksum_ok: Option<bool>,
}

/// What options to verify hold.
pub struct VerifyModel {
    pub emulator: Option<Seq<char>>,
    pub check: Option<Seq<char>>,
    pub inspect: Option<Seq<char>>,
    pub output: Option<Seq<char>>,
    pub expected_points: Option<u64>,
    pub expected_commits: Option<u64>,
    pub writer_exit: Option<i32>,
    pub writer_signal: Option<i32>,
    pub checksum_ok: Option<bool>,
}

impl View for VerifyOptions {
    type V = VerifyModel;

    open spec fn view(&self) -> VerifyModel {
        VerifyModel {
            emulator: maybe_text(self.emulator),
            check: maybe_text(self.check),
            inspect: maybe_text(self.inspect),
            output: maybe_text(self.output),
            expected_points: self.expected_points,
            expected_commits: self.expected_commits,
            writer_exit: self.writer_exit,
            writer_signal: self.writer_signal,
            checksum_ok: self.checksum_ok,
        }
    }
}

/// What an option with its value sets.
pub open spec fn verify_step(options: VerifyModel, flag: Seq<char>, value: Seq<char>) -> Result<
    VerifyModel,
    FaultModel,
> {
    if flag == "--emulator"@ {
        Ok(VerifyModel { emulator: Some(value), ..options })
    } else if flag == "--check"@ {
        Ok(VerifyModel { check: Some(value), ..options })
    } else if flag == "--inspect"@ {
        Ok(VerifyModel { inspect: Some(value), ..options })
    } else if flag == "--output"@ {
        Ok(VerifyModel { output: Some(value), ..options })
    } else if flag == "--expected-points"@ {
        match number_option("points"@, value) {
            Ok(n) => Ok(VerifyModel { expected_points: Some(n), ..options }),
            Err(fault) => Err(fault),
        }
    } else if flag == "--expected-commits"@ {
        match number_option("commits"@, value) {
            Ok(n) => Ok(VerifyModel { expected_commits: Some(n), ..options }),
            Err(fault) => Err(fault),
        }
    } else if flag == "--writer-exit"@ {
        match small_option("writer exit"@, value) {
            Ok(n) => Ok(VerifyModel { writer_exit: Some(n), ..options }),
            Err(fault) => Err(fault),
        }
    } else if flag == "--writer-signal"@ {
        match small_option("writer signal"@, value) {
            Ok(n) => Ok(VerifyModel { writer_signal: Some(n), ..options }),
            Err(fault) => Err(fault),
        }
    } else if flag == "--checksum-ok"@ {
        match bool_option("checksum status"@, value) {
            Ok(b) => Ok(VerifyModel { checksum_ok: Some(b), ..options }),
            Err(fault) => Err(fault),
        }
    } else {
        Err(FaultModel::Unknown(flag))
    }
}

/// What options with their values set, one after the other. The first that is wrong
/// counts.
pub open spec fn verify_steps(options: VerifyModel, arguments: Seq<Seq<char>>) -> Result<
    VerifyModel,
    FaultModel,
>
    decreases arguments.len(),
{
    if arguments.len() == 0 {
        Ok(options)
    } else if arguments.len() == 1 {
        Err(FaultModel::NeedsValue(arguments[0]))
    } else {
        match verify_step(options, arguments[0], arguments[1]) {
            Ok(next) => verify_steps(next, arguments.skip(2)),
            Err(fault) => Err(fault),
        }
    }
}

pub open spec fn verify_defaults() -> VerifyModel {
    VerifyModel {
        emulator: None,
        check: None,
        inspect: None,
        output: None,
        expected_points: None,
        expected_commits: None,
        writer_exit: None,
        writer_signal: None,
        checksum_ok: None,
    }
}

/// The options to verify with, which need three files and what is expected.
pub open spec fn verify_options_of(arguments: Seq<Seq<char>>) -> Result<VerifyModel, FaultModel> {
    match verify_steps(verify_defaults(), arguments) {
        Err(fault) => Err(fault),
        Ok(options) => if options.emulator is None {
            Err(FaultModel::Missing("verify needs --emulator"@))
        } else if options.check is None {
            Err(FaultModel::Missing("verify needs --check"@))
        } else if options.inspect is None {
            Err(FaultModel::Missing("verify needs --inspect"@))
        } else if options.expected_points is None {
            Err(FaultModel::Missing("verify needs --expected-points"@))
        } else if options.expected_commits is None {
            Err(FaultModel::Missing("verify needs --expected-commits"@))
        } else {
            Ok(options)
        },
    }
}

fn apply_verify_option(options: &mut VerifyOptions, flag: &str, value: &str) -> (outcome: Result<
    (),
    OptionFault,
>)
    ensures
        match outcome {
            Ok(()) => verify_step(old(options)@, flag@, value@) == Ok::<_, FaultModel>(
                final(options)@,
            ),
            Err(fault) => verify_step(old(options)@, flag@, value@) == Err::<VerifyModel, _>(
                fault@,
            ),
        },
{
    if same_text(flag, "--emulator") {
        options.emulator = Some(value.to_owned());
    } else if same_text(flag, "--check") {
        options.check = Some(value.to_owned());
    } else if same_text(flag, "--inspect") {
        options.inspect = Some(value.to_owned());
    } else if same_text(flag, "--output") {
        options.output = Some(value.to_owned());
    } else if same_text(flag, "--expected-points") {
        let n: u64 = parse_u64("points", value)?;
        options.expected_points = Some(n);
    } else if same_text(flag, "--expected-commits") {
        let n: u64 = parse_u64("commits", value)?;
        options.expected_commits = Some(n);
    } else if same_text(flag, "--writer-exit") {
        let n: i32 = parse_i32("writer exit", value)?;
        options.writer_exit = Some(n);
    } else if same_text(flag, "--writer-signal") {
        let n: i32 = parse_i32("writer signal", value)?;
        options.writer_signal = Some(n);
    } else if same_text(flag, "--checksum-ok") {
        let b: bool = parse_bool("checksum status", value)?;
        options.checksum_ok = Some(b);
    } else {
        return Err(OptionFault::Unknown { flag: flag.to_owned() });
    }
    Ok(())
}

/// Reads the options to verify with.
#[verifier::loop_isolation(false)]
pub fn parse_verify_options(arguments: &Vec<String>) -> (outcome: Result<
    VerifyOptions,
    OptionFault,
>)
    ensures
        match outcome {
            Ok(options) => verify_options_of(argument_texts(arguments@)) == Ok::<_, FaultModel>(
                options@,
            ),
            Err(fault) => verify_options_of(argument_texts(arguments@)) == Err::<VerifyModel, _>(
                fault@,
            ),
        },
{
    let ghost all = argument_texts(arguments@);
    let total: usize = arguments.len();
    let mut options = VerifyOptions {
        emulator: None,
        check: None,
        inspect: None,
        output: None,
        expected_points: None,
        expected_commits: None,
        writer_exit: None,
        writer_signal: None,
        checksum_ok: None,
    };
    let mut index: usize = 0;
    assert(all.skip(0) =~= all);
    while index < total
        invariant
            index <= total,
            verify_steps(verify_defaults(), all) == verify_steps(options@, all.skip(index as int)),
        decreases total - index,
    {
        let flag = arguments[index].as_str();
        assert(all.skip(index as int)[0] == flag@);
        if index + 1 >= total {
            return Err(OptionFault::NeedsValue { flag: flag.to_owned() });
        }
        let value = arguments[index + 1].as_str();
        proof {
            assert(all.skip(index as int)[1] == value@);
            assert(all.skip(index as int).skip(2) =~= all.skip(index + 2));
        }
        apply_verify_option(&mut options, flag, value)?;
        index = index + 2;
    }
    assert(all.skip(total as int).len() == 0);
    if options.emulator.is_none() {
        return Err(OptionFault::Missing("verify needs --emulator"));
    }
    if options.check.is_none() {
        return Err(OptionFault::Missing("verify needs --check"));
    }
    if options.inspect.is_none() {
        return Err(OptionFault::Missing("verify needs --inspect"));
    }
    if options.expected_points.is_none() {
        return Err(OptionFault::Missing("verify needs --expected-points"));
    }
    if options.expected_commits.is_none() {
        return Err(OptionFault::Missing("verify needs --expected-commits"));
    }
    Ok(options)
}

/// Has the power cut at an operation, where one is named. The first operation has the
/// number 1.
pub fn schedule_power_loss(profile: &mut Profile, operation: Option<u64>) -> (outcome: Result<
    (),
    &'static str,
>)
    ensures
        match operation {
            None => outcome is Ok && *final(profile) == *old(profile),
            Some(n) => if n == 0 {
                &&& outcome matches Err(text) && text@ == "power-loss operation must be positive"@
                &&& *final(profile) == *old(profile)
            } else {
                &&& outcome is Ok
                &&& *final(profile) == (Profile {
                    faults: FaultProfile {
                        power_loss_after_ops: Some(n),
                        ..old(profile).faults
                    },
                    ..*old(profile)
                })
            },
        },
{
    if let Some(n) = operation {
        if n == 0 {
            return Err("power-loss operation must be positive");
        }
        profile.faults.power_loss_after_ops = Some(n);
    }
    Ok(())
}

/// The address and the command that the arguments of `ctl` name.
pub open spec fn control_target(arguments: Seq<Seq<char>>) -> Option<(Seq<char>, Seq<char>)> {
    if arguments.len() == 1 {
        Some(("127.0.0.1:10810"@, arguments[0]))
    } else if arguments.len() == 3 && arguments[0] == "--control"@ {
        Some((arguments[1], arguments[2]))
    } else {
        None
    }
}

/// Reads the arguments of `ctl`: a command, and before it the address where it goes,
/// if that is not the usual one.
pub fn parse_control_target(arguments: &Vec<String>) -> (outcome: Result<
    (String, String),
    &'static str,
>)
    ensures
        match control_target(argument_texts(arguments@)) {
            Some((address, command)) => outcome matches Ok(target) && target.0@ == address
                && target.1@ == command,
            None => outcome matches Err(text) && text@
                == "use: ftw-sd-emulator ctl [--control HOST:PORT] COMMAND"@,
        },
{
    let n: usize = arguments.len();
    proof {
        if n == 3 {
            assert(argument_texts(arguments@)[0] == arguments@[0]@);
        }
    }
    if n == 1 {
        return Ok(("127.0.0.1:10810".to_owned(), arguments[0].clone()));
    }
    if n == 3 && same_text(arguments[0].as_str(), "--control") {
        return Ok((arguments[1].clone(), arguments[2].clone()));
    }
    Err("use: ftw-sd-emulator ctl [--control HOST:PORT] COMMAND")
}

/// Whether a reply of the emulator says that it carried out the command. A reply that
/// is no JSON says nothing.
pub fn control_accepted(response: &str) -> (outcome: Result<bool, String>)
    ensures
        match json_members_of(trimmed(response@)) {
            Err(reason) => outcome matches Err(text) && text@ == reason,
            Ok(members) => outcome == Ok::<bool, String>(
                member_of(members, "ok"@) == Some(JsonModel::Bool(true)),
            ),
        },
{
    let text = text_of(trim(characters(response).as_slice()).as_slice());
    match json_members(text.as_str()) {
        Err(reason) => Err(reason),
        Ok(members) => match find_member(&members, "ok") {
            Some(JsonValue::Bool(ok)) => Ok(*ok),
            _ => Ok(false),
        },
    }
}

} // verus!
