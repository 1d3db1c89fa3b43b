//! The configuration file of the host agent.
use vstd::prelude::*;
use vstd::seq_lib::*;
use vstd::string::*;
use vstd::utf8::*;

use crate::config;
use crate::config::{all_token_bytes, MAX_TOKEN_LEN, MIN_TOKEN_LEN};
use crate::numbers;
use crate::numbers::{append_unsigned, parse_u32, parse_u8, parse_unsigned};
use crate::policy;
use crate::policy::{parse_curve, FanPolicyConfig, MilliCelsius, PolicyConfigError};
use crate::text;
use crate::text::{contains_text, same_text, split, split_once, starts_with, trim};

verus! {

pub const DEFAULT_DESTINATION: &'static str = "255.255.255.255:42110";

pub const DEFAULT_INTERVAL_MILLIS: u64 = 1_000;

pub const MIN_INTERVAL_MILLIS: u64 = 250;

pub const MAX_INTERVAL_MILLIS: u64 = 60_000;

/// What the agent goes by. `D` is the type of a network address.
#[derive(Debug)]
pub struct AgentConfig<D> {
    pub token: String,
    pub destination: D,
    pub interval_millis: u64,
    pub policy: FanPolicyConfig,
}

/// Why a configuration file was turned down.
#[derive(Debug, PartialEq, Eq)]
pub enum ConfigError {
    InvalidLine(usize),
    MissingToken,
    InvalidToken,
    InvalidDestination,
    InvalidInterval,
    InvalidPolicy(PolicyConfigError),
    DuplicateKey(String),
    UnknownKey(String),
}

/// What the agent goes by, in texts.
pub struct AgentSettings<D> {
    pub token: Seq<char>,
    pub destination: D,
    pub interval_millis: u64,
    pub policy: policy::PolicySettings,
}

/// Why a configuration file was turned down, in texts.
pub enum ConfigFault {
    InvalidLine(nat),
    MissingToken,
    InvalidToken,
    InvalidDestination,
    InvalidInterval,
    InvalidPolicy(PolicyConfigError),
    DuplicateKey(Seq<char>),
    UnknownKey(Seq<char>),
}

/// What the lines of a file have said so far.
pub struct ConfigFacts<D> {
    pub token: Option<Seq<char>>,
    pub destination: Option<D>,
    pub interval_millis: Option<nat>,
    pub policy: policy::PolicySettings,
}

impl<D> View for AgentConfig<D> {
    type V = AgentSettings<D>;

    open spec fn view(&self) -> AgentSettings<D> {
        AgentSettings {
            token: self.token@,
            destination: self.destination,
            interval_millis: self.interval_millis,
            policy: self.policy@,
        }
    }
}

impl View for ConfigError {
    type V = ConfigFault;

    open spec fn view(&self) -> ConfigFault {
        match self {
            ConfigError::InvalidLine(line) => ConfigFault::InvalidLine(*line as nat),
            ConfigError::MissingToken => ConfigFault::MissingToken,
            ConfigError::InvalidToken => ConfigFault::InvalidToken,
            ConfigError::InvalidDestination => ConfigFault::InvalidDestination,
            ConfigError::InvalidInterval => ConfigFault::InvalidInterval,
            ConfigError::InvalidPolicy(error) => ConfigFault::InvalidPolicy(*error),
            ConfigError::DuplicateKey(key) => ConfigFault::DuplicateKey(key@),
            ConfigError::UnknownKey(key) => ConfigFault::UnknownKey(key@),
        }
    }
}

/// Whether `address` is what `parse` makes of a text.
pub open spec fn addresses_as<D, P: Fn(&str) -> Option<D>>(
    parse: P,
    address: spec_fn(Seq<char>) -> Option<D>,
) -> bool {
    forall|value: &str, result: Option<D>| #[trigger]
        call_ensures(parse, (value,), result) ==> result == address(value@)
}

/// The emergency temperature that a reading gives: within range before it is
/// rounded.
pub open spec fn emergency_milli_c(milli_c: MilliCelsius) -> Option<i32> {
    if i32::MIN <= milli_c.floor && milli_c.ceiling <= i32::MAX {
        Some(milli_c.nearest as i32)
    } else {
        None
    }
}

/// What is known of the policy after a line that sets `key` to `value`, or
/// nothing where `key` is not part of the policy.
pub open spec fn policy_setting(
    policy: policy::PolicySettings,
    key: Seq<char>,
    value: Seq<char>,
    reading: spec_fn(Seq<char>) -> Option<MilliCelsius>,
) -> Option<Result<policy::PolicySettings, PolicyConfigError>> {
    let small = numbers::unsigned_number(value, u8::MAX as nat);
    if key == "curve"@ {
        match policy::curve_in(value, reading) {
            Some(curve) => Some(Ok(policy::PolicySettings { curve, ..policy })),
            None => Some(Err(PolicyConfigError::InvalidCurve)),
        }
    } else if key == "smoothing_seconds"@ {
        match numbers::unsigned_number(value, u32::MAX as nat) {
            Some(seconds) => Some(
                Ok(policy::PolicySettings { smoothing_seconds: seconds as u32, ..policy }),
            ),
            None => Some(Err(PolicyConfigError::InvalidSmoothing)),
        }
    } else if key == "duty_step_percent"@ {
        match small {
            Some(percent) => Some(
                Ok(policy::PolicySettings { duty_step_percent: percent as u8, ..policy }),
            ),
            None => Some(Err(PolicyConfigError::InvalidDutyStep)),
        }
    } else if key == "duty_hysteresis_percent"@ {
        match small {
            Some(percent) => Some(
                Ok(policy::PolicySettings { duty_hysteresis_percent: percent as u8, ..policy }),
            ),
            None => Some(Err(PolicyConfigError::InvalidHysteresis)),
        }
    } else if key == "ramp_up_percent_per_second"@ {
        match small {
            Some(percent) => Some(
                Ok(policy::PolicySettings { ramp_up_percent_per_second: percent as u8, ..policy }),
            ),
            None => Some(Err(PolicyConfigError::InvalidRamp)),
        }
    } else if key == "ramp_down_percent_per_second"@ {
        match small {
            Some(percent) => Some(
                Ok(policy::PolicySettings { ramp_down_percent_per_second: percent as u8, ..policy }),
            ),
            None => Some(Err(PolicyConfigError::InvalidRamp)),
        }
    } else if key == "emergency_temperature_c"@ {
        match reading(value) {
            Some(milli_c) => match emergency_milli_c(milli_c) {
                Some(temperature) => Some(
                    Ok(policy::PolicySettings { emergency_temperature_milli_c: temperature, ..policy }),
                ),
                None => Some(Err(PolicyConfigError::InvalidEmergencyTemperature)),
            },
            None => Some(Err(PolicyConfigError::InvalidEmergencyTemperature)),
        }
    } else {
        None
    }
}

/// What is known after a line that sets `key` to `value`.
pub open spec fn setting<D>(
    facts: ConfigFacts<D>,
    key: Seq<char>,
    value: Seq<char>,
    address: spec_fn(Seq<char>) -> Option<D>,
    reading: spec_fn(Seq<char>) -> Option<MilliCelsius>,
) -> Result<ConfigFacts<D>, ConfigFault> {
    if key == "token"@ {
        Ok(ConfigFacts { token: Some(value), ..facts })
    } else if key == "destination"@ {
        match address(value) {
            Some(destination) => Ok(ConfigFacts { destination: Some(destination), ..facts }),
            None => Err(ConfigFault::InvalidDestination),
        }
    } else if key == "interval_ms"@ {
        match numbers::unsigned_number(value, u64::MAX as nat) {
            Some(millis) => Ok(ConfigFacts { interval_millis: Some(millis), ..facts }),
            None => Err(ConfigFault::InvalidInterval),
        }
    } else {
        match policy_setting(facts.policy, key, value, reading) {
            Some(Ok(policy)) => Ok(ConfigFacts { policy, ..facts }),
            Some(Err(error)) => Err(ConfigFault::InvalidPolicy(error)),
            None => Err(ConfigFault::UnknownKey(key)),
        }
    }
}

/// The key and the value of a line, or nothing where it sets none.
pub open spec fn assignment(line: Seq<char>) -> Option<(Seq<char>, Seq<char>)> {
    match text::cut_once(line, '=') {
        Some((key, value)) => Some((text::trimmed(key), text::trimmed(value))),
        None => None,
    }
}

/// Whether a line says nothing: it is empty or a comment.
pub open spec fn is_idle(line: Seq<char>) -> bool {
    line.len() == 0 || line[0] == '#'
}

/// What is known after these lines. `seen` holds the keys of the lines before,
/// of which there were `count`.
pub open spec fn config_lines<D>(
    facts: ConfigFacts<D>,
    seen: Seq<Seq<char>>,
    lines: Seq<Seq<char>>,
    count: nat,
    address: spec_fn(Seq<char>) -> Option<D>,
    reading: spec_fn(Seq<char>) -> Option<MilliCelsius>,
) -> Result<ConfigFacts<D>, ConfigFault>
    decreases lines.len(),
{
    if lines.len() == 0 {
        Ok(facts)
    } else {
        let line = text::trimmed(lines[0]);
        let rest = lines.drop_first();
        if is_idle(line) {
            config_lines(facts, seen, rest, count + 1, address, reading)
        } else {
            match assignment(line) {
                None => Err(ConfigFault::InvalidLine(count + 1)),
                Some((key, value)) => if seen.contains(key) {
                    Err(ConfigFault::DuplicateKey(key))
                } else {
                    match setting(facts, key, value, address, reading) {
                        Ok(next) => config_lines(
                            next,
                            seen.push(key),
                            rest,
                            count + 1,
                            address,
                            reading,
                        ),
                        Err(fault) => Err(fault),
                    }
                },
            }
        }
    }
}

/// What the agent goes by once all lines were read.
pub open spec fn finished<D>(
    facts: ConfigFacts<D>,
    address: spec_fn(Seq<char>) -> Option<D>,
) -> Result<AgentSettings<D>, ConfigFault> {
    let interval_millis = match facts.interval_millis {
        Some(millis) => millis,
        None => DEFAULT_INTERVAL_MILLIS as nat,
    };
    match facts.token {
        None => Err(ConfigFault::MissingToken),
        Some(token) => if !config::valid_token(token) {
            Err(ConfigFault::InvalidToken)
        } else if !(MIN_INTERVAL_MILLIS <= interval_millis <= MAX_INTERVAL_MILLIS) {
            Err(ConfigFault::InvalidInterval)
        } else {
            match facts.policy.checked() {
                Err(error) => Err(ConfigFault::InvalidPolicy(error)),
                Ok(()) => Ok(
                    AgentSettings {
                        token,
                        destination: match facts.destination {
                            Some(destination) => destination,
                            None => address(DEFAULT_DESTINATION@)->0,
                        },
                        interval_millis: interval_millis as u64,
                        policy: facts.policy,
                    },
                ),
            }
        },
    }
}

/// What is known before any line was read.
pub open spec fn no_facts<D>() -> ConfigFacts<D> {
    ConfigFacts {
        token: None,
        destination: None,
        interval_millis: None,
        policy: policy::default_settings(),
    }
}

/// What the agent goes by, by the contents of its configuration file.
pub open spec fn config_in<D>(
    contents: Seq<char>,
    address: spec_fn(Seq<char>) -> Option<D>,
    reading: spec_fn(Seq<char>) -> Option<MilliCelsius>,
) -> Result<AgentSettings<D>, ConfigFault> {
    match config_lines(no_facts(), seq![], text::pieces(contents, '\n'), 0, address, reading) {
        Ok(facts) => finished(facts, address),
        Err(fault) => Err(fault),
    }
}

/// What is known of the policy after a line that sets `key` to `value`, or
/// nothing where `key` is not part of the policy.
fn set_policy<F: Fn(&str) -> Option<MilliCelsius>>(
    policy: &mut FanPolicyConfig,
    key: &str,
    value: &str,
    read: &F,
) -> (result: Option<Result<(), PolicyConfigError>>)
    requires
        forall|value: &str| #[trigger] call_requires(*read, (value,)),
    ensures
        forall|reading: spec_fn(Seq<char>) -> Option<MilliCelsius>| #[trigger]
            policy::reads_as(*read, reading) ==> policy_setting(old(policy)@, key@, value@, reading)
                == match result {
                Some(Ok(())) => Some(Ok::<policy::PolicySettings, PolicyConfigError>(final(policy)@)),
                Some(Err(error)) => Some(Err(error)),
                None => None,
            },
{
    if same_text(key, "curve") {
        match parse_curve(value, read) {
            Ok(curve) => {
                policy.curve = curve;
            },
            Err(error) => {
                return Some(Err(error));
            },
        }
    } else if same_text(key, "smoothing_seconds") {
        match parse_u32(value) {
            Some(seconds) => {
                policy.smoothing_seconds = seconds;
            },
            None => {
                return Some(Err(PolicyConfigError::InvalidSmoothing));
            },
        }
    } else if same_text(key, "duty_step_percent") {
        match parse_u8(value) {
            Some(percent) => {
                policy.duty_step_percent = percent;
            },
            None => {
                return Some(Err(PolicyConfigError::InvalidDutyStep));
            },
        }
    } else if same_text(key, "duty_hysteresis_percent") {
        match parse_u8(value) {
            Some(percent) => {
                policy.duty_hysteresis_percent = percent;
            },
            None => {
                return Some(Err(PolicyConfigError::InvalidHysteresis));
            },
        }
    } else if same_text(key, "ramp_up_percent_per_second") {
        match parse_u8(value) {
            Some(percent) => {
                policy.ramp_up_percent_per_second = percent;
            },
            None => {
                return Some(Err(PolicyConfigError::InvalidRamp));
            },
        }
    } else if same_text(key, "ramp_down_percent_per_second") {
        match parse_u8(value) {
            Some(percent) => {
                policy.ramp_down_percent_per_second = percent;
            },
            None => {
                return Some(Err(PolicyConfigError::InvalidRamp));
            },
        }
    } else if same_text(key, "emergency_temperature_c") {
        let milli_c = match read(value) {
            Some(milli_c) => milli_c,
            None => {
                return Some(Err(PolicyConfigError::InvalidEmergencyTemperature));
            },
        };
        if milli_c.floor < i32::MIN as i64 || milli_c.ceiling > i32::MAX as i64 {
            return Some(Err(PolicyConfigError::InvalidEmergencyTemperature));
        }
        policy.emergency_temperature_milli_c = milli_c.nearest as i32;
    } else {
        return None;
    }
    Some(Ok(()))
}

/// What the lines of a file have said so far.
struct Draft<'a, D> {
    token: Option<&'a str>,
    destination: Option<D>,
    interval_millis: Option<u64>,
    policy: FanPolicyConfig,
}

impl<'a, D> View for Draft<'a, D> {
    type V = ConfigFacts<D>;

    closed spec fn view(&self) -> ConfigFacts<D> {
        ConfigFacts {
            token: match self.token {
                Some(token) => Some(token@),
                None => None,
            },
            destination: self.destination,
            interval_millis: match self.interval_millis {
                Some(millis) => Some(millis as nat),
                None => None,
            },
            policy: self.policy@,
        }
    }
}

/// Takes note of a line that sets `key` to `value`.
fn set<'a, D, P: Fn(&str) -> Option<D>, F: Fn(&str) -> Option<MilliCelsius>>(
    draft: &mut Draft<'a, D>,
    key: &'a str,
    value: &'a str,
    parse_destination: &P,
    read: &F,
) -> (result: Result<(), ConfigError>)
    requires
        forall|value: &str| #[trigger] call_requires(*parse_destination, (value,)),
        forall|value: &str| #[trigger] call_requires(*read, (value,)),
    ensures
        forall|
            address: spec_fn(Seq<char>) -> Option<D>,
            reading: spec_fn(Seq<char>) -> Option<MilliCelsius>,
        |
            #[trigger] addresses_as(*parse_destination, address) && #[trigger] policy::reads_as(*read, reading)
                ==> setting(old(draft)@, key@, value@, address, reading) == match result {
                Ok(()) => Ok::<ConfigFacts<D>, ConfigFault>(final(draft)@),
                Err(error) => Err(error@),
            },
{
    if same_text(key, "token") {
        draft.token = Some(value);
    } else if same_text(key, "destination") {
        match parse_destination(value) {
            Some(destination) => {
                draft.destination = Some(destination);
            },
            None => {
                return Err(ConfigError::InvalidDestination);
            },
        }
    } else if same_text(key, "interval_ms") {
        match parse_unsigned(value, u64::MAX) {
            Some(millis) => {
                draft.interval_millis = Some(millis);
            },
            None => {
                return Err(ConfigError::InvalidInterval);
            },
        }
    } else {
        match set_policy(&mut draft.policy, key, value, read) {
            Some(Ok(())) => {},
            Some(Err(error)) => {
                return Err(ConfigError::InvalidPolicy(error));
            },
            None => {
                return Err(ConfigError::UnknownKey(key.to_owned()));
            },
        }
    }
    Ok(())
}

/// What the lines of a file say.
fn read_lines<'a, D, P: Fn(&str) -> Option<D>, F: Fn(&str) -> Option<MilliCelsius>>(
    lines: &Vec<&'a str>,
    parse_destination: &P,
    read: &F,
) -> (result: Result<Draft<'a, D>, ConfigError>)
    requires
        forall|value: &str| #[trigger] call_requires(*parse_destination, (value,)),
        forall|value: &str| #[trigger] call_requires(*read, (value,)),
    ensures
        forall|
            address: spec_fn(Seq<char>) -> Option<D>,
            reading: spec_fn(Seq<char>) -> Option<MilliCelsius>,
        |
            #[trigger] addresses_as(*parse_destination, address) && #[trigger] policy::reads_as(*read, reading)
                ==> config_lines(no_facts(), seq![], text::texts(lines@), 0, address, reading) == match result {
                Ok(draft) => Ok::<ConfigFacts<D>, ConfigFault>(draft@),
                Err(error) => Err(error@),
            },
{
    let mut draft: Draft<'a, D> = Draft {
        token: None,
        destination: None,
        interval_millis: None,
        policy: FanPolicyConfig::default(),
    };
    let mut seen: Vec<&'a str> = Vec::new();
    let ghost all = text::texts(lines@);
    let mut i: usize = 0;
    proof {
        assert(all.skip(0) =~= all);
        assert(text::texts(seen@) =~= seq![]);
        assert(draft@ == no_facts::<D>());
    }
    while i < lines.len()
        invariant
            i <= lines.len(),
            all == text::texts(lines@),
            forall|value: &str| #[trigger] call_requires(*parse_destination, (value,)),
            forall|value: &str| #[trigger] call_requires(*read, (value,)),
            forall|
                address: spec_fn(Seq<char>) -> Option<D>,
                reading: spec_fn(Seq<char>) -> Option<MilliCelsius>,
            |
                #[trigger] addresses_as(*parse_destination, address) && #[trigger] policy::reads_as(
                    *read,
                    reading,
                ) ==> config_lines(
                    draft@,
                    text::texts(seen@),
                    all.skip(i as int),
                    i as nat,
                    address,
                    reading,
                ) == config_lines(no_facts(), seq![], all, 0, address, reading),
        decreases lines.len() - i,
    {
        assert(all.skip(i as int)[0] == lines[i as int]@);
        assert(all.skip(i as int).drop_first() =~= all.skip(i + 1));
        let line = trim(lines[i]);
        if !line_is_idle(line) {
            let (key, value) = match split_once(line, '=') {
                Some((key, value)) => (trim(key), trim(value)),
                None => {
                    return Err(ConfigError::InvalidLine(i + 1));
                },
            };
            if contains_text(&seen, key) {
                return Err(ConfigError::DuplicateKey(key.to_owned()));
            }
            match set(&mut draft, key, value, parse_destination, read) {
                Ok(()) => {},
                Err(error) => {
                    return Err(error);
                },
            }
            let ghost before = text::texts(seen@);
            seen.push(key);
            assert(text::texts(seen@) =~= before.push(key@));
        }
        i += 1;
    }
    Ok(draft)
}

/// Whether a line says nothing: it is empty or a comment.
fn line_is_idle(line: &str) -> (idle: bool)
    ensures
        idle == is_idle(line@),
{
    proof {
        reveal_strlit("");
        reveal_strlit("#");
        assert(line@.len() == 0 ==> line@ =~= ""@);
        assert(line@.len() > 0 && line@[0] == '#' ==> "#"@ =~= line@.take(1));
        assert("#"@.is_prefix_of(line@) ==> line@[0] == "#"@[0]);
    }
    same_text(line, "") || starts_with(line, "#")
}

/// What the agent goes by, by the contents of its configuration file.
/// `parse_destination` makes a network address of its text, and `read` a
/// temperature of the text of a number of degrees; either gives nothing where
/// the text is not of that kind.
pub fn parse_config<D, P: Fn(&str) -> Option<D>, F: Fn(&str) -> Option<MilliCelsius>>(
    contents: &str,
    parse_destination: &P,
    read: &F,
) -> (result: Result<AgentConfig<D>, ConfigError>)
    requires
        forall|value: &str| #[trigger] call_requires(*parse_destination, (value,)),
        forall|value: &str| #[trigger] call_requires(*read, (value,)),
        forall|value: &str, destination: Option<D>|
            value@ == DEFAULT_DESTINATION@ && #[trigger] call_ensures(
                *parse_destination,
                (value,),
                destination,
            ) ==> destination is Some,
    ensures
        forall|
            address: spec_fn(Seq<char>) -> Option<D>,
            reading: spec_fn(Seq<char>) -> Option<MilliCelsius>,
        |
            #[trigger] addresses_as(*parse_destination, address) && #[trigger] policy::reads_as(*read, reading)
                ==> config_in(contents@, address, reading) == match result {
                Ok(config) => Ok::<AgentSettings<D>, ConfigFault>(config@),
                Err(error) => Err(error@),
            },
{
    let lines = split(contents, '\n');
    let draft = match read_lines(&lines, parse_destination, read) {
        Ok(draft) => draft,
        Err(error) => {
            return Err(error);
        },
    };
    let token = match draft.token {
        Some(token) => token,
        None => {
            return Err(ConfigError::MissingToken);
        },
    };
    let bytes = token.as_bytes();
    if bytes.len() < MIN_TOKEN_LEN || bytes.len() > MAX_TOKEN_LEN || !all_token_bytes(bytes) {
        return Err(ConfigError::InvalidToken);
    }
    let interval_millis: u64 = match draft.interval_millis {
        Some(millis) => millis,
        None => DEFAULT_INTERVAL_MILLIS,
    };
    if interval_millis < MIN_INTERVAL_MILLIS || interval_millis > MAX_INTERVAL_MILLIS {
        return Err(ConfigError::InvalidInterval);
    }
    match draft.policy.validate() {
        Ok(()) => {},
        Err(error) => {
            return Err(ConfigError::InvalidPolicy(error));
        },
    }
    let destination = match draft.destination {
        Some(destination) => destination,
        None => parse_destination(DEFAULT_DESTINATION).unwrap(),
    };
    Ok(AgentConfig { token: token.to_owned(), destination, interval_millis, policy: draft.policy })
}

/// What to tell a user about an error.
pub open spec fn fault_text(fault: ConfigFault) -> Seq<char> {
    match fault {
        ConfigFault::InvalidLine(line) => "invalid config line "@ + numbers::decimal(line),
        ConfigFault::MissingToken => "config is missing token"@,
        ConfigFault::InvalidToken => "token must contain 16-32 letters, numbers, underscores, or hyphens"@,
        ConfigFault::InvalidDestination => "invalid destination socket address"@,
        ConfigFault::InvalidInterval => "interval_ms must be between 250 and 60000"@,
        ConfigFault::InvalidPolicy(error) => "invalid fan policy: "@ + policy::error_text(error),
        ConfigFault::DuplicateKey(key) => "duplicate config key "@ + key,
        ConfigFault::UnknownKey(key) => "unknown config key "@ + key,
    }
}

impl ConfigError {
    /// What to tell a user about the error.
    pub fn message(&self) -> (message: String)
        ensures
            message@ == fault_text(self@),
    {
        match self {
            ConfigError::InvalidLine(line) => {
                let mut message = "invalid config line ".to_owned();
                append_unsigned(&mut message, *line as u64);
                message
            },
            ConfigError::MissingToken => "config is missing token".to_owned(),
            ConfigError::InvalidToken =>
                "token must contain 16-32 letters, numbers, underscores, or hyphens".to_owned(),
            ConfigError::InvalidDestination => "invalid destination socket address".to_owned(),
            ConfigError::InvalidInterval => "interval_ms must be between 250 and 60000".to_owned(),
            ConfigError::InvalidPolicy(error) => {
                let mut message = "invalid fan policy: ".to_owned();
                message.append(error.message());
                message
            },
            ConfigError::DuplicateKey(key) => {
                let mut message = "duplicate config key ".to_owned();
                message.append(key.as_str());
                message
            },
            ConfigError::UnknownKey(key) => {
                let mut message = "unknown config key ".to_owned();
                message.append(key.as_str());
                message
            },
        }
    }
}

/// A configuration that is accepted has a token that the controller takes, an
/// interval in range, and a policy that can be followed.
pub proof fn law_accepted_configuration_is_valid<D>(
    contents: Seq<char>,
    address: spec_fn(Seq<char>) -> Option<D>,
    reading: spec_fn(Seq<char>) -> Option<MilliCelsius>,
)
    ensures
        config_in(contents, address, reading) matches Ok(settings) ==> {
            &&& config::valid_token(settings.token)
            &&& MIN_INTERVAL_MILLIS <= settings.interval_millis <= MAX_INTERVAL_MILLIS
            &&& settings.policy.valid()
        },
{
}

/// The key that a line sets, or nothing where it says nothing.
pub open spec fn key_of(line: Seq<char>) -> Option<Seq<char>> {
    if is_idle(text::trimmed(line)) {
        None
    } else {
        match assignment(text::trimmed(line)) {
            Some((key, _)) => Some(key),
            None => None,
        }
    }
}

proof fn lemma_keys_are_distinct<D>(
    facts: ConfigFacts<D>,
    seen: Seq<Seq<char>>,
    lines: Seq<Seq<char>>,
    count: nat,
    address: spec_fn(Seq<char>) -> Option<D>,
    reading: spec_fn(Seq<char>) -> Option<MilliCelsius>,
)
    requires
        config_lines(facts, seen, lines, count, address, reading) is Ok,
    ensures
        forall|i: int|
            0 <= i < lines.len() ==> (key_of(#[trigger] lines[i]) matches Some(key) ==> !seen.contains(key)),
        forall|i: int, j: int|
            0 <= i < j < lines.len() && key_of(#[trigger] lines[i]) is Some ==> key_of(lines[i]) != key_of(
                #[trigger] lines[j],
            ),
    decreases lines.len(),
{
    if lines.len() > 0 {
        let line = text::trimmed(lines[0]);
        let rest = lines.drop_first();
        assert forall|i: int| 0 < i < lines.len() implies #[trigger] lines[i] == rest[i - 1] by {
        }
        if is_idle(line) {
            lemma_keys_are_distinct(facts, seen, rest, count + 1, address, reading);
        } else {
            let (key, value) = assignment(line)->0;
            let next = setting(facts, key, value, address, reading)->Ok_0;
            lemma_keys_are_distinct(next, seen.push(key), rest, count + 1, address, reading);
            assert forall|other: Seq<char>| !seen.push(key).contains(other) implies !seen.contains(other)
                && other != key by {
                if seen.contains(other) {
                    let k = choose|k: int| 0 <= k < seen.len() && seen[k] == other;
                    assert(seen.push(key)[k] == other);
                }
                assert(seen.push(key).last() == key);
            }
        }
    }
}

/// In a file that is accepted, no two lines set the same key.
pub proof fn law_accepted_keys_are_distinct<D>(
    contents: Seq<char>,
    address: spec_fn(Seq<char>) -> Option<D>,
    reading: spec_fn(Seq<char>) -> Option<MilliCelsius>,
    first: int,
    second: int,
)
    requires
        config_in(contents, address, reading) is Ok,
        0 <= first < second < text::pieces(contents, '\n').len(),
        key_of(text::pieces(contents, '\n')[first]) is Some,
    ensures
        key_of(text::pieces(contents, '\n')[first]) != key_of(text::pieces(contents, '\n')[second]),
{
    lemma_keys_are_distinct(
        no_facts(),
        seq![],
        text::pieces(contents, '\n'),
        0,
        address,
        reading,
    );
}

/// What the lines set, in their order: a key and a value, or nothing where a
/// line sets none. Lines that say nothing are left out.
pub open spec fn entries(lines: Seq<Seq<char>>) -> Seq<Option<(Seq<char>, Seq<char>)>>
    decreases lines.len(),
{
    if lines.len() == 0 {
        seq![]
    } else {
        entry_of(lines[0]) + entries(lines.drop_first())
    }
}

/// What one line sets, if it says anything.
pub open spec fn entry_of(line: Seq<char>) -> Seq<Option<(Seq<char>, Seq<char>)>> {
    if is_idle(text::trimmed(line)) {
        seq![]
    } else {
        seq![assignment(text::trimmed(line))]
    }
}

/// The key of an entry.
spec fn entry_key(entry: Option<(Seq<char>, Seq<char>)>) -> Option<Seq<char>> {
    match entry {
        Some((key, _)) => Some(key),
        None => None,
    }
}

/// Whether no two entries have the same key.
spec fn are_distinct(list: Seq<Option<(Seq<char>, Seq<char>)>>) -> bool {
    forall|i: int, j: int|
        0 <= i < j < list.len() ==> entry_key(#[trigger] list[i]) != entry_key(#[trigger] list[j])
}

/// Whether no entry has a key that was seen.
spec fn are_unseen(list: Seq<Option<(Seq<char>, Seq<char>)>>, seen: Seq<Seq<char>>) -> bool {
    forall|i: int|
        0 <= i < list.len() ==> (entry_key(#[trigger] list[i]) matches Some(key) ==> !seen.contains(key))
}

/// What is known after these entries, where each can be taken.
spec fn taken<D>(
    facts: ConfigFacts<D>,
    list: Seq<Option<(Seq<char>, Seq<char>)>>,
    address: spec_fn(Seq<char>) -> Option<D>,
    reading: spec_fn(Seq<char>) -> Option<MilliCelsius>,
) -> Option<ConfigFacts<D>>
    decreases list.len(),
{
    if list.len() == 0 {
        Some(facts)
    } else {
        match list[0] {
            None => None,
            Some((key, value)) => match setting(facts, key, value, address, reading) {
                Ok(next) => taken(next, list.drop_first(), address, reading),
                Err(_) => None,
            },
        }
    }
}

proof fn lemma_front_apart(
    front: Option<(Seq<char>, Seq<char>)>,
    rest: Seq<Option<(Seq<char>, Seq<char>)>>,
    seen: Seq<Seq<char>>,
)
    requires
        front is Some,
    ensures
        are_distinct(seq![front] + rest) && are_unseen(seq![front] + rest, seen) <==> are_distinct(rest)
            && !seen.contains(entry_key(front)->0) && are_unseen(rest, seen.push(entry_key(front)->0)),
{
    let list = seq![front] + rest;
    let key = entry_key(front)->0;
    let longer = seen.push(key);
    assert(list[0] == front);
    assert forall|other: Seq<char>| #[trigger] longer.contains(other) <==> seen.contains(other) || other == key by {
        if seen.contains(other) {
            let k = choose|k: int| 0 <= k < seen.len() && seen[k] == other;
            assert(longer[k] == other);
        }
        assert(longer[seen.len() as int] == key);
    }
    if are_distinct(list) && are_unseen(list, seen) {
        assert forall|i: int, j: int| 0 <= i < j < rest.len() implies entry_key(#[trigger] rest[i]) != entry_key(
            #[trigger] rest[j],
        ) by {
            assert(list[i + 1] == rest[i] && list[j + 1] == rest[j]);
        }
        assert forall|i: int| 0 <= i < rest.len() implies (entry_key(#[trigger] rest[i]) matches Some(k)
            ==> !longer.contains(k)) by {
            assert(list[i + 1] == rest[i]);
            assert(entry_key(list[0]) != entry_key(list[i + 1]));
        }
    }
    if are_distinct(rest) && !seen.contains(key) && are_unseen(rest, longer) {
        assert forall|i: int| 0 <= i < list.len() implies (entry_key(#[trigger] list[i]) matches Some(k)
            ==> !seen.contains(k)) by {
            if i > 0 {
                assert(list[i] == rest[i - 1]);
            }
        }
        assert forall|i: int, j: int| 0 <= i < j < list.len() implies entry_key(#[trigger] list[i]) != entry_key(
            #[trigger] list[j],
        ) by {
            assert(list[j] == rest[j - 1]);
            if i > 0 {
                assert(list[i] == rest[i - 1]);
            }
        }
    }
}

/// Lines are accepted where each of their entries can be taken and no key comes
/// twice.
proof fn lemma_lines_are_their_entries<D>(
    facts: ConfigFacts<D>,
    seen: Seq<Seq<char>>,
    lines: Seq<Seq<char>>,
    count: nat,
    address: spec_fn(Seq<char>) -> Option<D>,
    reading: spec_fn(Seq<char>) -> Option<MilliCelsius>,
)
    ensures
        match config_lines(facts, seen, lines, count, address, reading) {
            Ok(last) => {
                &&& taken(facts, entries(lines), address, reading) == Some(last)
                &&& are_distinct(entries(lines))
                &&& are_unseen(entries(lines), seen)
            },
            Err(_) => {
                ||| taken(facts, entries(lines), address, reading) is None
                ||| !are_distinct(entries(lines))
                ||| !are_unseen(entries(lines), seen)
            },
        },
    decreases lines.len(),
{
    if lines.len() > 0 {
        let line = text::trimmed(lines[0]);
        let rest = lines.drop_first();
        let behind = entries(rest);
        if is_idle(line) {
            assert(entries(lines) =~= behind);
            lemma_lines_are_their_entries(facts, seen, rest, count + 1, address, reading);
        } else {
            let front = assignment(line);
            let list = entries(lines);
            assert(list =~= seq![front] + behind);
            assert(list[0] == front);
            assert(list.drop_first() =~= behind);
            if let Some((key, value)) = front {
                lemma_front_apart(front, behind, seen);
                if let Ok(next) = setting(facts, key, value, address, reading) {
                    lemma_lines_are_their_entries(
                        next,
                        seen.push(key),
                        rest,
                        count + 1,
                        address,
                        reading,
                    );
                }
            }
        }
    }
}

/// Two settings of different keys may be made in either order.
proof fn lemma_settings_commute<D>(
    facts: ConfigFacts<D>,
    first: (Seq<char>, Seq<char>),
    second: (Seq<char>, Seq<char>),
    address: spec_fn(Seq<char>) -> Option<D>,
    reading: spec_fn(Seq<char>) -> Option<MilliCelsius>,
)
    requires
        first.0 != second.0,
        setting(facts, first.0, first.1, address, reading) is Ok,
        setting(
            setting(facts, first.0, first.1, address, reading)->Ok_0,
            second.0,
            second.1,
            address,
            reading,
        ) is Ok,
    ensures
        setting(facts, second.0, second.1, address, reading) is Ok,
        setting(
            setting(facts, second.0, second.1, address, reading)->Ok_0,
            first.0,
            first.1,
            address,
            reading,
        ) == setting(
            setting(facts, first.0, first.1, address, reading)->Ok_0,
            second.0,
            second.1,
            address,
            reading,
        ),
{
}

/// An entry may be taken before those in front of it.
proof fn lemma_taken_first<D>(
    facts: ConfigFacts<D>,
    list: Seq<Option<(Seq<char>, Seq<char>)>>,
    i: int,
    address: spec_fn(Seq<char>) -> Option<D>,
    reading: spec_fn(Seq<char>) -> Option<MilliCelsius>,
)
    requires
        0 <= i < list.len(),
        forall|j: int| 0 <= j < i ==> entry_key(#[trigger] list[j]) != entry_key(list[i]),
        taken(facts, seq![list[i]] + list.remove(i), address, reading) is Some,
    ensures
        taken(facts, list, address, reading) == taken(
            facts,
            seq![list[i]] + list.remove(i),
            address,
            reading,
        ),
    decreases i,
{
    let entry = list[i];
    let moved = seq![entry] + list.remove(i);
    assert(moved[0] == entry);
    assert(moved.drop_first() =~= list.remove(i));
    if i == 0 {
        assert(moved =~= list);
    } else {
        let other = list[0];
        let rest = list.drop_first();
        assert(list.remove(i)[0] == other);
        assert(list.remove(i).drop_first() =~= rest.remove(i - 1));
        let first = entry->0;
        let after = setting(facts, first.0, first.1, address, reading)->Ok_0;
        assert(taken(facts, moved, address, reading) == taken(after, list.remove(i), address, reading));
        let second = other->0;
        lemma_settings_commute(facts, first, second, address, reading);
        let before = setting(facts, second.0, second.1, address, reading)->Ok_0;
        let both = setting(before, first.0, first.1, address, reading)->Ok_0;
        let moved_rest = seq![rest[i - 1]] + rest.remove(i - 1);
        assert(rest[i - 1] == entry);
        assert(moved_rest[0] == entry);
        assert(moved_rest.drop_first() =~= rest.remove(i - 1));
        assert(taken(after, list.remove(i), address, reading) == taken(
            both,
            rest.remove(i - 1),
            address,
            reading,
        ));
        assert forall|j: int| 0 <= j < i - 1 implies entry_key(#[trigger] rest[j]) != entry_key(rest[i - 1]) by {
            assert(rest[j] == list[j + 1]);
        }
        lemma_taken_first(before, rest, i - 1, address, reading);
    }
}

/// Entries with different keys may be taken in any order.
proof fn lemma_entries_in_any_order<D>(
    facts: ConfigFacts<D>,
    a: Seq<Option<(Seq<char>, Seq<char>)>>,
    b: Seq<Option<(Seq<char>, Seq<char>)>>,
    address: spec_fn(Seq<char>) -> Option<D>,
    reading: spec_fn(Seq<char>) -> Option<MilliCelsius>,
)
    requires
        a.to_multiset() == b.to_multiset(),
        are_distinct(a),
        taken(facts, a, address, reading) is Some,
    ensures
        are_distinct(b),
        taken(facts, b, address, reading) == taken(facts, a, address, reading),
    decreases a.len(),
{
    a.to_multiset_ensures();
    b.to_multiset_ensures();
    assert(a.len() == b.len());
    if a.len() == 0 {
        assert(a =~= b);
    } else {
        let entry = a[0];
        let rest = a.drop_first();
        assert(a.remove(0) =~= rest);
        assert(a.contains(entry));
        assert(b.to_multiset().count(entry) > 0);
        let i = choose|i: int| 0 <= i < b.len() && b[i] == entry;
        let left = b.remove(i);
        assert(rest.to_multiset() =~= a.to_multiset().remove(entry));
        assert(left.to_multiset() =~= b.to_multiset().remove(entry));
        assert forall|j: int, k: int| 0 <= j < k < rest.len() implies entry_key(#[trigger] rest[j]) != entry_key(
            #[trigger] rest[k],
        ) by {
            assert(rest[j] == a[j + 1] && rest[k] == a[k + 1]);
        }
        let key = entry->0;
        let next = setting(facts, key.0, key.1, address, reading)->Ok_0;
        lemma_entries_in_any_order(next, rest, left, address, reading);
        rest.to_multiset_ensures();
        left.to_multiset_ensures();
        assert forall|j: int| 0 <= j < left.len() implies entry_key(#[trigger] left[j]) != entry_key(entry) by {
            assert(left.contains(left[j]));
            assert(rest.to_multiset().count(left[j]) > 0);
            assert(rest.contains(left[j]));
            let k = choose|k: int| 0 <= k < rest.len() && rest[k] == left[j];
            assert(a[k + 1] == left[j]);
            assert(entry_key(a[0]) != entry_key(a[k + 1]));
        }
        assert forall|j: int| 0 <= j < b.len() && j != i implies #[trigger] b[j] == left[if j < i {
            j
        } else {
            j - 1
        }] by {
        }
        assert forall|j: int, k: int| 0 <= j < k < b.len() implies entry_key(#[trigger] b[j]) != entry_key(
            #[trigger] b[k],
        ) by {
            let x = if j < i {
                j
            } else {
                j - 1
            };
            let y = if k < i {
                k
            } else {
                k - 1
            };
            if j != i {
                assert(b[j] == left[x]);
            }
            if k != i {
                assert(b[k] == left[y]);
            }
        }
        let moved = seq![entry] + left;
        assert(moved[0] == entry);
        assert(moved.drop_first() =~= left);
        assert forall|j: int| 0 <= j < i implies entry_key(#[trigger] b[j]) != entry_key(b[i]) by {
            assert(b[j] == left[j]);
        }
        lemma_taken_first(facts, b, i, address, reading);
    }
}

/// How the lines of an accepted file are arranged does not matter: a file whose
/// lines set the same keys to the same values, in any order, is accepted with
/// the same result. Lines that say nothing do not count, nor does white space
/// round a line, a key or a value.
pub proof fn law_arrangement_does_not_matter<D>(
    contents: Seq<char>,
    arranged: Seq<char>,
    address: spec_fn(Seq<char>) -> Option<D>,
    reading: spec_fn(Seq<char>) -> Option<MilliCelsius>,
)
    requires
        config_in(contents, address, reading) is Ok,
        entries(text::pieces(contents, '\n')).to_multiset() == entries(
            text::pieces(arranged, '\n'),
        ).to_multiset(),
    ensures
        config_in(arranged, address, reading) == config_in(contents, address, reading),
{
    let a = text::pieces(contents, '\n');
    let b = text::pieces(arranged, '\n');
    lemma_lines_are_their_entries(no_facts(), seq![], a, 0, address, reading);
    lemma_lines_are_their_entries(no_facts(), seq![], b, 0, address, reading);
    lemma_entries_in_any_order(no_facts(), entries(a), entries(b), address, reading);
    assert(are_unseen(entries(b), seq![]));
}

proof fn lemma_entries_joined(a: Seq<Seq<char>>, b: Seq<Seq<char>>)
    ensures
        entries(a + b) == entries(a) + entries(b),
    decreases a.len(),
{
    if a.len() == 0 {
        assert(a + b =~= b);
        assert(entries(a) + entries(b) =~= entries(b));
    } else {
        assert((a + b)[0] == a[0]);
        assert((a + b).drop_first() =~= a.drop_first() + b);
        lemma_entries_joined(a.drop_first(), b);
        assert(entries(a + b) =~= entries(a) + entries(b));
    }
}

proof fn lemma_idle_lines_set_nothing(lines: Seq<Seq<char>>)
    requires
        forall|i: int| 0 <= i < lines.len() ==> is_idle(text::trimmed(#[trigger] lines[i])),
    ensures
        entries(lines) == Seq::<Option<(Seq<char>, Seq<char>)>>::empty(),
    decreases lines.len(),
{
    if lines.len() > 0 {
        assert(is_idle(text::trimmed(lines[0])));
        lemma_idle_lines_set_nothing(lines.drop_first());
        assert(entries(lines) =~= Seq::<Option<(Seq<char>, Seq<char>)>>::empty());
    }
}

/// The same lines in another order set the same.
proof fn lemma_lines_in_any_order(a: Seq<Seq<char>>, b: Seq<Seq<char>>)
    requires
        a.to_multiset() == b.to_multiset(),
    ensures
        entries(a).to_multiset() == entries(b).to_multiset(),
    decreases a.len(),
{
    a.to_multiset_ensures();
    b.to_multiset_ensures();
    assert(a.len() == b.len());
    if a.len() == 0 {
        assert(a =~= b);
    } else {
        let line = a[0];
        let rest = a.drop_first();
        assert(a.remove(0) =~= rest);
        assert(a.contains(line));
        assert(b.to_multiset().count(line) > 0);
        let i = choose|i: int| 0 <= i < b.len() && b[i] == line;
        let front = b.take(i);
        let behind = b.skip(i + 1);
        let left = b.remove(i);
        assert(left =~= front + behind);
        assert(b =~= front + (seq![line] + behind));
        assert(rest.to_multiset() =~= left.to_multiset());
        lemma_lines_in_any_order(rest, left);
        lemma_entries_joined(front, behind);
        lemma_entries_joined(front, seq![line] + behind);
        let last = seq![line] + behind;
        assert(last[0] == line && last.drop_first() =~= behind);
        let entry = entry_of(line);
        lemma_multiset_commutative(entry, entries(rest));
        lemma_multiset_commutative(entries(front), entries(behind));
        lemma_multiset_commutative(entries(front), entry + entries(behind));
        lemma_multiset_commutative(entry, entries(behind));
        assert(entries(a).to_multiset() =~= entries(b).to_multiset());
    }
}

/// The lines of an accepted file may be put in any order, and lines that say
/// nothing may be put among them: the result stays the same.
pub proof fn law_lines_may_be_rearranged<D>(
    contents: Seq<char>,
    idle: Seq<Seq<char>>,
    arranged: Seq<char>,
    address: spec_fn(Seq<char>) -> Option<D>,
    reading: spec_fn(Seq<char>) -> Option<MilliCelsius>,
)
    requires
        config_in(contents, address, reading) is Ok,
        forall|i: int| 0 <= i < idle.len() ==> is_idle(text::trimmed(#[trigger] idle[i])),
        text::pieces(arranged, '\n').to_multiset() == (text::pieces(contents, '\n') + idle).to_multiset(),
    ensures
        config_in(arranged, address, reading) == config_in(contents, address, reading),
{
    let lines = text::pieces(contents, '\n');
    lemma_lines_in_any_order(text::pieces(arranged, '\n'), lines + idle);
    lemma_entries_joined(lines, idle);
    lemma_idle_lines_set_nothing(idle);
    assert(entries(lines) + entries(idle) =~= entries(lines));
    law_arrangement_does_not_matter(contents, arranged, address, reading);
}

/// White space round the key and the value of a line does not count.
pub proof fn law_spaces_do_not_count(
    before_key: Seq<char>,
    key: Seq<char>,
    behind_key: Seq<char>,
    before_value: Seq<char>,
    value: Seq<char>,
    behind_value: Seq<char>,
)
    requires
        !key.contains('='),
        text::is_blank(before_key),
        text::is_blank(behind_key),
        text::is_blank(before_value),
        text::is_blank(behind_value),
    ensures
        entry_of(
            (before_key + key + behind_key) + seq!['='] + (before_value + value + behind_value),
        ) == entry_of(key + seq!['='] + value),
{
    let empty = Seq::<char>::empty();
    lemma_entry(before_key, key, behind_key, before_value, value, behind_value);
    lemma_entry(empty, key, empty, empty, value, empty);
    assert(empty + key + empty =~= key);
    assert(empty + value + empty =~= value);
}

proof fn lemma_entry(
    before_key: Seq<char>,
    key: Seq<char>,
    behind_key: Seq<char>,
    before_value: Seq<char>,
    value: Seq<char>,
    behind_value: Seq<char>,
)
    requires
        !key.contains('='),
        text::is_blank(before_key),
        text::is_blank(behind_key),
        text::is_blank(before_value),
        text::is_blank(behind_value),
    ensures
        entry_of(
            (before_key + key + behind_key) + seq!['='] + (before_value + value + behind_value),
        ) == if text::trimmed(key).len() > 0 && text::trimmed(key)[0] == '#' {
            Seq::<Option<(Seq<char>, Seq<char>)>>::empty()
        } else {
            seq![Some((text::trimmed(key), text::trimmed(value)))]
        },
{
    let left = before_key + key + behind_key;
    let right = before_value + value + behind_value;
    let line = left + seq!['='] + right;
    let start = text::trim_start(left);
    let end = text::trim_end(right);
    text::lemma_trimmed_around(left, '=', right);
    text::lemma_trimmed_padded(before_key, key, behind_key);
    text::lemma_trimmed_padded(before_value, value, behind_value);
    text::lemma_trimmed_again(left);
    text::lemma_trimmed_again(right);
    assert(!left.contains('=')) by {
        assert forall|i: int| 0 <= i < left.len() implies left[i] != '=' by {
            if i < before_key.len() {
                assert(left[i] == before_key[i]);
                assert(text::is_white_space(before_key[i]));
            } else if i < before_key.len() + key.len() {
                assert(left[i] == key[i - before_key.len()]);
                assert(key.contains(key[i - before_key.len()]));
            } else {
                let k = i - before_key.len() - key.len();
                assert(left[i] == behind_key[k]);
                assert(text::is_white_space(behind_key[k]));
            }
        }
    }
    assert(!start.contains('='));
    text::lemma_pieces_step(start, '=', end);
    let trimmed_line = start + seq!['='] + end;
    assert(text::trimmed(line) == trimmed_line);
    if start.len() > 0 {
        assert(trimmed_line[0] == start[0]);
    } else {
        assert(trimmed_line[0] == '=');
    }
}

/// A line of white space says nothing, nor does one that begins with `#` behind
/// white space. Any other line without an equals sign is wrong.
pub proof fn law_comments_say_nothing(front: Seq<char>, c: char, behind: Seq<char>)
    requires
        text::is_blank(front),
        !text::is_white_space(c),
    ensures
        entry_of(front) == Seq::<Option<(Seq<char>, Seq<char>)>>::empty(),
        c == '#' ==> entry_of(front + seq![c] + behind) == Seq::<Option<(Seq<char>, Seq<char>)>>::empty(),
        c != '#' && c != '=' && !behind.contains('=') ==> entry_of(front + seq![c] + behind) == seq![
            None::<(Seq<char>, Seq<char>)>,
        ],
{
    let empty = Seq::<char>::empty();
    let line = front + seq![c] + behind;
    text::lemma_trimmed_padded(front, empty, empty);
    assert(front + empty + empty =~= front);
    assert(text::trimmed(empty) =~= empty);
    text::lemma_trimmed_around(front, c, behind);
    text::lemma_trimmed_again(front);
    assert(text::trim_start(front) =~= empty);
    let kept = text::trim_end(behind);
    let trimmed_line = empty + seq![c] + kept;
    assert(text::trimmed(line) == text::trim_start(front) + seq![c] + kept);
    assert(trimmed_line[0] == c);
    if c != '#' && c != '=' && !behind.contains('=') {
        text::lemma_trim_end_keeps(behind);
        assert(!trimmed_line.contains('=')) by {
            assert forall|i: int| 0 <= i < trimmed_line.len() implies trimmed_line[i] != '=' by {
                if i > 0 {
                    assert(trimmed_line[i] == kept[i - 1]);
                    assert(kept.contains(kept[i - 1]));
                }
            }
        }
        text::law_text_is_cut_at_the_first_separator(trimmed_line, '=', empty);
    }
}

/// What a key stands for is the same in both.
spec fn same_at<D>(a: ConfigFacts<D>, b: ConfigFacts<D>, key: Seq<char>) -> bool {
    &&& key == "token"@ ==> a.token == b.token
    &&& key == "destination"@ ==> a.destination == b.destination
    &&& key == "interval_ms"@ ==> a.interval_millis == b.interval_millis
    &&& key == "curve"@ ==> a.policy.curve == b.policy.curve
    &&& key == "smoothing_seconds"@ ==> a.policy.smoothing_seconds == b.policy.smoothing_seconds
    &&& key == "duty_step_percent"@ ==> a.policy.duty_step_percent == b.policy.duty_step_percent
    &&& key == "duty_hysteresis_percent"@ ==> a.policy.duty_hysteresis_percent
        == b.policy.duty_hysteresis_percent
    &&& key == "ramp_up_percent_per_second"@ ==> a.policy.ramp_up_percent_per_second
        == b.policy.ramp_up_percent_per_second
    &&& key == "ramp_down_percent_per_second"@ ==> a.policy.ramp_down_percent_per_second
        == b.policy.ramp_down_percent_per_second
    &&& key == "emergency_temperature_c"@ ==> a.policy.emergency_temperature_milli_c
        == b.policy.emergency_temperature_milli_c
}

/// What a key stands for is what the value says.
spec fn noted<D>(
    facts: ConfigFacts<D>,
    key: Seq<char>,
    value: Seq<char>,
    address: spec_fn(Seq<char>) -> Option<D>,
    reading: spec_fn(Seq<char>) -> Option<MilliCelsius>,
) -> bool {
    let policy = facts.policy;
    &&& can_be_set(key, value, address, reading)
    &&& key == "token"@ ==> facts.token == Some(value)
    &&& key == "destination"@ ==> facts.destination == address(value)
    &&& key == "interval_ms"@ ==> facts.interval_millis == numbers::unsigned_number(value, 0xffff_ffff_ffff_ffff)
    &&& key == "curve"@ ==> Some(policy.curve) == policy::curve_in(value, reading)
    &&& key == "smoothing_seconds"@ ==> Some(policy.smoothing_seconds as nat) == numbers::unsigned_number(
        value,
        0xffff_ffff,
    )
    &&& key == "duty_step_percent"@ ==> Some(policy.duty_step_percent as nat) == numbers::unsigned_number(
        value,
        255,
    )
    &&& key == "duty_hysteresis_percent"@ ==> Some(policy.duty_hysteresis_percent as nat)
        == numbers::unsigned_number(value, 255)
    &&& key == "ramp_up_percent_per_second"@ ==> Some(policy.ramp_up_percent_per_second as nat)
        == numbers::unsigned_number(value, 255)
    &&& key == "ramp_down_percent_per_second"@ ==> Some(policy.ramp_down_percent_per_second as nat)
        == numbers::unsigned_number(value, 255)
    &&& key == "emergency_temperature_c"@ ==> policy.emergency_temperature_milli_c
        == reading(value)->0.nearest as i32
}

/// Whether a key can be set to a value: the key is known, and the value is of
/// its kind.
pub open spec fn can_be_set<D>(
    key: Seq<char>,
    value: Seq<char>,
    address: spec_fn(Seq<char>) -> Option<D>,
    reading: spec_fn(Seq<char>) -> Option<MilliCelsius>,
) -> bool {
    ||| key == "token"@
    ||| key == "destination"@ && address(value) is Some
    ||| key == "interval_ms"@ && numbers::unsigned_number(value, 0xffff_ffff_ffff_ffff) is Some
    ||| key == "curve"@ && policy::curve_in(value, reading) is Some
    ||| key == "smoothing_seconds"@ && numbers::unsigned_number(value, 0xffff_ffff) is Some
    ||| key == "duty_step_percent"@ && numbers::unsigned_number(value, 255) is Some
    ||| key == "duty_hysteresis_percent"@ && numbers::unsigned_number(value, 255) is Some
    ||| key == "ramp_up_percent_per_second"@ && numbers::unsigned_number(value, 255) is Some
    ||| key == "ramp_down_percent_per_second"@ && numbers::unsigned_number(value, 255) is Some
    ||| key == "emergency_temperature_c"@ && reading(value) is Some && reading(value)->0.floor >= -0x8000_0000
        && reading(value)->0.ceiling <= 0x7fff_ffff
}

proof fn lemma_keys_differ()
    ensures
        "token"@.len() == 5,
        "destination"@.len() == 11,
        "interval_ms"@.len() == 11,
        "curve"@.len() == 5,
        "smoothing_seconds"@.len() == 17,
        "duty_step_percent"@.len() == 17,
        "duty_hysteresis_percent"@.len() == 23,
        "ramp_up_percent_per_second"@.len() == 26,
        "ramp_down_percent_per_second"@.len() == 28,
        "emergency_temperature_c"@.len() == 23,
        "token"@[0] == 't' && "curve"@[0] == 'c',
        "destination"@[0] == 'd' && "interval_ms"@[0] == 'i',
        "smoothing_seconds"@[0] == 's' && "duty_step_percent"@[0] == 'd',
        "duty_hysteresis_percent"@[0] == 'd' && "emergency_temperature_c"@[0] == 'e',
{
    reveal_strlit("token");
    reveal_strlit("destination");
    reveal_strlit("interval_ms");
    reveal_strlit("curve");
    reveal_strlit("smoothing_seconds");
    reveal_strlit("duty_step_percent");
    reveal_strlit("duty_hysteresis_percent");
    reveal_strlit("ramp_up_percent_per_second");
    reveal_strlit("ramp_down_percent_per_second");
    reveal_strlit("emergency_temperature_c");
}

/// A setting is made where it can be, is noted, and leaves other keys alone.
proof fn lemma_setting_is_noted<D>(
    facts: ConfigFacts<D>,
    key: Seq<char>,
    value: Seq<char>,
    other: Seq<char>,
    address: spec_fn(Seq<char>) -> Option<D>,
    reading: spec_fn(Seq<char>) -> Option<MilliCelsius>,
)
    ensures
        setting(facts, key, value, address, reading) is Ok <==> can_be_set(key, value, address, reading),
        setting(facts, key, value, address, reading) matches Ok(next) ==> noted(
            next,
            key,
            value,
            address,
            reading,
        ) && (other != key ==> same_at(facts, next, other)),
{
    lemma_keys_differ();
}

proof fn lemma_taken_keeps<D>(
    facts: ConfigFacts<D>,
    list: Seq<Option<(Seq<char>, Seq<char>)>>,
    key: Seq<char>,
    address: spec_fn(Seq<char>) -> Option<D>,
    reading: spec_fn(Seq<char>) -> Option<MilliCelsius>,
)
    requires
        taken(facts, list, address, reading) is Some,
        forall|i: int| 0 <= i < list.len() ==> entry_key(#[trigger] list[i]) != Some(key),
    ensures
        same_at(facts, taken(facts, list, address, reading)->0, key),
    decreases list.len(),
{
    if list.len() > 0 {
        let entry = list[0]->0;
        let rest = list.drop_first();
        assert(entry_key(list[0]) != Some(key));
        lemma_setting_is_noted(facts, entry.0, entry.1, key, address, reading);
        let next = setting(facts, entry.0, entry.1, address, reading)->Ok_0;
        assert forall|i: int| 0 <= i < rest.len() implies entry_key(#[trigger] rest[i]) != Some(key) by {
            assert(rest[i] == list[i + 1]);
        }
        lemma_taken_keeps(next, rest, key, address, reading);
    }
}

proof fn lemma_taken_notes<D>(
    facts: ConfigFacts<D>,
    list: Seq<Option<(Seq<char>, Seq<char>)>>,
    j: int,
    address: spec_fn(Seq<char>) -> Option<D>,
    reading: spec_fn(Seq<char>) -> Option<MilliCelsius>,
)
    requires
        taken(facts, list, address, reading) is Some,
        are_distinct(list),
        0 <= j < list.len(),
    ensures
        list[j] is Some,
        ({
            let (key, value) = list[j]->0;
            noted(taken(facts, list, address, reading)->0, key, value, address, reading)
        }),
    decreases j,
{
    let entry = list[0]->0;
    let rest = list.drop_first();
    let next = setting(facts, entry.0, entry.1, address, reading)->Ok_0;
    assert forall|a: int, b: int| 0 <= a < b < rest.len() implies entry_key(#[trigger] rest[a]) != entry_key(
        #[trigger] rest[b],
    ) by {
        assert(rest[a] == list[a + 1] && rest[b] == list[b + 1]);
    }
    if j == 0 {
        lemma_setting_is_noted(facts, entry.0, entry.1, entry.0, address, reading);
        assert forall|i: int| 0 <= i < rest.len() implies entry_key(#[trigger] rest[i]) != Some(entry.0) by {
            assert(rest[i] == list[i + 1]);
            assert(entry_key(list[0]) != entry_key(list[i + 1]));
        }
        lemma_taken_keeps(next, rest, entry.0, address, reading);
    } else {
        assert(rest[j - 1] == list[j]);
        lemma_taken_notes(next, rest, j - 1, address, reading);
    }
}

/// What a line sets is among what all lines set.
proof fn lemma_entry_is_among(lines: Seq<Seq<char>>, i: int) -> (j: int)
    requires
        0 <= i < lines.len(),
        entry_of(lines[i]).len() == 1,
    ensures
        0 <= j < entries(lines).len(),
        entries(lines)[j] == entry_of(lines[i])[0],
    decreases lines.len(),
{
    let front = entry_of(lines[0]);
    let rest = entries(lines.drop_first());
    if i == 0 {
        assert((front + rest)[0] == front[0]);
        0
    } else {
        let k = lemma_entry_is_among(lines.drop_first(), i - 1);
        assert((front + rest)[front.len() + k] == rest[k]);
        front.len() + k
    }
}

/// What all lines set is what some line sets.
proof fn lemma_entry_has_a_line(lines: Seq<Seq<char>>, j: int) -> (i: int)
    requires
        0 <= j < entries(lines).len(),
    ensures
        0 <= i < lines.len(),
        entry_of(lines[i]) == seq![entries(lines)[j]],
    decreases lines.len(),
{
    let front = entry_of(lines[0]);
    let rest = entries(lines.drop_first());
    if j < front.len() {
        assert((front + rest)[j] == front[j]);
        assert(front =~= seq![entries(lines)[j]]);
        0
    } else {
        assert((front + rest)[j] == rest[j - front.len()]);
        let k = lemma_entry_has_a_line(lines.drop_first(), j - front.len());
        k + 1
    }
}

/// In the settings of an accepted file each key that a line sets has the value
/// that the line gives.
pub proof fn law_each_line_takes_effect<D>(
    contents: Seq<char>,
    i: int,
    key: Seq<char>,
    value: Seq<char>,
    address: spec_fn(Seq<char>) -> Option<D>,
    reading: spec_fn(Seq<char>) -> Option<MilliCelsius>,
)
    requires
        config_in(contents, address, reading) is Ok,
        0 <= i < text::pieces(contents, '\n').len(),
        entry_of(text::pieces(contents, '\n')[i]) == seq![Some((key, value))],
    ensures
        ({
            let settings = config_in(contents, address, reading)->Ok_0;
            let policy = settings.policy;
            &&& key == "token"@ ==> settings.token == value
            &&& key == "destination"@ ==> address(value) == Some(settings.destination)
            &&& key == "interval_ms"@ ==> numbers::unsigned_number(value, 0xffff_ffff_ffff_ffff) == Some(
                settings.interval_millis as nat,
            )
            &&& key == "curve"@ ==> policy::curve_in(value, reading) == Some(policy.curve)
            &&& key == "smoothing_seconds"@ ==> numbers::unsigned_number(value, 0xffff_ffff) == Some(
                policy.smoothing_seconds as nat,
            )
            &&& key == "duty_step_percent"@ ==> numbers::unsigned_number(value, 255) == Some(
                policy.duty_step_percent as nat,
            )
            &&& key == "duty_hysteresis_percent"@ ==> numbers::unsigned_number(value, 255) == Some(
                policy.duty_hysteresis_percent as nat,
            )
            &&& key == "ramp_up_percent_per_second"@ ==> numbers::unsigned_number(value, 255) == Some(
                policy.ramp_up_percent_per_second as nat,
            )
            &&& key == "ramp_down_percent_per_second"@ ==> numbers::unsigned_number(value, 255) == Some(
                policy.ramp_down_percent_per_second as nat,
            )
            &&& key == "emergency_temperature_c"@ ==> reading(value) is Some && (-0x8000_0000
                <= reading(value)->0.nearest <= 0x7fff_ffff ==> policy.emergency_temperature_milli_c
                == reading(value)->0.nearest)
            &&& can_be_set(key, value, address, reading)
        }),
{
    let lines = text::pieces(contents, '\n');
    let list = entries(lines);
    lemma_lines_are_their_entries(no_facts(), seq![], lines, 0, address, reading);
    let j = lemma_entry_is_among(lines, i);
    lemma_taken_notes(no_facts(), list, j, address, reading);
    lemma_keys_differ();
}

/// In the settings of an accepted file each key that no line sets has its
/// default. The token has none: some line sets it.
pub proof fn law_unset_keys_have_their_defaults<D>(
    contents: Seq<char>,
    key: Seq<char>,
    address: spec_fn(Seq<char>) -> Option<D>,
    reading: spec_fn(Seq<char>) -> Option<MilliCelsius>,
)
    requires
        config_in(contents, address, reading) is Ok,
        forall|i: int|
            0 <= i < text::pieces(contents, '\n').len() ==> key_of(#[trigger] text::pieces(contents, '\n')[i])
                != Some(key),
    ensures
        ({
            let settings = config_in(contents, address, reading)->Ok_0;
            let policy = settings.policy;
            &&& key != "token"@
            &&& key == "destination"@ ==> settings.destination == address("255.255.255.255:42110"@)->0
            &&& key == "interval_ms"@ ==> settings.interval_millis == 1_000
            &&& key == "curve"@ ==> policy.curve == seq![
                policy::CurvePoint { temperature_milli_c: 45_000, duty_percent: 25 },
                policy::CurvePoint { temperature_milli_c: 55_000, duty_percent: 40 },
                policy::CurvePoint { temperature_milli_c: 65_000, duty_percent: 60 },
                policy::CurvePoint { temperature_milli_c: 75_000, duty_percent: 80 },
                policy::CurvePoint { temperature_milli_c: 80_000, duty_percent: 100 },
            ]
            &&& key == "smoothing_seconds"@ ==> policy.smoothing_seconds == 5
            &&& key == "duty_step_percent"@ ==> policy.duty_step_percent == 5
            &&& key == "duty_hysteresis_percent"@ ==> policy.duty_hysteresis_percent == 5
            &&& key == "ramp_up_percent_per_second"@ ==> policy.ramp_up_percent_per_second == 10
            &&& key == "ramp_down_percent_per_second"@ ==> policy.ramp_down_percent_per_second == 2
            &&& key == "emergency_temperature_c"@ ==> policy.emergency_temperature_milli_c == 80_000
        }),
{
    let lines = text::pieces(contents, '\n');
    let list = entries(lines);
    lemma_lines_are_their_entries(no_facts(), seq![], lines, 0, address, reading);
    lemma_no_line_no_entry(lines, key);
    lemma_taken_keeps(no_facts(), list, key, address, reading);
}

proof fn lemma_no_line_no_entry(lines: Seq<Seq<char>>, key: Seq<char>)
    requires
        forall|i: int| 0 <= i < lines.len() ==> key_of(#[trigger] lines[i]) != Some(key),
    ensures
        forall|j: int| 0 <= j < entries(lines).len() ==> entry_key(#[trigger] entries(lines)[j]) != Some(key),
{
    let list = entries(lines);
    assert forall|j: int| 0 <= j < list.len() implies entry_key(#[trigger] list[j]) != Some(key) by {
        let i = lemma_entry_has_a_line(lines, j);
        assert(entry_of(lines[i])[0] == list[j]);
        assert(key_of(lines[i]) != Some(key));
    }
}

/// Whether the settings give a key the value that a text says.
pub open spec fn is_set<D>(
    settings: AgentSettings<D>,
    key: Seq<char>,
    value: Seq<char>,
    address: spec_fn(Seq<char>) -> Option<D>,
    reading: spec_fn(Seq<char>) -> Option<MilliCelsius>,
) -> bool {
    let policy = settings.policy;
    &&& key == "token"@ ==> settings.token == value
    &&& key == "destination"@ ==> Some(settings.destination) == address(value)
    &&& key == "interval_ms"@ ==> Some(settings.interval_millis as nat) == numbers::unsigned_number(
        value,
        0xffff_ffff_ffff_ffff,
    )
    &&& key == "curve"@ ==> Some(policy.curve) == policy::curve_in(value, reading)
    &&& key == "smoothing_seconds"@ ==> Some(policy.smoothing_seconds as nat) == numbers::unsigned_number(
        value,
        0xffff_ffff,
    )
    &&& key == "duty_step_percent"@ ==> Some(policy.duty_step_percent as nat) == numbers::unsigned_number(
        value,
        255,
    )
    &&& key == "duty_hysteresis_percent"@ ==> Some(policy.duty_hysteresis_percent as nat)
        == numbers::unsigned_number(value, 255)
    &&& key == "ramp_up_percent_per_second"@ ==> Some(policy.ramp_up_percent_per_second as nat)
        == numbers::unsigned_number(value, 255)
    &&& key == "ramp_down_percent_per_second"@ ==> Some(policy.ramp_down_percent_per_second as nat)
        == numbers::unsigned_number(value, 255)
    &&& key == "emergency_temperature_c"@ ==> policy.emergency_temperature_milli_c
        == reading(value)->0.nearest as i32
}

/// Whether the settings leave a key at its default. The token has none.
pub open spec fn is_left<D>(
    settings: AgentSettings<D>,
    key: Seq<char>,
    address: spec_fn(Seq<char>) -> Option<D>,
) -> bool {
    let policy = settings.policy;
    &&& key == "destination"@ ==> settings.destination == address("255.255.255.255:42110"@)->0
    &&& key == "interval_ms"@ ==> settings.interval_millis == 1_000
    &&& key == "curve"@ ==> policy.curve == seq![
        policy::CurvePoint { temperature_milli_c: 45_000, duty_percent: 25 },
        policy::CurvePoint { temperature_milli_c: 55_000, duty_percent: 40 },
        policy::CurvePoint { temperature_milli_c: 65_000, duty_percent: 60 },
        policy::CurvePoint { temperature_milli_c: 75_000, duty_percent: 80 },
        policy::CurvePoint { temperature_milli_c: 80_000, duty_percent: 100 },
    ]
    &&& key == "smoothing_seconds"@ ==> policy.smoothing_seconds == 5
    &&& key == "duty_step_percent"@ ==> policy.duty_step_percent == 5
    &&& key == "duty_hysteresis_percent"@ ==> policy.duty_hysteresis_percent == 5
    &&& key == "ramp_up_percent_per_second"@ ==> policy.ramp_up_percent_per_second == 10
    &&& key == "ramp_down_percent_per_second"@ ==> policy.ramp_down_percent_per_second == 2
    &&& key == "emergency_temperature_c"@ ==> policy.emergency_temperature_milli_c == 80_000
}

/// Whether each line says nothing, or sets a known key to a value of its kind,
/// and no two lines set the same key.
pub open spec fn can_be_taken<D>(
    lines: Seq<Seq<char>>,
    address: spec_fn(Seq<char>) -> Option<D>,
    reading: spec_fn(Seq<char>) -> Option<MilliCelsius>,
) -> bool {
    &&& forall|i: int|
        0 <= i < lines.len() && entry_of(#[trigger] lines[i]).len() > 0 ==> entry_of(lines[i])[0] is Some
            && can_be_set((entry_of(lines[i])[0]->0).0, (entry_of(lines[i])[0]->0).1, address, reading)
    &&& forall|i: int, j: int|
        0 <= i < j < lines.len() && key_of(#[trigger] lines[i]) is Some ==> key_of(lines[i]) != key_of(
            #[trigger] lines[j],
        )
}

/// Whether the settings are those that the lines ask for.
pub open spec fn are_asked_for<D>(
    settings: AgentSettings<D>,
    lines: Seq<Seq<char>>,
    address: spec_fn(Seq<char>) -> Option<D>,
    reading: spec_fn(Seq<char>) -> Option<MilliCelsius>,
) -> bool {
    &&& forall|i: int|
        0 <= i < lines.len() && entry_of(#[trigger] lines[i]).len() > 0 ==> is_set(
            settings,
            (entry_of(lines[i])[0]->0).0,
            (entry_of(lines[i])[0]->0).1,
            address,
            reading,
        )
    &&& forall|key: Seq<char>|
        (forall|i: int| 0 <= i < lines.len() ==> key_of(#[trigger] lines[i]) != Some(key)) ==> #[trigger] is_left(
            settings,
            key,
            address,
        )
}

proof fn lemma_can_be_taken<D>(
    facts: ConfigFacts<D>,
    list: Seq<Option<(Seq<char>, Seq<char>)>>,
    address: spec_fn(Seq<char>) -> Option<D>,
    reading: spec_fn(Seq<char>) -> Option<MilliCelsius>,
)
    requires
        forall|j: int|
            0 <= j < list.len() ==> (#[trigger] list[j]) is Some && can_be_set(
                (list[j]->0).0,
                (list[j]->0).1,
                address,
                reading,
            ),
    ensures
        taken(facts, list, address, reading) is Some,
    decreases list.len(),
{
    if list.len() > 0 {
        assert(list[0] is Some);
        let entry = list[0]->0;
        let rest = list.drop_first();
        lemma_setting_is_noted(facts, entry.0, entry.1, entry.0, address, reading);
        assert forall|j: int| 0 <= j < rest.len() implies (#[trigger] rest[j]) is Some && can_be_set(
            (rest[j]->0).0,
            (rest[j]->0).1,
            address,
            reading,
        ) by {
            assert(rest[j] == list[j + 1]);
        }
        lemma_can_be_taken(setting(facts, entry.0, entry.1, address, reading)->Ok_0, rest, address, reading);
    }
}

proof fn lemma_entries_can_be_taken<D>(
    facts: ConfigFacts<D>,
    lines: Seq<Seq<char>>,
    address: spec_fn(Seq<char>) -> Option<D>,
    reading: spec_fn(Seq<char>) -> Option<MilliCelsius>,
)
    requires
        can_be_taken(lines, address, reading),
    ensures
        taken(facts, entries(lines), address, reading) is Some,
        are_distinct(entries(lines)),
{
    let list = entries(lines);
    assert forall|j: int| 0 <= j < list.len() implies (#[trigger] list[j]) is Some && can_be_set(
        (list[j]->0).0,
        (list[j]->0).1,
        address,
        reading,
    ) by {
        let i = lemma_entry_has_a_line(lines, j);
        assert(entry_of(lines[i])[0] == list[j]);
    }
    lemma_can_be_taken(facts, list, address, reading);
    lemma_distinct_keys_distinct_entries(lines, address, reading);
}

proof fn lemma_distinct_keys_distinct_entries<D>(
    lines: Seq<Seq<char>>,
    address: spec_fn(Seq<char>) -> Option<D>,
    reading: spec_fn(Seq<char>) -> Option<MilliCelsius>,
)
    requires
        can_be_taken(lines, address, reading),
    ensures
        are_distinct(entries(lines)),
    decreases lines.len(),
{
    if lines.len() > 0 {
        let front = entry_of(lines[0]);
        let others = lines.drop_first();
        let rest = entries(others);
        let list = entries(lines);
        assert(list == front + rest);
        lemma_can_be_taken_behind(lines, address, reading);
        lemma_distinct_keys_distinct_entries(others, address, reading);
        assert forall|a: int, b: int| 0 <= a < b < list.len() implies entry_key(#[trigger] list[a]) != entry_key(
            #[trigger] list[b],
        ) by {
            assert(list[b] == rest[b - front.len()]);
            if a < front.len() {
                let i = lemma_entry_has_a_line(others, b - front.len());
                assert(entry_of(others[i])[0] == list[b]);
                assert(others[i] == lines[i + 1]);
                assert(entry_of(lines[0])[0] == list[a]);
                assert(key_of(lines[0]) == entry_key(list[a]));
                assert(key_of(lines[i + 1]) == entry_key(list[b]));
            } else {
                assert(list[a] == rest[a - front.len()]);
            }
        }
    }
}

proof fn lemma_can_be_taken_behind<D>(
    lines: Seq<Seq<char>>,
    address: spec_fn(Seq<char>) -> Option<D>,
    reading: spec_fn(Seq<char>) -> Option<MilliCelsius>,
)
    requires
        lines.len() > 0,
        can_be_taken(lines, address, reading),
    ensures
        can_be_taken(lines.drop_first(), address, reading),
{
    let others = lines.drop_first();
    assert forall|i: int| 0 <= i < others.len() && entry_of(#[trigger] others[i]).len() > 0 implies entry_of(
        others[i],
    )[0] is Some && can_be_set((entry_of(others[i])[0]->0).0, (entry_of(others[i])[0]->0).1, address, reading) by {
        assert(others[i] == lines[i + 1]);
    }
    assert forall|i: int, j: int|
        0 <= i < j < others.len() && key_of(#[trigger] others[i]) is Some implies key_of(others[i]) != key_of(
        #[trigger] others[j],
    ) by {
        assert(others[i] == lines[i + 1] && others[j] == lines[j + 1]);
    }
}

/// The facts at a key are what the settings say there.
spec fn told<D>(
    facts: ConfigFacts<D>,
    settings: AgentSettings<D>,
    key: Seq<char>,
    address: spec_fn(Seq<char>) -> Option<D>,
) -> bool {
    let (a, b) = (facts.policy, settings.policy);
    &&& key == "token"@ ==> (facts.token matches Some(token) ==> token == settings.token)
    &&& key == "destination"@ ==> settings.destination == match facts.destination {
        Some(destination) => destination,
        None => address("255.255.255.255:42110"@)->0,
    }
    &&& key == "interval_ms"@ ==> settings.interval_millis == match facts.interval_millis {
        Some(millis) => millis,
        None => 1_000,
    }
    &&& key == "curve"@ ==> a.curve == b.curve
    &&& key == "smoothing_seconds"@ ==> a.smoothing_seconds == b.smoothing_seconds
    &&& key == "duty_step_percent"@ ==> a.duty_step_percent == b.duty_step_percent
    &&& key == "duty_hysteresis_percent"@ ==> a.duty_hysteresis_percent == b.duty_hysteresis_percent
    &&& key == "ramp_up_percent_per_second"@ ==> a.ramp_up_percent_per_second == b.ramp_up_percent_per_second
    &&& key == "ramp_down_percent_per_second"@ ==> a.ramp_down_percent_per_second
        == b.ramp_down_percent_per_second
    &&& key == "emergency_temperature_c"@ ==> a.emergency_temperature_milli_c == b.emergency_temperature_milli_c
}

proof fn lemma_facts_are_the_settings<D>(
    settings: AgentSettings<D>,
    lines: Seq<Seq<char>>,
    key: Seq<char>,
    address: spec_fn(Seq<char>) -> Option<D>,
    reading: spec_fn(Seq<char>) -> Option<MilliCelsius>,
)
    requires
        can_be_taken(lines, address, reading),
        are_asked_for(settings, lines, address, reading),
    ensures
        taken(no_facts(), entries(lines), address, reading) is Some,
        told(taken(no_facts(), entries(lines), address, reading)->0, settings, key, address),
        key == "token"@ ==> (taken(no_facts(), entries(lines), address, reading)->0.token is Some <==> exists|i: int|
            0 <= i < lines.len() && key_of(#[trigger] lines[i]) == Some(key)),
{
    let list = entries(lines);
    lemma_entries_can_be_taken(no_facts(), lines, address, reading);
    if exists|i: int| 0 <= i < lines.len() && key_of(#[trigger] lines[i]) == Some(key) {
        let i = choose|i: int| 0 <= i < lines.len() && key_of(#[trigger] lines[i]) == Some(key);
        let j = lemma_entry_is_among(lines, i);
        lemma_taken_notes(no_facts(), list, j, address, reading);
    } else {
        lemma_no_line_no_entry(lines, key);
        lemma_taken_keeps(no_facts(), list, key, address, reading);
        assert(is_left(settings, key, address));
    }
}

/// A file whose lines can all be taken is answered by what they ask for: without
/// a token that is told, then what is wrong with the token, the interval or the
/// policy, in this order, and otherwise the settings are accepted.
pub proof fn law_file_is_answered_by_its_settings<D>(
    contents: Seq<char>,
    settings: AgentSettings<D>,
    address: spec_fn(Seq<char>) -> Option<D>,
    reading: spec_fn(Seq<char>) -> Option<MilliCelsius>,
)
    requires
        can_be_taken(text::pieces(contents, '\n'), address, reading),
        are_asked_for(settings, text::pieces(contents, '\n'), address, reading),
    ensures
        ({
            let lines = text::pieces(contents, '\n');
            let names_token = exists|i: int| 0 <= i < lines.len() && key_of(#[trigger] lines[i]) == Some("token"@);
            let answer = config_in(contents, address, reading);
            if !names_token {
                answer == Err::<AgentSettings<D>, ConfigFault>(ConfigFault::MissingToken)
            } else if !config::valid_token(settings.token) {
                answer == Err::<AgentSettings<D>, ConfigFault>(ConfigFault::InvalidToken)
            } else if settings.interval_millis < 250 || settings.interval_millis > 60_000 {
                answer == Err::<AgentSettings<D>, ConfigFault>(ConfigFault::InvalidInterval)
            } else if settings.policy.checked() is Err {
                answer == Err::<AgentSettings<D>, ConfigFault>(
                    ConfigFault::InvalidPolicy(settings.policy.checked()->Err_0),
                )
            } else {
                answer == Ok::<AgentSettings<D>, ConfigFault>(settings)
            }
        }),
{
    let lines = text::pieces(contents, '\n');
    lemma_lines_are_their_entries(no_facts(), seq![], lines, 0, address, reading);
    lemma_facts_are_the_settings(settings, lines, "token"@, address, reading);
    lemma_facts_are_the_settings(settings, lines, "destination"@, address, reading);
    lemma_facts_are_the_settings(settings, lines, "interval_ms"@, address, reading);
    lemma_facts_are_the_settings(settings, lines, "curve"@, address, reading);
    lemma_facts_are_the_settings(settings, lines, "smoothing_seconds"@, address, reading);
    lemma_facts_are_the_settings(settings, lines, "duty_step_percent"@, address, reading);
    lemma_facts_are_the_settings(settings, lines, "duty_hysteresis_percent"@, address, reading);
    lemma_facts_are_the_settings(settings, lines, "ramp_up_percent_per_second"@, address, reading);
    lemma_facts_are_the_settings(settings, lines, "ramp_down_percent_per_second"@, address, reading);
    lemma_facts_are_the_settings(settings, lines, "emergency_temperature_c"@, address, reading);
    lemma_entries_can_be_taken::<D>(no_facts(), lines, address, reading);
    let facts = taken(no_facts::<D>(), entries(lines), address, reading)->0;
    assert(facts.policy == settings.policy);
}

/// Lines that can be taken are read up to where the next stands.
proof fn lemma_front_is_read<D>(
    facts: ConfigFacts<D>,
    seen: Seq<Seq<char>>,
    front: Seq<Seq<char>>,
    rest: Seq<Seq<char>>,
    count: nat,
    address: spec_fn(Seq<char>) -> Option<D>,
    reading: spec_fn(Seq<char>) -> Option<MilliCelsius>,
) -> (state: (ConfigFacts<D>, Seq<Seq<char>>))
    requires
        can_be_taken(front, address, reading),
        forall|i: int|
            0 <= i < front.len() ==> (key_of(#[trigger] front[i]) matches Some(key) ==> !seen.contains(key)),
    ensures
        config_lines(facts, seen, front + rest, count, address, reading) == config_lines(
            state.0,
            state.1,
            rest,
            count + front.len(),
            address,
            reading,
        ),
        forall|key: Seq<char>| #[trigger]
            state.1.contains(key) <==> seen.contains(key) || exists|i: int|
                0 <= i < front.len() && key_of(#[trigger] front[i]) == Some(key),
    decreases front.len(),
{
    if front.len() == 0 {
        assert(front + rest =~= rest);
        (facts, seen)
    } else {
        let others = front.drop_first();
        let lines = front + rest;
        assert(lines.drop_first() =~= others + rest);
        assert(lines[0] == front[0]);
        lemma_can_be_taken_behind(front, address, reading);
        let line = text::trimmed(front[0]);
        if is_idle(line) {
            assert forall|i: int| 0 <= i < others.len() implies (key_of(#[trigger] others[i]) matches Some(key)
                ==> !seen.contains(key)) by {
                assert(others[i] == front[i + 1]);
            }
            let state = lemma_front_is_read(facts, seen, others, rest, count + 1, address, reading);
            assert forall|key: Seq<char>| #[trigger] state.1.contains(key) <==> seen.contains(key) || exists|i: int|
                0 <= i < front.len() && key_of(#[trigger] front[i]) == Some(key) by {
                lemma_keys_behind(front, key);
            }
            state
        } else {
            assert(entry_of(front[0])[0] == assignment(line));
            let (key, value) = assignment(line)->0;
            assert(key_of(front[0]) == Some(key));
            lemma_setting_is_noted(facts, key, value, key, address, reading);
            let next = setting(facts, key, value, address, reading)->Ok_0;
            let more = seen.push(key);
            assert forall|other: Seq<char>| #[trigger] more.contains(other) <==> seen.contains(other) || other
                == key by {
                lemma_pushed(seen, key, other);
            }
            assert forall|i: int| 0 <= i < others.len() implies (key_of(#[trigger] others[i]) matches Some(other)
                ==> !more.contains(other)) by {
                assert(others[i] == front[i + 1]);
                assert(key_of(front[0]) != key_of(front[i + 1]));
            }
            let state = lemma_front_is_read(next, more, others, rest, count + 1, address, reading);
            assert forall|other: Seq<char>| #[trigger] state.1.contains(other) <==> seen.contains(other)
                || exists|i: int| 0 <= i < front.len() && key_of(#[trigger] front[i]) == Some(other) by {
                lemma_keys_behind(front, other);
                assert(more.contains(other) <==> seen.contains(other) || other == key);
            }
            state
        }
    }
}

proof fn lemma_pushed(seen: Seq<Seq<char>>, key: Seq<char>, other: Seq<char>)
    ensures
        seen.push(key).contains(other) <==> seen.contains(other) || other == key,
{
    let more = seen.push(key);
    if seen.contains(other) {
        let i = choose|i: int| 0 <= i < seen.len() && seen[i] == other;
        assert(more[i] == other);
    }
    assert(more[seen.len() as int] == key);
    if more.contains(other) {
        let i = choose|i: int| 0 <= i < more.len() && more[i] == other;
        assert(i < seen.len() ==> seen[i] == other);
    }
}

proof fn lemma_keys_behind(front: Seq<Seq<char>>, key: Seq<char>)
    requires
        front.len() > 0,
    ensures
        (exists|i: int| 0 <= i < front.len() && key_of(#[trigger] front[i]) == Some(key)) <==> key_of(front[0])
            == Some(key) || exists|i: int|
            0 <= i < front.drop_first().len() && key_of(#[trigger] front.drop_first()[i]) == Some(key),
{
    let others = front.drop_first();
    if exists|i: int| 0 <= i < others.len() && key_of(#[trigger] others[i]) == Some(key) {
        let i = choose|i: int| 0 <= i < others.len() && key_of(#[trigger] others[i]) == Some(key);
        assert(front[i + 1] == others[i]);
    }
    if exists|i: int| 0 <= i < front.len() && key_of(#[trigger] front[i]) == Some(key) {
        let i = choose|i: int| 0 <= i < front.len() && key_of(#[trigger] front[i]) == Some(key);
        if i > 0 {
            assert(others[i - 1] == front[i]);
        }
    }
}

/// The first line that cannot be taken is what a file is turned down for,
/// whatever follows: a line that sets nothing by its number, a key that an
/// earlier line set or that is not known by its name, and a value of the wrong
/// kind by what it was for.
pub proof fn law_first_wrong_line_is_told<D>(
    contents: Seq<char>,
    front: Seq<Seq<char>>,
    line: Seq<char>,
    behind: Seq<Seq<char>>,
    address: spec_fn(Seq<char>) -> Option<D>,
    reading: spec_fn(Seq<char>) -> Option<MilliCelsius>,
)
    requires
        text::pieces(contents, '\n') == front + seq![line] + behind,
        can_be_taken(front, address, reading),
        entry_of(line).len() == 1,
    ensures
        ({
            let answer = config_in(contents, address, reading);
            match entry_of(line)[0] {
                None => answer == Err::<AgentSettings<D>, ConfigFault>(ConfigFault::InvalidLine(front.len() + 1)),
                Some((key, value)) => {
                    let is_twice = exists|i: int| 0 <= i < front.len() && key_of(#[trigger] front[i]) == Some(key);
                    let small = numbers::unsigned_number(value, 255);
                    let wrong = |error: PolicyConfigError|
                        Err::<AgentSettings<D>, ConfigFault>(ConfigFault::InvalidPolicy(error));
                    if is_twice {
                        answer == Err::<AgentSettings<D>, ConfigFault>(ConfigFault::DuplicateKey(key))
                    } else if key == "token"@ {
                        true
                    } else if key == "destination"@ {
                        address(value) is None ==> answer == Err::<AgentSettings<D>, ConfigFault>(
                            ConfigFault::InvalidDestination,
                        )
                    } else if key == "interval_ms"@ {
                        numbers::unsigned_number(value, 0xffff_ffff_ffff_ffff) is None ==> answer == Err::<
                            AgentSettings<D>,
                            ConfigFault,
                        >(ConfigFault::InvalidInterval)
                    } else if key == "curve"@ {
                        policy::curve_in(value, reading) is None ==> answer == wrong(
                            PolicyConfigError::InvalidCurve,
                        )
                    } else if key == "smoothing_seconds"@ {
                        numbers::unsigned_number(value, 0xffff_ffff) is None ==> answer == wrong(
                            PolicyConfigError::InvalidSmoothing,
                        )
                    } else if key == "duty_step_percent"@ {
                        small is None ==> answer == wrong(PolicyConfigError::InvalidDutyStep)
                    } else if key == "duty_hysteresis_percent"@ {
                        small is None ==> answer == wrong(PolicyConfigError::InvalidHysteresis)
                    } else if key == "ramp_up_percent_per_second"@ || key == "ramp_down_percent_per_second"@ {
                        small is None ==> answer == wrong(PolicyConfigError::InvalidRamp)
                    } else if key == "emergency_temperature_c"@ {
                        !can_be_set(key, value, address, reading) ==> answer == wrong(
                            PolicyConfigError::InvalidEmergencyTemperature,
                        )
                    } else {
                        answer == Err::<AgentSettings<D>, ConfigFault>(ConfigFault::UnknownKey(key))
                    }
                },
            }
        }),
{
    lemma_keys_differ();
    let rest = seq![line] + behind;
    assert(front + seq![line] + behind =~= front + rest);
    assert(rest[0] == line);
    let seen = Seq::<Seq<char>>::empty();
    let state = lemma_front_is_read(no_facts(), seen, front, rest, 0, address, reading);
    assert(entry_of(line)[0] == assignment(text::trimmed(line)));
    if let Some((key, _)) = entry_of(line)[0] {
        assert(state.1.contains(key) <==> exists|i: int|
            0 <= i < front.len() && key_of(#[trigger] front[i]) == Some(key));
    }
}

/// The message of a fault names what is wrong: the line by its number, and a key
/// by its name.
pub proof fn law_messages_name_what_is_wrong(line: nat, key: Seq<char>, error: PolicyConfigError)
    ensures
        fault_text(ConfigFault::InvalidLine(line)) == "invalid config line "@ + numbers::decimal(line),
        fault_text(ConfigFault::DuplicateKey(key)) == "duplicate config key "@ + key,
        fault_text(ConfigFault::UnknownKey(key)) == "unknown config key "@ + key,
        fault_text(ConfigFault::InvalidPolicy(error)) == "invalid fan policy: "@ + policy::error_text(error),
{
}

/// A line with an equals sign sets the key before it to the value behind it,
/// both without the white space round them, unless it begins with `#`.
pub proof fn law_line_sets_key_to_value(
    before_key: Seq<char>,
    key: Seq<char>,
    behind_key: Seq<char>,
    before_value: Seq<char>,
    value: Seq<char>,
    behind_value: Seq<char>,
)
    requires
        !key.contains('='),
        text::is_blank(before_key),
        text::is_blank(behind_key),
        text::is_blank(before_value),
        text::is_blank(behind_value),
    ensures
        entry_of(
            (before_key + key + behind_key) + seq!['='] + (before_value + value + behind_value),
        ) == if text::trimmed(key).len() > 0 && text::trimmed(key)[0] == '#' {
            Seq::<Option<(Seq<char>, Seq<char>)>>::empty()
        } else {
            seq![Some((text::trimmed(key), text::trimmed(value)))]
        },
{
    lemma_entry(before_key, key, behind_key, before_value, value, behind_value);
}

/// A line that is written out takes effect: in the settings of an accepted file
/// its key has the value behind the equals sign, whatever white space stands
/// round them and whatever the other lines say.
pub proof fn law_written_line_takes_effect<D>(
    lines: Seq<Seq<char>>,
    i: int,
    before_key: Seq<char>,
    key: Seq<char>,
    behind_key: Seq<char>,
    before_value: Seq<char>,
    value: Seq<char>,
    behind_value: Seq<char>,
    address: spec_fn(Seq<char>) -> Option<D>,
    reading: spec_fn(Seq<char>) -> Option<MilliCelsius>,
)
    requires
        forall|k: int| 0 <= k < lines.len() ==> !(#[trigger] lines[k]).contains('\n'),
        0 <= i < lines.len(),
        lines[i] == (before_key + key + behind_key) + seq!['='] + (before_value + value + behind_value),
        text::is_blank(before_key) && text::is_blank(behind_key) && text::is_blank(before_value)
            && text::is_blank(behind_value),
        !key.contains('='),
        text::trimmed(key) == key && text::trimmed(value) == value,
        !(key.len() > 0 && key[0] == '#'),
        config_in(text::joined(lines, '\n'), address, reading) is Ok,
    ensures
        ({
            let settings = config_in(text::joined(lines, '\n'), address, reading)->Ok_0;
            &&& is_set(settings, key, value, address, reading)
            &&& key == "emergency_temperature_c"@ && -0x8000_0000 <= reading(value)->0.nearest <= 0x7fff_ffff
                ==> settings.policy.emergency_temperature_milli_c == reading(value)->0.nearest
        }),
{
    let contents = text::joined(lines, '\n');
    text::law_pieces_are_what_was_joined(lines, '\n');
    lemma_entry(before_key, key, behind_key, before_value, value, behind_value);
    lemma_lines_are_their_entries(no_facts(), seq![], lines, 0, address, reading);
    let j = lemma_entry_is_among(lines, i);
    lemma_taken_notes(no_facts(), entries(lines), j, address, reading);
    law_each_line_takes_effect(contents, i, key, value, address, reading);
}

} // verus!
