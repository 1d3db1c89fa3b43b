use std::fmt;
use std::time::Duration;

use laptop_cooler::agent::{
    argument_value, config_location, initial_sequence, parse_options, Agent, AgentAction,
    AgentEvent, ConfigLocation,
};
use laptop_cooler::agent_config::{
    parse_config, AgentConfig, ConfigError, DEFAULT_DESTINATION, DEFAULT_INTERVAL_MILLIS,
};
use laptop_cooler::control::{format_packet, ControlCommand, HostState};
use laptop_cooler::policy::{MilliCelsius, PolicyConfigError};
use laptop_cooler::sensors::{
    label_file_name, maximum_temperature, sensor_label, sensor_prefix, supported_device,
    TemperatureError,
};

fn read_celsius(value: &str) -> Option<MilliCelsius> {
    let celsius = value.parse::<f64>().ok()?;
    if !celsius.is_finite() {
        return None;
    }
    let milli_c = celsius * 1_000.0;
    Some(MilliCelsius {
        floor: milli_c.floor() as i64,
        nearest: milli_c.round() as i64,
        ceiling: milli_c.ceil() as i64,
    })
}

/// A network address of four numbers and a port.
#[derive(Debug, PartialEq, Eq)]
struct Address {
    octets: [u8; 4],
    port: u16,
}

impl fmt::Display for Address {
    fn fmt(&self, formatter: &mut fmt::Formatter<'_>) -> fmt::Result {
        let [a, b, c, d] = self.octets;
        formatter.write_str(&format!("{a}.{b}.{c}.{d}:{}", self.port))
    }
}

fn read_address(value: &str) -> Option<Address> {
    let (host, port) = value.split_once(':')?;
    let numbers: Vec<u8> = host
        .split('.')
        .map(|number| number.parse().ok())
        .collect::<Option<Vec<u8>>>()?;
    Some(Address {
        octets: numbers.try_into().ok()?,
        port: port.parse().ok()?,
    })
}

fn parsed(contents: &str) -> Result<AgentConfig<Address>, ConfigError> {
    parse_config(contents, &read_address, &read_celsius)
}

fn error_of(lines: &str) -> ConfigError {
    let contents = format!("token=abcdefghijklmnop\n{lines}");
    parsed(&contents).unwrap_err()
}

#[test]
fn parses_minimal_config() {
    let config = parsed("token=abcdefghijklmnop\n").unwrap();
    assert_eq!(config.token, "abcdefghijklmnop");
    assert_eq!(config.destination.to_string(), DEFAULT_DESTINATION);
    assert_eq!(config.interval_millis, DEFAULT_INTERVAL_MILLIS);
    assert_eq!(Duration::from_millis(config.interval_millis), Duration::from_secs(1));
}

#[test]
fn rejects_short_token() {
    assert_eq!(
        parsed("token=too-short\n").unwrap_err(),
        ConfigError::InvalidToken
    );
}

#[test]
fn parses_overrides() {
    let config = parsed(
        "token=abcdefghijklmnop\ndestination=127.0.0.1:42110\ninterval_ms=250\n",
    )
    .unwrap();
    assert_eq!(config.destination.to_string(), "127.0.0.1:42110");
    assert_eq!(
        Duration::from_millis(config.interval_millis),
        Duration::from_millis(250)
    );
}

#[test]
fn parses_configurable_fan_policy() {
    let config = parsed(
        "token=abcdefghijklmnop\n\
         curve=40:20,70:70,85:100\n\
         smoothing_seconds=8\n\
         duty_step_percent=10\n\
         duty_hysteresis_percent=4\n\
         ramp_up_percent_per_second=20\n\
         ramp_down_percent_per_second=3\n\
         emergency_temperature_c=85\n",
    )
    .unwrap();
    assert_eq!(config.policy.curve.len(), 3);
    assert_eq!(config.policy.smoothing_seconds, 8);
    assert_eq!(config.policy.duty_step_percent, 10);
    assert_eq!(config.policy.duty_hysteresis_percent, 4);
    assert_eq!(config.policy.ramp_up_percent_per_second, 20);
    assert_eq!(config.policy.ramp_down_percent_per_second, 3);
    assert_eq!(config.policy.emergency_temperature_milli_c, 85_000);
}

#[test]
fn config_lines_are_trimmed_and_comments_skipped() {
    let config = parsed("# agent\r\n\r\n  token = abcdefghijklmnop \r\n\t# done\r\n\u{a0}\n").unwrap();
    assert_eq!(config.token, "abcdefghijklmnop");
    let config = parsed("token=abcdefghijklmnop\nemergency_temperature_c=80.0004").unwrap();
    assert_eq!(config.policy.emergency_temperature_milli_c, 80_000);
}

#[test]
fn config_errors_come_with_their_lines() {
    assert_eq!(parsed("").unwrap_err(), ConfigError::MissingToken);
    assert_eq!(parsed("# a\n\nnonsense\n").unwrap_err(), ConfigError::InvalidLine(3));
    assert_eq!(
        parsed("token=abcdefghijklmno!\n").unwrap_err(),
        ConfigError::InvalidToken
    );
    assert_eq!(
        parsed("token=abcdefghijklmnopabcdefghijklmnopq\n").unwrap_err(),
        ConfigError::InvalidToken
    );
    assert_eq!(
        error_of("token = abcdefghijklmnop\n"),
        ConfigError::DuplicateKey("token".to_string())
    );
    assert_eq!(error_of("speed=3\n"), ConfigError::UnknownKey("speed".to_string()));
    assert_eq!(
        error_of("speed=3\nspeed=3\n"),
        ConfigError::UnknownKey("speed".to_string())
    );
    assert_eq!(error_of("destination=nowhere\n"), ConfigError::InvalidDestination);
    assert_eq!(error_of("interval_ms=x\n"), ConfigError::InvalidInterval);
    assert_eq!(error_of("interval_ms=249\n"), ConfigError::InvalidInterval);
    assert_eq!(error_of("interval_ms=60001\n"), ConfigError::InvalidInterval);
    assert_eq!(
        error_of("interval_ms=18446744073709551616\n"),
        ConfigError::InvalidInterval
    );
    // The token is looked at before the interval and the policy.
    assert_eq!(
        parsed("interval_ms=1\nsmoothing_seconds=61\n").unwrap_err(),
        ConfigError::MissingToken
    );
}

#[test]
fn arrangement_of_the_lines_does_not_matter() {
    let plain = parsed(
        "token=abcdefghijklmnop\ninterval_ms=250\ndestination=10.0.0.1:9\nsmoothing_seconds=8\n",
    )
    .unwrap();
    for contents in [
        "smoothing_seconds=8\ndestination=10.0.0.1:9\ninterval_ms=250\ntoken=abcdefghijklmnop",
        "# first\n\n interval_ms\t= 250 \n\ttoken =abcdefghijklmnop\n  # second=2\ndestination= 10.0.0.1:9\r\nsmoothing_seconds=8\n\n",
    ] {
        let arranged = parsed(contents).unwrap();
        assert_eq!(arranged.token, plain.token);
        assert_eq!(arranged.destination, plain.destination);
        assert_eq!(arranged.interval_millis, plain.interval_millis);
        assert_eq!(arranged.policy, plain.policy);
    }
}

#[test]
fn policy_settings_come_with_their_errors() {
    let cases = [
        ("curve=45\n", PolicyConfigError::InvalidCurve),
        ("curve=45:25,50:30\n", PolicyConfigError::InvalidCurve),
        ("smoothing_seconds=-1\n", PolicyConfigError::InvalidSmoothing),
        ("smoothing_seconds=61\n", PolicyConfigError::InvalidSmoothing),
        ("duty_step_percent=256\n", PolicyConfigError::InvalidDutyStep),
        ("duty_step_percent=21\n", PolicyConfigError::InvalidDutyStep),
        ("duty_hysteresis_percent=x\n", PolicyConfigError::InvalidHysteresis),
        ("duty_hysteresis_percent=21\n", PolicyConfigError::InvalidHysteresis),
        ("ramp_up_percent_per_second=\n", PolicyConfigError::InvalidRamp),
        ("ramp_down_percent_per_second=x\n", PolicyConfigError::InvalidRamp),
        ("ramp_up_percent_per_second=0\n", PolicyConfigError::InvalidRamp),
        ("emergency_temperature_c=hot\n", PolicyConfigError::InvalidEmergencyTemperature),
        ("emergency_temperature_c=inf\n", PolicyConfigError::InvalidEmergencyTemperature),
        ("emergency_temperature_c=1e306\n", PolicyConfigError::InvalidEmergencyTemperature),
        (
            "emergency_temperature_c=2147483.6474\n",
            PolicyConfigError::InvalidEmergencyTemperature,
        ),
        ("emergency_temperature_c=90.001\n", PolicyConfigError::InvalidEmergencyTemperature),
    ];
    for (lines, error) in cases {
        assert_eq!(error_of(lines), ConfigError::InvalidPolicy(error), "{lines}");
    }
}

#[test]
fn config_error_messages() {
    assert_eq!(ConfigError::InvalidLine(12).message(), "invalid config line 12");
    assert_eq!(ConfigError::MissingToken.message(), "config is missing token");
    assert_eq!(
        ConfigError::InvalidToken.message(),
        "token must contain 16-32 letters, numbers, underscores, or hyphens"
    );
    assert_eq!(
        ConfigError::InvalidDestination.message(),
        "invalid destination socket address"
    );
    assert_eq!(
        ConfigError::InvalidInterval.message(),
        "interval_ms must be between 250 and 60000"
    );
    assert_eq!(
        ConfigError::InvalidPolicy(PolicyConfigError::InvalidRamp).message(),
        "invalid fan policy: ramp rates must be between 1 and 100 percent per second"
    );
    assert_eq!(
        ConfigError::DuplicateKey("curve".to_string()).message(),
        "duplicate config key curve"
    );
    assert_eq!(
        ConfigError::UnknownKey("speed".to_string()).message(),
        "unknown config key speed"
    );
}

fn strings(list: &[&str]) -> Vec<String> {
    list.iter().map(|item| item.to_string()).collect()
}

#[test]
fn arguments_are_looked_up() {
    let arguments = strings(&["--once", "--config", "a", "--config", "b"]);
    assert_eq!(argument_value(&arguments, "--config"), Some("a"));
    assert_eq!(argument_value(&arguments, "--once"), Some("--config"));
    assert_eq!(argument_value(&arguments, "b"), None);
    assert_eq!(argument_value(&strings(&["--config"]), "--config"), None);
    assert_eq!(argument_value(&[], "--config"), None);

    let options = parse_options(&arguments);
    assert!(options.once);
    assert!(!options.help);
    assert_eq!(options.config, Some("a"));
    let arguments = strings(&["--help"]);
    let options = parse_options(&arguments);
    assert!(!options.once);
    assert!(options.help);
    assert_eq!(options.config, None);
}

#[test]
fn configuration_is_looked_for_where_the_user_keeps_it() {
    assert_eq!(config_location(false, true, true), Some(ConfigLocation::ConfigHome));
    assert_eq!(config_location(false, false, true), Some(ConfigLocation::Home));
    assert_eq!(config_location(true, false, true), Some(ConfigLocation::Given));
    assert_eq!(config_location(true, true, false), Some(ConfigLocation::Given));
    assert_eq!(config_location(true, false, false), None);
    assert_eq!(config_location(false, false, false), None);
}

#[test]
fn first_sequence_number_mixes_seconds_and_nanoseconds() {
    assert_eq!(initial_sequence(None), 0);
    assert_eq!(initial_sequence(Some((0x1_0000_00f0, 0x0f))), 0xff);
    assert_eq!(initial_sequence(Some((7, 7))), 0);
}

#[test]
fn agent_repeats_a_failed_reading_once() {
    let mut agent = Agent::new(false, u32::MAX);
    assert_eq!(agent.advance(AgentEvent::Due), AgentAction::Read);
    assert_eq!(agent.advance(AgentEvent::ReadFailed), AgentAction::Rediscover);
    assert_eq!(agent.advance(AgentEvent::Sensors { count: 0 }), AgentAction::Sleep);
    assert_eq!(agent.advance(AgentEvent::Due), AgentAction::Read);
    assert_eq!(agent.advance(AgentEvent::ReadFailed), AgentAction::Rediscover);
    assert_eq!(agent.advance(AgentEvent::Sensors { count: 2 }), AgentAction::Read);
    assert_eq!(agent.advance(AgentEvent::ReadFailed), AgentAction::Fail);
}

#[test]
fn agent_counts_its_packets() {
    let mut agent = Agent::new(false, u32::MAX);
    agent.advance(AgentEvent::Due);
    assert_eq!(
        agent.advance(AgentEvent::Temperature { milli_c: 51_000 }),
        AgentAction::Decide { temperature_milli_c: 51_000 }
    );
    let duty = AgentEvent::Duty { temperature_milli_c: 51_000, duty_percent: 35 };
    assert_eq!(
        agent.advance(duty),
        AgentAction::Send {
            command: ControlCommand {
                sequence: u32::MAX,
                temperature_milli_c: 51_000,
                requested_duty_percent: 35,
            },
        }
    );
    assert_eq!(agent.advance(AgentEvent::Sent), AgentAction::Sleep);
    assert_eq!(agent.sequence, 0);

    let mut once = Agent::new(true, 5);
    assert_eq!(once.advance(AgentEvent::Sent), AgentAction::Stop);
    assert_eq!(once.sequence, 5);
}

#[test]
fn controller_takes_the_packets_of_the_agent() {
    let token = "abcdefghijklmnop";
    let mut agent = Agent::new(false, u32::MAX);
    let mut state = HostState::new();
    let mut now_millis = 1_000;
    for _ in 0..3 {
        let action = agent.advance(AgentEvent::Duty {
            temperature_milli_c: 45_500,
            duty_percent: 30,
        });
        match action {
            AgentAction::Send { command } => {
                let packet = format_packet(token, &command);
                assert_eq!(state.accept(token, packet.as_bytes(), now_millis), Ok(command));
            }
            other => panic!("unexpected action: {other:?}"),
        }
        agent.advance(AgentEvent::Sent);
        now_millis += 1_000;
    }
    assert_eq!(state.duty_percent(now_millis), 30);
}

#[test]
fn supported_devices_are_known_by_name() {
    for name in ["amdgpu", "coretemp", "i915", "k10temp", "nvidia", "nouveau", "zenpower"] {
        assert_eq!(supported_device(&format!("{name}\n")), Some(name));
    }
    assert_eq!(supported_device("acpitz\n"), None);
    assert_eq!(supported_device("Coretemp\n"), None);
    assert_eq!(supported_device(""), None);
}

#[test]
fn sensor_files_have_a_prefix_and_a_label() {
    assert_eq!(sensor_prefix("temp1_input"), Some("temp1"));
    assert_eq!(sensor_prefix("temp_input_input"), Some("temp"));
    assert_eq!(sensor_prefix("temp1_max"), None);
    assert_eq!(sensor_prefix("fan1_input"), None);
    assert_eq!(label_file_name("temp1"), "temp1_label");
    assert_eq!(sensor_label(Some("Package id 0\n"), "temp1"), "Package id 0");
    assert_eq!(sensor_label(None, "temp1"), "temp1");
}

fn readings(list: &[&str]) -> Vec<Option<String>> {
    list.iter().map(|item| Some(item.to_string())).collect()
}

#[test]
fn hottest_sensor_counts() {
    assert_eq!(maximum_temperature(&readings(&["45000\n", " 51000 ", "-20000"])), Ok(51_000));
    assert_eq!(maximum_temperature(&readings(&["150000"])), Ok(150_000));
    assert_eq!(maximum_temperature(&Vec::new()), Err(TemperatureError::NoSensor));
    assert_eq!(
        maximum_temperature(&readings(&["45000", "hot", "-20001"])),
        Err(TemperatureError::NotANumber(1))
    );
    assert_eq!(
        maximum_temperature(&readings(&["-20001", "hot"])),
        Err(TemperatureError::Implausible(0, -20_001))
    );
    assert_eq!(
        maximum_temperature(&readings(&["150001"])),
        Err(TemperatureError::Implausible(0, 150_001))
    );
    assert_eq!(
        maximum_temperature(&vec![Some("45000".to_string()), None]),
        Err(TemperatureError::Unreadable(1))
    );
}
