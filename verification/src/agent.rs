//! The course of the host agent: its arguments, and what it does in turn.
use vstd::prelude::*;
use vstd::string::*;
use vstd::utf8::*;

use crate::config;
use crate::control;
use crate::control::ControlCommand;
use crate::policy;
use crate::text;
use crate::text::same_text;

verus! {

/// The texts of arguments.
pub open spec fn argument_texts(arguments: Seq<String>) -> Seq<Seq<char>> {
    arguments.map_values(|argument: String| argument@)
}

/// What stands behind the first `name` that has something behind it.
pub open spec fn argument_behind(arguments: Seq<Seq<char>>, name: Seq<char>) -> Option<Seq<char>>
    decreases arguments.len(),
{
    if arguments.len() < 2 {
        None
    } else if arguments[0] == name {
        Some(arguments[1])
    } else {
        argument_behind(arguments.drop_first(), name)
    }
}

/// What stands behind the first `name` that has something behind it.
pub fn argument_value<'a>(arguments: &'a [String], name: &str) -> (value: Option<&'a str>)
    ensures
        match value {
            Some(value) => argument_behind(argument_texts(arguments@), name@) == Some(value@),
            None => argument_behind(argument_texts(arguments@), name@) is None,
        },
{
    let ghost all = argument_texts(arguments@);
    let mut i: usize = 0;
    assert(all.skip(0) =~= all);
    while i < arguments.len() && arguments.len() - i >= 2
        invariant
            i <= arguments.len(),
            all == argument_texts(arguments@),
            argument_behind(all.skip(i as int), name@) == argument_behind(all, name@),
        decreases arguments.len() - i,
    {
        assert(all.skip(i as int)[0] == arguments[i as int]@);
        assert(all.skip(i as int)[1] == arguments[i + 1]@);
        if same_text(arguments[i].as_str(), name) {
            return Some(arguments[i + 1].as_str());
        }
        assert(all.skip(i as int).drop_first() =~= all.skip(i + 1));
        i += 1;
    }
    None
}

/// Whether one of the arguments is `name`.
fn has_argument(arguments: &[String], name: &str) -> (found: bool)
    ensures
        found == argument_texts(arguments@).contains(name@),
{
    let ghost all = argument_texts(arguments@);
    let mut i: usize = 0;
    while i < arguments.len()
        invariant
            i <= arguments.len(),
            all == argument_texts(arguments@),
            forall|j: int| 0 <= j < i ==> all[j] != name@,
        decreases arguments.len() - i,
    {
        assert(all[i as int] == arguments[i as int]@);
        if same_text(arguments[i].as_str(), name) {
            return true;
        }
        i += 1;
    }
    false
}

/// What the arguments ask for.
#[derive(Debug, PartialEq, Eq)]
pub struct Options<'a> {
    pub once: bool,
    pub help: bool,
    pub config: Option<&'a str>,
}

/// What the arguments ask for.
pub fn parse_options<'a>(arguments: &'a [String]) -> (options: Options<'a>)
    ensures
        options.once == argument_texts(arguments@).contains("--once"@),
        options.help == argument_texts(arguments@).contains("--help"@),
        match options.config {
            Some(path) => argument_behind(argument_texts(arguments@), "--config"@) == Some(path@),
            None => argument_behind(argument_texts(arguments@), "--config"@) is None,
        },
{
    Options {
        once: has_argument(arguments, "--once"),
        help: has_argument(arguments, "--help"),
        config: argument_value(arguments, "--config"),
    }
}

/// Where the configuration file is looked for.
#[derive(Clone, Copy, Debug, PartialEq, Eq, Structural)]
pub enum ConfigLocation {
    /// At the path that was given.
    Given,
    /// At `laptop-cooler/config` below the user's configuration directory.
    ConfigHome,
    /// At `.config/laptop-cooler/config` below the user's home directory.
    Home,
}

/// Where the configuration file is looked for, by whether a path is given and
/// what is known of the user's directories.
pub open spec fn location_of(path_given: bool, config_home_known: bool, home_known: bool) -> Option<ConfigLocation> {
    if !config_home_known && !home_known {
        None
    } else if path_given {
        Some(ConfigLocation::Given)
    } else if config_home_known {
        Some(ConfigLocation::ConfigHome)
    } else {
        Some(ConfigLocation::Home)
    }
}

/// Where the configuration file is looked for, or nothing where neither the
/// user's configuration directory nor the home directory is known. One of them
/// has to be, even where a path is given.
pub fn config_location(path_given: bool, config_home_known: bool, home_known: bool) -> (location: Option<
    ConfigLocation,
>)
    ensures
        location == location_of(path_given, config_home_known, home_known),
        location is None <==> !config_home_known && !home_known,
        location is Some && path_given ==> location == Some(ConfigLocation::Given),
        location is Some && !path_given && config_home_known ==> location == Some(
            ConfigLocation::ConfigHome,
        ),
        location is Some && !path_given && !config_home_known ==> location == Some(ConfigLocation::Home),
{
    if !config_home_known && !home_known {
        None
    } else if path_given {
        Some(ConfigLocation::Given)
    } else if config_home_known {
        Some(ConfigLocation::ConfigHome)
    } else {
        Some(ConfigLocation::Home)
    }
}

/// The sequence number to begin with, by the time since the epoch in seconds
/// and nanoseconds, where the clock is past the epoch.
pub open spec fn first_sequence(since_epoch: Option<(u64, u32)>) -> u32 {
    match since_epoch {
        Some((seconds, nanos)) => nanos ^ (seconds % 0x1_0000_0000) as u32,
        None => 0,
    }
}

/// The sequence number to begin with, by the time since the epoch in seconds
/// and nanoseconds, where the clock is past the epoch.
pub fn initial_sequence(since_epoch: Option<(u64, u32)>) -> (sequence: u32)
    ensures
        sequence == first_sequence(since_epoch),
        sequence == match since_epoch {
            Some((seconds, nanos)) => nanos ^ (seconds % 0x1_0000_0000) as u32,
            None => 0,
        },
{
    match since_epoch {
        Some((seconds, nanos)) => {
            assert(seconds as u32 == (seconds % 0x1_0000_0000) as u32) by (bit_vector);
            nanos ^ #[verifier::truncate] (seconds as u32)
        },
        None => 0,
    }
}

/// What the agent is told.
#[derive(Clone, Copy, Debug, PartialEq, Eq, Structural)]
pub enum AgentEvent {
    /// The time for the next packet has come.
    Due,
    /// The sensors report this temperature.
    Temperature { milli_c: i32 },
    /// The sensors could not be read.
    ReadFailed,
    /// So many sensors were found.
    Sensors { count: usize },
    /// The policy asks for this duty at this temperature.
    Duty { temperature_milli_c: i32, duty_percent: u8 },
    /// The packet was sent.
    Sent,
}

/// What the agent is to do.
#[derive(Clone, Copy, Debug, PartialEq, Eq, Structural)]
pub enum AgentAction {
    /// Read the sensors.
    Read,
    /// Look for sensors anew.
    Rediscover,
    /// Wait for the interval.
    Sleep,
    /// Ask the policy for a duty.
    Decide { temperature_milli_c: i32 },
    /// Send a packet.
    Send { command: ControlCommand },
    /// End the program, as all is done.
    Stop,
    /// End the program, as the sensors cannot be read.
    Fail,
}

/// Where the agent is in its course.
#[derive(Clone, Copy, Debug, PartialEq, Eq, Structural)]
pub struct Agent {
    pub once: bool,
    pub sequence: u32,
    pub retrying: bool,
}

/// Where the agent is after an event, and what it is to do. A failed reading
/// has the sensors looked for anew and is repeated once.
pub open spec fn course(agent: Agent, event: AgentEvent) -> (Agent, AgentAction) {
    match event {
        AgentEvent::Due => (Agent { retrying: false, ..agent }, AgentAction::Read),
        AgentEvent::Temperature { milli_c } => (
            agent,
            AgentAction::Decide { temperature_milli_c: milli_c },
        ),
        AgentEvent::ReadFailed => if agent.retrying {
            (agent, AgentAction::Fail)
        } else {
            (agent, AgentAction::Rediscover)
        },
        AgentEvent::Sensors { count } => if count == 0 {
            (agent, AgentAction::Sleep)
        } else {
            (Agent { retrying: true, ..agent }, AgentAction::Read)
        },
        AgentEvent::Duty { temperature_milli_c, duty_percent } => (
            agent,
            AgentAction::Send {
                command: ControlCommand {
                    sequence: agent.sequence,
                    temperature_milli_c,
                    requested_duty_percent: duty_percent,
                },
            },
        ),
        AgentEvent::Sent => if agent.once {
            (agent, AgentAction::Stop)
        } else {
            (Agent { sequence: agent.sequence.wrapping_add(1), ..agent }, AgentAction::Sleep)
        },
    }
}

impl Agent {
    /// An agent that has done nothing yet.
    pub fn new(once: bool, sequence: u32) -> (agent: Self)
        ensures
            agent == (Agent { once, sequence, retrying: false }),
    {
        Agent { once, sequence, retrying: false }
    }

    /// What is to be done after an event.
    pub fn advance(&mut self, event: AgentEvent) -> (action: AgentAction)
        ensures
            (*final(self), action) == course(*old(self), event),
    {
        match event {
            AgentEvent::Due => {
                self.retrying = false;
                AgentAction::Read
            },
            AgentEvent::Temperature { milli_c } => AgentAction::Decide { temperature_milli_c: milli_c },
            AgentEvent::ReadFailed => {
                if self.retrying {
                    AgentAction::Fail
                } else {
                    AgentAction::Rediscover
                }
            },
            AgentEvent::Sensors { count } => {
                if count == 0 {
                    return AgentAction::Sleep;
                }
                self.retrying = true;
                AgentAction::Read
            },
            AgentEvent::Duty { temperature_milli_c, duty_percent } => AgentAction::Send {
                command: ControlCommand {
                    sequence: self.sequence,
                    temperature_milli_c,
                    requested_duty_percent: duty_percent,
                },
            },
            AgentEvent::Sent => {
                if self.once {
                    return AgentAction::Stop;
                }
                self.sequence = self.sequence.wrapping_add(1);
                AgentAction::Sleep
            },
        }
    }
}

/// Only sending a packet changes the sequence number, and the next one comes
/// after it.
pub proof fn law_sequence_counts_the_packets(agent: Agent, event: AgentEvent)
    ensures
        event != AgentEvent::Sent ==> course(agent, event).0.sequence == agent.sequence,
        event == AgentEvent::Sent && !agent.once ==> control::comes_after(
            course(agent, event).0.sequence,
            agent.sequence,
        ),
{
}

/// Sensors that cannot be read are looked for once, and given up when they
/// still cannot be read.
pub proof fn law_failed_reading_is_repeated_once(agent: Agent, count: usize)
    requires
        count > 0,
    ensures
        ({
            let (due, first) = course(agent, AgentEvent::Due);
            let (failed, second) = course(due, AgentEvent::ReadFailed);
            let (found, third) = course(failed, AgentEvent::Sensors { count });
            let (_, fourth) = course(found, AgentEvent::ReadFailed);
            &&& first == AgentAction::Read
            &&& second == AgentAction::Rediscover
            &&& third == AgentAction::Read
            &&& fourth == AgentAction::Fail
        }),
{
}

proof fn lemma_token_is_a_word(token: Seq<char>)
    requires
        forall|i: int| 0 <= i < encode_utf8(token).len() ==> config::is_token_byte(
            #[trigger] encode_utf8(token)[i],
        ),
    ensures
        forall|i: int| 0 <= i < token.len() ==> !text::is_ascii_space(#[trigger] token[i]),
    decreases token.len(),
{
    if token.len() > 0 {
        let first = token[0];
        let rest = token.drop_first();
        let scalar = first as u32;
        let bytes = encode_utf8(token);
        let head = encode_scalar(scalar);
        assert(bytes == head + encode_utf8(rest));
        assert(head.len() > 0);
        assert(bytes[0] == head[0]);
        assert(config::is_token_byte(bytes[0]));
        if text::is_ascii_space(first) {
            assert(scalar as u8 == leading_byte_width_1(scalar)) by (bit_vector)
                requires
                    has_width_1_encoding(scalar),
            ;
            assert(bytes[0] == scalar as u8);
        }
        assert forall|i: int| 0 <= i < encode_utf8(rest).len() implies config::is_token_byte(
            #[trigger] encode_utf8(rest)[i],
        ) by {
            assert(bytes[head.len() + i] == encode_utf8(rest)[i]);
        }
        lemma_token_is_a_word(rest);
        assert forall|i: int| 0 <= i < token.len() implies !text::is_ascii_space(#[trigger] token[i]) by {
            if i > 0 {
                assert(token[i] == rest[i - 1]);
            }
        }
    }
}

/// A controller with the same token takes every packet of the agent whose
/// temperature it takes: the first after a silence, and each that follows the
/// one before.
pub proof fn law_controller_takes_the_packets(
    agent: Agent,
    token: Seq<char>,
    state: policy::PolicyState,
    temperature_milli_c: i32,
    last: Option<control::Heard>,
    now_millis: u64,
)
    requires
        config::valid_token(token),
        state.well_formed(),
        control::MIN_TEMPERATURE_MILLI_C <= temperature_milli_c <= control::MAX_TEMPERATURE_MILLI_C,
        control::is_stale(last, now_millis) || agent.sequence == last->0.command.sequence.wrapping_add(1),
    ensures
        ({
            let event = AgentEvent::Duty { temperature_milli_c, duty_percent: state.commanded };
            let command = course(agent, event).1->command;
            control::verdict(
                last,
                token,
                encode_utf8(control::packet_text(token, command)),
                now_millis,
            ) == Ok::<ControlCommand, control::SampleError>(command)
        }),
{
    let command = ControlCommand {
        sequence: agent.sequence,
        temperature_milli_c,
        requested_duty_percent: state.commanded,
    };
    lemma_token_is_a_word(token);
    assert(token.len() > 0) by {
        if token.len() == 0 {
            assert(encode_utf8(token).len() == 0);
        }
    }
    control::law_packet_round_trip(token, command);
}

/// An argument is what stands behind its name, where the name stands for the
/// first time. There is none where the name does not stand, or stands last.
pub proof fn law_argument_stands_behind_its_name(
    front: Seq<Seq<char>>,
    name: Seq<char>,
    value: Seq<char>,
    behind: Seq<Seq<char>>,
)
    requires
        !front.contains(name),
    ensures
        argument_behind(front + seq![name, value] + behind, name) == Some(value),
        argument_behind(front, name) is None,
        argument_behind(front + seq![name], name) is None,
    decreases front.len(),
{
    let whole = front + seq![name, value] + behind;
    let last = front + seq![name];
    if front.len() > 0 {
        let rest = front.drop_first();
        assert(front.contains(front[0]));
        assert forall|i: int| 0 <= i < rest.len() implies rest[i] != name by {
            assert(front.contains(front[i + 1]));
        }
        law_argument_stands_behind_its_name(rest, name, value, behind);
        assert(whole[0] == front[0]);
        assert(whole.drop_first() =~= rest + seq![name, value] + behind);
        assert(last[0] == front[0]);
        assert(last.drop_first() =~= rest + seq![name]);
    } else {
        assert(whole[0] == name && whole[1] == value);
    }
}

/// One round of the agent: when it is due it reads the sensors, asks the policy
/// about their temperature, and sends what the policy answers under its number.
/// Then it ends, or waits and counts on. It never forgets whether it goes but
/// one round.
pub proof fn law_round_of_the_agent(agent: Agent, milli_c: i32, temperature_milli_c: i32, duty_percent: u8)
    ensures
        ({
            let (due, first) = course(agent, AgentEvent::Due);
            let (read, second) = course(due, AgentEvent::Temperature { milli_c });
            let (decided, third) = course(read, AgentEvent::Duty { temperature_milli_c, duty_percent });
            let (sent, fourth) = course(decided, AgentEvent::Sent);
            &&& first == AgentAction::Read
            &&& second == AgentAction::Decide { temperature_milli_c: milli_c }
            &&& third is Send
            &&& third->command.sequence == agent.sequence
            &&& third->command.temperature_milli_c == temperature_milli_c
            &&& third->command.requested_duty_percent == duty_percent
            &&& !due.retrying
            &&& sent.once == agent.once
            &&& agent.once ==> fourth == AgentAction::Stop
            &&& !agent.once ==> fourth == AgentAction::Sleep
            &&& !agent.once && agent.sequence < 0xffff_ffff ==> sent.sequence == agent.sequence + 1
            &&& !agent.once && agent.sequence == 0xffff_ffff ==> sent.sequence == 0
        }),
{
}

/// Where no sensors are found after a failed reading, the agent waits for the
/// next round, under the same number, and may look for them again then.
pub proof fn law_missing_sensors_are_waited_for(agent: Agent)
    ensures
        ({
            let (due, _) = course(agent, AgentEvent::Due);
            let (failed, first) = course(due, AgentEvent::ReadFailed);
            let (waiting, second) = course(failed, AgentEvent::Sensors { count: 0 });
            let (again, third) = course(waiting, AgentEvent::Due);
            let (_, fourth) = course(again, AgentEvent::ReadFailed);
            &&& first == AgentAction::Rediscover
            &&& second == AgentAction::Sleep
            &&& third == AgentAction::Read
            &&& fourth == AgentAction::Rediscover
            &&& again.sequence == agent.sequence
            &&& again.once == agent.once
        }),
{
}

/// A path that is given wins over the user's configuration directory, and that
/// over the home directory. Without either directory there is no place, even
/// where a path is given.
pub proof fn law_given_path_wins(path_given: bool, config_home_known: bool, home_known: bool)
    ensures
        location_of(path_given, false, false) is None,
        location_of(true, true, home_known) == Some(ConfigLocation::Given),
        location_of(true, config_home_known, true) == Some(ConfigLocation::Given),
        location_of(false, true, home_known) == Some(ConfigLocation::ConfigHome),
        location_of(false, false, true) == Some(ConfigLocation::Home),
{
}

/// The sequence number to begin with holds the seconds, counting round, where
/// the nanoseconds are taken out of it again, and the nanoseconds where the
/// seconds are. Before the epoch it is zero.
pub proof fn law_first_sequence_mixes_the_time(seconds: u64, nanos: u32)
    ensures
        first_sequence(None) == 0,
        first_sequence(Some((seconds, nanos))) ^ nanos == seconds % 0x1_0000_0000,
        first_sequence(Some((seconds, nanos))) ^ (seconds % 0x1_0000_0000) as u32 == nanos,
{
    let low = (seconds % 0x1_0000_0000) as u32;
    assert((nanos ^ low) ^ nanos == low && (nanos ^ low) ^ low == nanos) by (bit_vector);
}

/// The arguments are taken as they are, in their order.
pub proof fn law_arguments_are_taken_as_they_are(arguments: Seq<String>, i: int)
    requires
        0 <= i < arguments.len(),
    ensures
        argument_texts(arguments).len() == arguments.len(),
        argument_texts(arguments)[i] == arguments[i]@,
{
}

/// No event changes whether the agent goes but one round. That it reads anew is
/// forgotten when it is due, kept in mind once sensors were found, and changed by
/// nothing else.
pub proof fn law_agent_keeps_its_mind(agent: Agent, event: AgentEvent)
    ensures
        ({
            let next = course(agent, event).0;
            &&& next.once == agent.once
            &&& event is Due ==> !next.retrying
            &&& event is Sensors && event->count > 0 ==> next.retrying
            &&& !(event is Due) && !(event is Sensors && event->count > 0) ==> next.retrying == agent.retrying
        }),
{
}

} // verus!
