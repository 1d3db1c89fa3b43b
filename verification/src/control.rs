//! The packets by which the host asks for a fan duty, and the state that the
//! controller keeps of them.
use vstd::prelude::*;
use vstd::string::*;
use vstd::utf8::*;

use crate::numbers;
use crate::numbers::{append_signed, append_unsigned, parse_i32, parse_u32, parse_u8};
use crate::text;
use crate::text::{same_text, split_words};

verus! {

pub const SAMPLE_TIMEOUT_MILLIS: u64 = 5_000;

pub const OFFLINE_COOLDOWN_MILLIS: u64 = 60_000;

pub const MIN_TEMPERATURE_MILLI_C: i32 = 0;

pub const MAX_TEMPERATURE_MILLI_C: i32 = 120_000;

pub const CONTROL_PORT: u16 = 42_110;

pub const MIN_DUTY_PERCENT: u8 = 20;

pub const MAX_DUTY_PERCENT: u8 = 100;

pub const HARD_EMERGENCY_TEMPERATURE_MILLI_C: i32 = 90_000;

pub const OFFLINE_FAN_DUTY_PERCENT: u8 = 0;

/// What a packet asks for.
#[derive(Clone, Copy, Debug, Eq, PartialEq, Structural)]
pub struct ControlCommand {
    pub sequence: u32,
    pub temperature_milli_c: i32,
    pub requested_duty_percent: u8,
}

/// Why a packet was turned down.
#[derive(Clone, Copy, Debug, Eq, PartialEq, Structural)]
pub enum SampleError {
    InvalidUtf8,
    InvalidShape,
    UnsupportedVersion,
    InvalidToken,
    InvalidSequence,
    InvalidTemperature,
    InvalidDuty,
    OutOfOrder,
}

impl ControlCommand {
    /// Whether temperature and duty are in the ranges that the controller
    /// takes.
    pub open spec fn in_range(self) -> bool {
        &&& MIN_TEMPERATURE_MILLI_C <= self.temperature_milli_c <= MAX_TEMPERATURE_MILLI_C
        &&& MIN_DUTY_PERCENT <= self.requested_duty_percent <= MAX_DUTY_PERCENT
    }
}

/// What the fields of a packet ask for: version, token, sequence number,
/// temperature and duty.
pub open spec fn command_in_fields(expected_token: Seq<char>, fields: Seq<Seq<char>>) -> Result<
    ControlCommand,
    SampleError,
> {
    if fields.len() == 0 || fields[0] != "LC2"@ {
        Err(SampleError::UnsupportedVersion)
    } else if fields.len() == 1 {
        Err(SampleError::InvalidShape)
    } else if fields[1] != expected_token {
        Err(SampleError::InvalidToken)
    } else if fields.len() == 2 {
        Err(SampleError::InvalidShape)
    } else {
        match numbers::unsigned_number(fields[2], u32::MAX as nat) {
            None => Err(SampleError::InvalidSequence),
            Some(sequence) => if fields.len() == 3 {
                Err(SampleError::InvalidShape)
            } else {
                match numbers::signed_number(fields[3], i32::MIN as int, i32::MAX as int) {
                    None => Err(SampleError::InvalidTemperature),
                    Some(temperature) => if fields.len() == 4 {
                        Err(SampleError::InvalidShape)
                    } else {
                        match numbers::unsigned_number(fields[4], u8::MAX as nat) {
                            None => Err(SampleError::InvalidDuty),
                            Some(duty) => if fields.len() > 5 {
                                Err(SampleError::InvalidShape)
                            } else {
                                ranged_command(sequence, temperature, duty)
                            },
                        }
                    },
                }
            },
        }
    }
}

/// The command of these three numbers, when they are in range.
pub open spec fn ranged_command(sequence: nat, temperature: int, duty: nat) -> Result<
    ControlCommand,
    SampleError,
> {
    if !(MIN_TEMPERATURE_MILLI_C <= temperature <= MAX_TEMPERATURE_MILLI_C) {
        Err(SampleError::InvalidTemperature)
    } else if !(MIN_DUTY_PERCENT <= duty <= MAX_DUTY_PERCENT) {
        Err(SampleError::InvalidDuty)
    } else {
        Ok(
            ControlCommand {
                sequence: sequence as u32,
                temperature_milli_c: temperature as i32,
                requested_duty_percent: duty as u8,
            },
        )
    }
}

/// What a packet asks for, from a host that knows the expected token.
pub open spec fn command_in_packet(expected_token: Seq<char>, packet: Seq<u8>) -> Result<
    ControlCommand,
    SampleError,
> {
    if !valid_utf8(packet) {
        Err(SampleError::InvalidUtf8)
    } else {
        command_in_fields(expected_token, text::words(decode_utf8(packet)))
    }
}

/// Whether sequence number `candidate` comes after `current`: it is ahead by
/// less than half of the numbers, counting round.
pub open spec fn comes_after(candidate: u32, current: u32) -> bool {
    0 < (candidate - current) % 0x1_0000_0000 < 0x8000_0000
}

/// The last packet that was accepted, and when.
pub struct Heard {
    pub command: ControlCommand,
    pub at_millis: u64,
}

/// Whether nothing was heard for so long that any sequence number will do.
pub open spec fn is_stale(last: Option<Heard>, now_millis: u64) -> bool {
    match last {
        None => true,
        Some(heard) => now_millis - heard.at_millis > SAMPLE_TIMEOUT_MILLIS,
    }
}

/// What becomes of a packet that arrives at `now_millis`.
pub open spec fn verdict(
    last: Option<Heard>,
    expected_token: Seq<char>,
    packet: Seq<u8>,
    now_millis: u64,
) -> Result<ControlCommand, SampleError> {
    match command_in_packet(expected_token, packet) {
        Err(error) => Err(error),
        Ok(command) => if !is_stale(last, now_millis) && !comes_after(
            command.sequence,
            last->0.command.sequence,
        ) {
            Err(SampleError::OutOfOrder)
        } else {
            Ok(command)
        },
    }
}

/// What is remembered after a packet with this verdict.
pub open spec fn remembered(
    last: Option<Heard>,
    verdict: Result<ControlCommand, SampleError>,
    now_millis: u64,
) -> Option<Heard> {
    match verdict {
        Ok(command) => Some(Heard { command, at_millis: now_millis }),
        Err(_) => last,
    }
}

/// The duty that the fan runs at.
pub open spec fn fan_duty(last: Option<Heard>, now_millis: u64) -> u8 {
    match last {
        None => OFFLINE_FAN_DUTY_PERCENT,
        Some(heard) => if now_millis - heard.at_millis > OFFLINE_COOLDOWN_MILLIS {
            OFFLINE_FAN_DUTY_PERCENT
        } else if heard.command.temperature_milli_c >= HARD_EMERGENCY_TEMPERATURE_MILLI_C {
            MAX_DUTY_PERCENT
        } else {
            heard.command.requested_duty_percent
        },
    }
}

/// The text of the packet that asks for `command`.
pub open spec fn packet_text(token: Seq<char>, command: ControlCommand) -> Seq<char> {
    "LC2 "@ + token + " "@ + numbers::decimal(command.sequence as nat) + " "@ + numbers::signed_decimal(
        command.temperature_milli_c as int,
    ) + " "@ + numbers::decimal(command.requested_duty_percent as nat) + "\n"@
}

/// What the controller knows of the host.
#[derive(Clone, Copy, Debug)]
pub struct HostState {
    last_sequence: Option<u32>,
    last_update_millis: Option<u64>,
    temperature_milli_c: i32,
    requested_duty_percent: u8,
}

impl View for HostState {
    type V = Option<Heard>;

    closed spec fn view(&self) -> Option<Heard> {
        match (self.last_sequence, self.last_update_millis) {
            (Some(sequence), Some(at_millis)) => Some(
                Heard {
                    command: ControlCommand {
                        sequence,
                        temperature_milli_c: self.temperature_milli_c,
                        requested_duty_percent: self.requested_duty_percent,
                    },
                    at_millis,
                },
            ),
            _ => None,
        }
    }
}

impl HostState {
    /// Sequence number and time are there together, and only commands in
    /// range are remembered.
    #[verifier::type_invariant]
    spec fn consistent(self) -> bool {
        &&& self.last_sequence is Some <==> self.last_update_millis is Some
        &&& self@ matches Some(heard) ==> heard.command.in_range()
    }

    /// The state of a controller that has heard nothing yet.
    pub fn new() -> (state: Self)
        ensures
            state@ is None,
    {
        HostState {
            last_sequence: None,
            last_update_millis: None,
            temperature_milli_c: 0,
            requested_duty_percent: OFFLINE_FAN_DUTY_PERCENT,
        }
    }

    /// Takes a packet that arrived at `now_millis`, or turns it down and stays
    /// as it was.
    pub fn accept(&mut self, expected_token: &str, packet: &[u8], now_millis: u64) -> (result: Result<
        ControlCommand,
        SampleError,
    >)
        ensures
            result == verdict(old(self)@, expected_token@, packet@, now_millis),
            final(self)@ == remembered(old(self)@, result, now_millis),
            result is Err ==> *final(self) == *old(self),
    {
        proof {
            use_type_invariant(&*self);
        }
        let command = match parse_command(expected_token, packet) {
            Ok(command) => command,
            Err(error) => {
                return Err(error);
            },
        };
        let stale = match self.last_update_millis {
            None => true,
            Some(updated) => now_millis.saturating_sub(updated) > SAMPLE_TIMEOUT_MILLIS,
        };
        let behind = match self.last_sequence {
            None => false,
            Some(current) => !sequence_is_newer(command.sequence, current),
        };
        if !stale && behind {
            return Err(SampleError::OutOfOrder);
        }
        *self = HostState {
            last_sequence: Some(command.sequence),
            last_update_millis: Some(now_millis),
            temperature_milli_c: command.temperature_milli_c,
            requested_duty_percent: command.requested_duty_percent,
        };
        Ok(command)
    }

    /// The duty that the fan is to run at.
    pub fn duty_percent(&self, now_millis: u64) -> (duty: u8)
        ensures
            duty == fan_duty(self@, now_millis),
            duty == OFFLINE_FAN_DUTY_PERCENT || MIN_DUTY_PERCENT <= duty <= MAX_DUTY_PERCENT,
    {
        proof {
            use_type_invariant(self);
        }
        let updated: u64 = match self.last_update_millis {
            None => {
                return OFFLINE_FAN_DUTY_PERCENT;
            },
            Some(updated) => updated,
        };
        if now_millis.saturating_sub(updated) > OFFLINE_COOLDOWN_MILLIS {
            return OFFLINE_FAN_DUTY_PERCENT;
        }
        if self.temperature_milli_c >= HARD_EMERGENCY_TEMPERATURE_MILLI_C {
            MAX_DUTY_PERCENT
        } else {
            self.requested_duty_percent
        }
    }
}

/// Reads a packet.
pub fn parse_command(expected_token: &str, packet: &[u8]) -> (result: Result<
    ControlCommand,
    SampleError,
>)
    ensures
        result == command_in_packet(expected_token@, packet@),
{
    let text = match core::str::from_utf8(packet) {
        Ok(text) => text,
        Err(_) => {
            return Err(SampleError::InvalidUtf8);
        },
    };
    proof {
        encode_utf8_decode_utf8(text@);
    }
    let fields = split_words(text);
    let ghost views = text::texts(fields@);
    assert(forall|i: int| 0 <= i < fields.len() ==> views[i] == (#[trigger] fields@[i])@);
    if fields.len() == 0 || !same_text(fields[0], "LC2") {
        return Err(SampleError::UnsupportedVersion);
    }
    if fields.len() == 1 {
        return Err(SampleError::InvalidShape);
    }
    let token = fields[1];
    let matching = constant_time_eq(token.as_bytes(), expected_token.as_bytes());
    proof {
        if matching {
            text::lemma_same_encoding(token@, expected_token@);
        }
    }
    if !matching {
        return Err(SampleError::InvalidToken);
    }
    if fields.len() == 2 {
        return Err(SampleError::InvalidShape);
    }
    let sequence: u32 = match parse_u32(fields[2]) {
        Some(sequence) => sequence,
        None => {
            return Err(SampleError::InvalidSequence);
        },
    };
    if fields.len() == 3 {
        return Err(SampleError::InvalidShape);
    }
    let temperature_milli_c: i32 = match parse_i32(fields[3]) {
        Some(temperature) => temperature,
        None => {
            return Err(SampleError::InvalidTemperature);
        },
    };
    if fields.len() == 4 {
        return Err(SampleError::InvalidShape);
    }
    let requested_duty_percent: u8 = match parse_u8(fields[4]) {
        Some(duty) => duty,
        None => {
            return Err(SampleError::InvalidDuty);
        },
    };
    if fields.len() > 5 {
        return Err(SampleError::InvalidShape);
    }
    if temperature_milli_c < MIN_TEMPERATURE_MILLI_C || temperature_milli_c > MAX_TEMPERATURE_MILLI_C {
        return Err(SampleError::InvalidTemperature);
    }
    if requested_duty_percent < MIN_DUTY_PERCENT || requested_duty_percent > MAX_DUTY_PERCENT {
        return Err(SampleError::InvalidDuty);
    }
    Ok(ControlCommand { sequence, temperature_milli_c, requested_duty_percent })
}

/// Whether sequence number `candidate` comes after `current`.
pub fn sequence_is_newer(candidate: u32, current: u32) -> (newer: bool)
    ensures
        newer == comes_after(candidate, current),
{
    candidate != current && candidate.wrapping_sub(current) < 0x8000_0000
}

/// Whether two byte strings are equal, looking at every byte of them whatever
/// the bytes are.
pub fn constant_time_eq(left: &[u8], right: &[u8]) -> (same: bool)
    ensures
        same == (left@ == right@),
{
    if left.len() != right.len() {
        return false;
    }
    let mut difference: u8 = 0;
    let mut i: usize = 0;
    while i < left.len()
        invariant
            i <= left.len(),
            left.len() == right.len(),
            difference == 0 <==> left@.take(i as int) =~= right@.take(i as int),
        decreases left.len() - i,
    {
        let l: u8 = left[i];
        let r: u8 = right[i];
        assert((difference | (l ^ r) == 0) == (difference == 0 && l == r)) by (bit_vector);
        let ghost before = difference;
        difference = difference | (l ^ r);
        i += 1;
        proof {
            let a = left@.take(i as int);
            let b = right@.take(i as int);
            assert(a.drop_last() =~= left@.take(i - 1));
            assert(b.drop_last() =~= right@.take(i - 1));
            assert(a =~= a.drop_last().push(l));
            assert(b =~= b.drop_last().push(r));
            if a =~= b {
                assert(a.last() == b.last());
            }
        }
    }
    assert(left@.take(i as int) =~= left@);
    assert(right@.take(i as int) =~= right@);
    difference == 0
}

/// Writes the packet that asks for `command`.
pub fn format_packet(token: &str, command: &ControlCommand) -> (packet: String)
    ensures
        packet@ == packet_text(token@, *command),
{
    let mut packet = String::new();
    packet.append("LC2 ");
    packet.append(token);
    packet.append(" ");
    append_unsigned(&mut packet, command.sequence as u64);
    packet.append(" ");
    append_signed(&mut packet, command.temperature_milli_c);
    packet.append(" ");
    append_unsigned(&mut packet, command.requested_duty_percent as u64);
    packet.append("\n");
    assert(packet@ =~= packet_text(token@, *command));
    packet
}

proof fn lemma_decimal_is_word(value: nat)
    ensures
        text::is_word(numbers::decimal(value)),
{
    numbers::lemma_decimal_is_read_back(value);
    let digits = numbers::decimal(value);
    assert forall|i: int| 0 <= i < digits.len() implies !text::is_ascii_space(#[trigger] digits[i]) by {
        assert(numbers::is_digit(digits[i]));
    }
}

proof fn lemma_signed_decimal_is_word(value: int)
    ensures
        text::is_word(numbers::signed_decimal(value)),
{
    if value < 0 {
        lemma_decimal_is_word((-value) as nat);
        let digits = numbers::decimal((-value) as nat);
        let signed = numbers::signed_decimal(value);
        assert forall|i: int| 0 <= i < signed.len() implies !text::is_ascii_space(#[trigger] signed[i]) by {
            if i > 0 {
                assert(signed[i] == digits[i - 1]);
            }
        }
    } else {
        lemma_decimal_is_word(value as nat);
    }
}

/// The words of a packet are its version, its token and its three numbers.
proof fn lemma_packet_words(token: Seq<char>, command: ControlCommand)
    requires
        text::is_word(token),
    ensures
        text::words(packet_text(token, command)) == seq![
            "LC2"@,
            token,
            numbers::decimal(command.sequence as nat),
            numbers::signed_decimal(command.temperature_milli_c as int),
            numbers::decimal(command.requested_duty_percent as nat),
        ],
{
    let whole = packet_text(token, command);
    reveal_strlit("LC2 ");
    reveal_strlit("LC2");
    reveal_strlit(" ");
    reveal_strlit("\n");
    let sequence = numbers::decimal(command.sequence as nat);
    let temperature = numbers::signed_decimal(command.temperature_milli_c as int);
    let duty = numbers::decimal(command.requested_duty_percent as nat);
    lemma_decimal_is_word(command.sequence as nat);
    lemma_signed_decimal_is_word(command.temperature_milli_c as int);
    lemma_decimal_is_word(command.requested_duty_percent as nat);
    let after_duty = Seq::<char>::empty();
    let after_temperature = duty + seq!['\n'] + after_duty;
    let after_sequence = temperature + seq![' '] + after_temperature;
    let after_token = sequence + seq![' '] + after_sequence;
    let after_version = token + seq![' '] + after_token;
    text::lemma_words_step(duty, '\n', after_duty);
    text::lemma_words_step(temperature, ' ', after_temperature);
    text::lemma_words_step(sequence, ' ', after_sequence);
    text::lemma_words_step(token, ' ', after_token);
    text::lemma_words_step("LC2"@, ' ', after_version);
    assert(whole =~= "LC2"@ + seq![' '] + after_version);
    assert(text::words(whole) =~= seq!["LC2"@, token, sequence, temperature, duty]);
}

/// A packet is read as the command it was written for: whatever the host
/// sends with the token that the controller expects, the controller takes,
/// or turns down for its temperature or its duty alone.
pub proof fn law_packet_round_trip(token: Seq<char>, command: ControlCommand)
    requires
        text::is_word(token),
    ensures
        command_in_packet(token, encode_utf8(packet_text(token, command))) == ranged_command(
            command.sequence as nat,
            command.temperature_milli_c as int,
            command.requested_duty_percent as nat,
        ),
        command.in_range() ==> command_in_packet(token, encode_utf8(packet_text(token, command))) == Ok::<
            ControlCommand,
            SampleError,
        >(command),
{
    let whole = packet_text(token, command);
    encode_utf8_valid_utf8(whole);
    encode_utf8_decode_utf8(whole);
    lemma_packet_words(token, command);
    numbers::law_unsigned_round_trip(command.sequence as nat, u32::MAX as nat);
    numbers::law_signed_round_trip(command.temperature_milli_c as int, i32::MIN as int, i32::MAX as int);
    numbers::law_unsigned_round_trip(command.requested_duty_percent as nat, u8::MAX as nat);
}

/// Of two sequence numbers at most one comes after the other.
pub proof fn law_newer_is_one_way(a: u32, b: u32)
    ensures
        !(comes_after(a, b) && comes_after(b, a)),
{
}

/// The sequence number that the host sends next comes after the last, also
/// where the count starts over.
pub proof fn law_next_sequence_is_newer(sequence: u32)
    ensures
        comes_after(sequence.wrapping_add(1), sequence),
{
}

/// A packet that was accepted is turned down when it comes again within the
/// timeout.
pub proof fn law_replay_is_turned_down(
    last: Option<Heard>,
    expected_token: Seq<char>,
    packet: Seq<u8>,
    first_millis: u64,
    second_millis: u64,
)
    requires
        verdict(last, expected_token, packet, first_millis) is Ok,
        second_millis - first_millis <= SAMPLE_TIMEOUT_MILLIS,
    ensures
        verdict(
            remembered(last, verdict(last, expected_token, packet, first_millis), first_millis),
            expected_token,
            packet,
            second_millis,
        ) == Err::<ControlCommand, SampleError>(SampleError::OutOfOrder),
{
}

/// Only packets that show the expected token are accepted.
pub proof fn law_accepted_packet_shows_the_token(
    last: Option<Heard>,
    expected_token: Seq<char>,
    packet: Seq<u8>,
    now_millis: u64,
)
    requires
        verdict(last, expected_token, packet, now_millis) is Ok,
    ensures
        valid_utf8(packet),
        text::words(decode_utf8(packet)).len() == 5,
        text::words(decode_utf8(packet))[0] == "LC2"@,
        text::words(decode_utf8(packet))[1] == expected_token,
        verdict(last, expected_token, packet, now_millis)->Ok_0.in_range(),
{
}

/// Packets of a host that does not know the token change nothing: they are
/// never accepted.
pub proof fn law_wrong_token_is_turned_down(
    last: Option<Heard>,
    expected_token: Seq<char>,
    token: Seq<char>,
    command: ControlCommand,
    now_millis: u64,
)
    requires
        text::is_word(token),
        token != expected_token,
    ensures
        verdict(last, expected_token, encode_utf8(packet_text(token, command)), now_millis) == Err::<
            ControlCommand,
            SampleError,
        >(SampleError::InvalidToken),
{
    let whole = packet_text(token, command);
    encode_utf8_valid_utf8(whole);
    encode_utf8_decode_utf8(whole);
    lemma_packet_words(token, command);
}

/// A sequence number does not matter once nothing was accepted for longer
/// than the timeout.
pub proof fn law_silence_forgets_the_sequence(
    last: Option<Heard>,
    expected_token: Seq<char>,
    packet: Seq<u8>,
    now_millis: u64,
)
    requires
        is_stale(last, now_millis),
    ensures
        verdict(last, expected_token, packet, now_millis) == command_in_packet(expected_token, packet),
{
}

/// The fan stops when the cooldown has passed without an accepted packet, and
/// not before.
pub proof fn law_fan_stops_after_cooldown(
    last: Option<Heard>,
    expected_token: Seq<char>,
    packet: Seq<u8>,
    accepted_millis: u64,
    now_millis: u64,
)
    requires
        verdict(last, expected_token, packet, accepted_millis) is Ok,
    ensures
        ({
            let after = remembered(
                last,
                verdict(last, expected_token, packet, accepted_millis),
                accepted_millis,
            );
            fan_duty(after, now_millis) == OFFLINE_FAN_DUTY_PERCENT <==> now_millis - accepted_millis
                > OFFLINE_COOLDOWN_MILLIS
        }),
{
}

/// A host that reports an emergency temperature has the fan at full speed,
/// whatever duty it asks for, until the cooldown has passed.
pub proof fn law_emergency_overrides_the_request(heard: Heard, now_millis: u64)
    requires
        heard.command.temperature_milli_c >= HARD_EMERGENCY_TEMPERATURE_MILLI_C,
        now_millis - heard.at_millis <= OFFLINE_COOLDOWN_MILLIS,
    ensures
        fan_duty(Some(heard), now_millis) == MAX_DUTY_PERCENT,
{
}

/// What a packet asks for is pinned down by its words: the version, the token,
/// and three numbers in their ranges, and nothing more. Whatever is wrong first
/// is told, but that a temperature or a duty out of range comes after a word too
/// many.
pub proof fn law_packet_is_read_word_by_word(token: Seq<char>, packet: Seq<u8>)
    ensures
        ({
            let w = text::words(decode_utf8(packet));
            let read = command_in_packet(token, packet);
            let sequence = numbers::unsigned_number(w[2], 0xffff_ffff);
            let temperature = numbers::signed_number(w[3], -0x8000_0000, 0x7fff_ffff);
            let duty = numbers::unsigned_number(w[4], 255);
            if !valid_utf8(packet) {
                read == Err::<ControlCommand, SampleError>(SampleError::InvalidUtf8)
            } else if w.len() == 0 || w[0] != "LC2"@ {
                read == Err::<ControlCommand, SampleError>(SampleError::UnsupportedVersion)
            } else if w.len() >= 2 && w[1] != token {
                read == Err::<ControlCommand, SampleError>(SampleError::InvalidToken)
            } else if w.len() >= 3 && sequence is None {
                read == Err::<ControlCommand, SampleError>(SampleError::InvalidSequence)
            } else if w.len() >= 4 && temperature is None {
                read == Err::<ControlCommand, SampleError>(SampleError::InvalidTemperature)
            } else if w.len() >= 5 && duty is None {
                read == Err::<ControlCommand, SampleError>(SampleError::InvalidDuty)
            } else if w.len() != 5 {
                read == Err::<ControlCommand, SampleError>(SampleError::InvalidShape)
            } else if temperature->0 < 0 || temperature->0 > 120_000 {
                read == Err::<ControlCommand, SampleError>(SampleError::InvalidTemperature)
            } else if duty->0 < 20 || duty->0 > 100 {
                read == Err::<ControlCommand, SampleError>(SampleError::InvalidDuty)
            } else {
                &&& read is Ok
                &&& read->Ok_0.sequence == sequence->0
                &&& read->Ok_0.temperature_milli_c == temperature->0
                &&& read->Ok_0.requested_duty_percent == duty->0
            }
        }),
{
}

/// The packet of any command between 0 and 120 degrees and between 20 and 100
/// percent is read as that command by a controller with its token.
pub proof fn law_packet_in_range_is_read_back(token: Seq<char>, command: ControlCommand)
    requires
        text::is_word(token),
        0 <= command.temperature_milli_c <= 120_000,
        20 <= command.requested_duty_percent <= 100,
    ensures
        command_in_packet(token, encode_utf8(packet_text(token, command))) == Ok::<
            ControlCommand,
            SampleError,
        >(command),
{
    law_packet_round_trip(token, command);
}

/// What becomes of a packet that reads as a command. Until five seconds have
/// passed since the last that was accepted, it is accepted exactly where its
/// sequence number is ahead of that one's by 1 to 2^31 - 1, counting round.
/// Later, and where nothing was accepted before, it is accepted in any case.
pub proof fn law_packets_ahead_are_accepted(
    last: Option<Heard>,
    token: Seq<char>,
    packet: Seq<u8>,
    command: ControlCommand,
    ahead: int,
    now_millis: u64,
)
    requires
        command_in_packet(token, packet) == Ok::<ControlCommand, SampleError>(command),
        0 <= ahead < 0x1_0000_0000,
        last matches Some(heard) ==> command.sequence == (heard.command.sequence + ahead) % 0x1_0000_0000,
    ensures
        verdict(last, token, packet, now_millis) == if last is Some && now_millis - last->0.at_millis <= 5_000
            && !(0 < ahead < 0x8000_0000) {
            Err::<ControlCommand, SampleError>(SampleError::OutOfOrder)
        } else {
            Ok(command)
        },
{
}

/// The packet of any command in range that is ahead of the last one is
/// accepted, however many packets were lost between them.
pub proof fn law_lost_packets_do_no_harm(
    last: Heard,
    token: Seq<char>,
    command: ControlCommand,
    ahead: int,
    now_millis: u64,
)
    requires
        text::is_word(token),
        0 <= command.temperature_milli_c <= 120_000,
        20 <= command.requested_duty_percent <= 100,
        0 < ahead < 0x8000_0000,
        command.sequence == (last.command.sequence + ahead) % 0x1_0000_0000,
    ensures
        verdict(Some(last), token, encode_utf8(packet_text(token, command)), now_millis) == Ok::<
            ControlCommand,
            SampleError,
        >(command),
{
    law_packet_round_trip(token, command);
}

/// A packet that does not read as a command is turned down for the reason that
/// it does not, whatever was heard before.
pub proof fn law_unreadable_packet_is_turned_down(
    last: Option<Heard>,
    token: Seq<char>,
    packet: Seq<u8>,
    now_millis: u64,
)
    requires
        command_in_packet(token, packet) is Err,
    ensures
        verdict(last, token, packet, now_millis) == command_in_packet(token, packet),
{
}

/// What the fan does after a packet. Where it is accepted, the fan runs at the
/// duty that was asked for while no more than a minute has passed, at full speed
/// instead from 90 degrees on, and stands still after that minute. Where it is
/// turned down, the fan runs as if it had not come.
pub proof fn law_fan_runs_as_asked(
    last: Option<Heard>,
    token: Seq<char>,
    packet: Seq<u8>,
    arrived_millis: u64,
    now_millis: u64,
)
    ensures
        ({
            let verdict = verdict(last, token, packet, arrived_millis);
            let duty = fan_duty(remembered(last, verdict, arrived_millis), now_millis);
            match verdict {
                Ok(command) => if now_millis - arrived_millis > 60_000 {
                    duty == 0
                } else if command.temperature_milli_c >= 90_000 {
                    duty == 100
                } else {
                    duty == command.requested_duty_percent
                },
                Err(_) => duty == fan_duty(last, now_millis),
            }
        }),
{
}

/// The fan stands still where nothing was ever accepted.
pub proof fn law_fan_stands_still_at_first(now_millis: u64)
    ensures
        fan_duty(None, now_millis) == 0,
{
}

/// What is remembered of a packet that was accepted is the packet and its time:
/// the next is held against them.
pub proof fn law_accepted_packet_is_remembered(
    last: Option<Heard>,
    token: Seq<char>,
    packet: Seq<u8>,
    now_millis: u64,
)
    ensures
        ({
            let verdict = verdict(last, token, packet, now_millis);
            let after = remembered(last, verdict, now_millis);
            match verdict {
                Ok(command) => after is Some && after->0.command == command && after->0.at_millis == now_millis,
                Err(_) => after == last,
            }
        }),
{
}

/// The words of a packet are its version, its token and its three numbers, and a
/// line feed ends it.
pub proof fn law_packet_is_made_of_words(token: Seq<char>, command: ControlCommand)
    requires
        text::is_word(token),
    ensures
        text::words(packet_text(token, command)) == seq![
            "LC2"@,
            token,
            numbers::decimal(command.sequence as nat),
            numbers::signed_decimal(command.temperature_milli_c as int),
            numbers::decimal(command.requested_duty_percent as nat),
        ],
        packet_text(token, command).last() == '\n',
{
    lemma_packet_words(token, command);
    reveal_strlit("\n");
}

} // verus!
