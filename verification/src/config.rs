//! The configuration of the controller, and the record by which it is stored.
use vstd::prelude::*;
use vstd::slice::*;
use vstd::string::*;
use vstd::utf8::*;

use crate::bounded;
use crate::bounded::BoundedText;
use crate::checksum;

verus! {

pub const MAX_SSID_LEN: usize = 32;

pub const MAX_PASSWORD_LEN: usize = 64;

pub const MAX_TOKEN_LEN: usize = 32;

pub const MIN_TOKEN_LEN: usize = 16;

pub const RECORD_LEN: usize = 256;

pub const COMMIT_OFFSET: usize = RECORD_LEN - 4;

pub const VERSION: u8 = 1;

pub const GENERATION_OFFSET: usize = 12;

pub const CRC_OFFSET: usize = 16;

pub const HEADER_LEN: usize = 20;

pub const SSID_OFFSET: usize = HEADER_LEN;

pub const PASSWORD_OFFSET: usize = SSID_OFFSET + MAX_SSID_LEN;

pub const TOKEN_OFFSET: usize = PASSWORD_OFFSET + MAX_PASSWORD_LEN;

/// How the controller joins the network, and the token that the host shows.
#[derive(Debug, Eq, PartialEq)]
pub struct DeviceConfig {
    pub ssid: heapless::String<MAX_SSID_LEN>,
    pub password: heapless::String<MAX_PASSWORD_LEN>,
    pub token: heapless::String<MAX_TOKEN_LEN>,
}

/// Why there is no configuration.
#[derive(Clone, Copy, Debug, Eq, PartialEq, Structural)]
pub enum ConfigError {
    Missing,
    Uncommitted,
    UnsupportedVersion,
    Corrupt,
    InvalidUtf8,
    InvalidSsid,
    InvalidPassword,
    InvalidToken,
}

/// The texts of a configuration.
#[verifier::ext_equal]
pub struct DeviceTexts {
    pub ssid: Seq<char>,
    pub password: Seq<char>,
    pub token: Seq<char>,
}

impl View for DeviceConfig {
    type V = DeviceTexts;

    open spec fn view(&self) -> DeviceTexts {
        DeviceTexts { ssid: self.ssid.text(), password: self.password.text(), token: self.token.text() }
    }
}

/// A bounded text with the same characters.
fn copy_of<T: BoundedText>(text: &T) -> (copy: T)
    ensures
        copy.text() == text.text(),
{
    let chars = text.as_text();
    let mut copy = T::empty();
    assert(encode_utf8(copy.text()).len() == 0);
    let _ = copy.append(chars);
    assert(copy.text() =~= text.text());
    copy
}

impl Clone for DeviceConfig {
    fn clone(&self) -> (copy: Self)
        ensures
            copy@ == self@,
    {
        DeviceConfig {
            ssid: copy_of(&self.ssid),
            password: copy_of(&self.password),
            token: copy_of(&self.token),
        }
    }
}

/// Whether `byte` is an ASCII hexadecimal digit.
pub open spec fn is_hex_digit(byte: u8) -> bool {
    let c = byte as char;
    '0' <= c <= '9' || 'a' <= c <= 'f' || 'A' <= c <= 'F'
}

/// Whether `byte` may stand in a token: ASCII letters and digits, `-` and `_`.
pub open spec fn is_token_byte(byte: u8) -> bool {
    let c = byte as char;
    '0' <= c <= '9' || 'a' <= c <= 'z' || 'A' <= c <= 'Z' || c == '-' || c == '_'
}

pub open spec fn valid_ssid(ssid: Seq<char>) -> bool {
    0 < encode_utf8(ssid).len() <= MAX_SSID_LEN
}

/// A password is absent, a passphrase, or a key in hexadecimal.
pub open spec fn valid_password(password: Seq<char>) -> bool {
    let bytes = encode_utf8(password);
    ||| bytes.len() == 0
    ||| 8 <= bytes.len() <= 63
    ||| bytes.len() == 64 && forall|i: int| 0 <= i < bytes.len() ==> is_hex_digit(#[trigger] bytes[i])
}

pub open spec fn valid_token(token: Seq<char>) -> bool {
    let bytes = encode_utf8(token);
    &&& MIN_TOKEN_LEN <= bytes.len() <= MAX_TOKEN_LEN
    &&& forall|i: int| 0 <= i < bytes.len() ==> is_token_byte(#[trigger] bytes[i])
}

impl DeviceTexts {
    /// Whether the controller takes these texts.
    pub open spec fn valid(self) -> bool {
        valid_ssid(self.ssid) && valid_password(self.password) && valid_token(self.token)
    }

    /// Whether each text fits the space it has in a record.
    pub open spec fn fits(self) -> bool {
        &&& encode_utf8(self.ssid).len() <= MAX_SSID_LEN
        &&& encode_utf8(self.password).len() <= MAX_PASSWORD_LEN
        &&& encode_utf8(self.token).len() <= MAX_TOKEN_LEN
    }

    /// These texts, or what is wrong with the first that is not valid.
    pub open spec fn checked(self) -> Result<DeviceTexts, ConfigError> {
        if !valid_ssid(self.ssid) {
            Err(ConfigError::InvalidSsid)
        } else if !valid_password(self.password) {
            Err(ConfigError::InvalidPassword)
        } else if !valid_token(self.token) {
            Err(ConfigError::InvalidToken)
        } else {
            Ok(self)
        }
    }
}

/// The four bytes of `value`, the lowest first.
pub open spec fn little_endian(value: u32) -> Seq<u8> {
    seq![
        (value & 0xff) as u8,
        ((value >> 8) & 0xff) as u8,
        ((value >> 16) & 0xff) as u8,
        ((value >> 24) & 0xff) as u8,
    ]
}

/// The number whose four bytes, the lowest first, stand in `bytes` at `offset`.
pub open spec fn number_at(bytes: Seq<u8>, offset: int) -> u32 {
    (bytes[offset] as u32) | (bytes[offset + 1] as u32) << 8 | (bytes[offset + 2] as u32) << 16 | (
    bytes[offset + 3] as u32) << 24
}

/// What a record begins with.
pub open spec fn magic() -> Seq<u8> {
    seq!['L' as u8, 'C' as u8, 'W' as u8, 'F' as u8]
}

/// What a record ends with once it has been written whole.
pub open spec fn commit_marker() -> Seq<u8> {
    seq!['L' as u8, 'C' as u8, 'O' as u8, 'K' as u8]
}

/// The byte at `index` of a space that `bytes` are written to: erased behind
/// them.
pub open spec fn padded(bytes: Seq<u8>, index: int) -> u8 {
    if index < bytes.len() {
        bytes[index]
    } else {
        0xff
    }
}

/// The layout of a record.
pub open spec fn record_with_checksum(texts: DeviceTexts, generation: u32, crc: u32) -> Seq<u8> {
    let ssid = encode_utf8(texts.ssid);
    let password = encode_utf8(texts.password);
    let token = encode_utf8(texts.token);
    Seq::new(
        RECORD_LEN as nat,
        |i: int|
            if i < 4 {
                magic()[i]
            } else if i == 4 {
                VERSION
            } else if i == 5 {
                0
            } else if i == 6 {
                ssid.len() as u8
            } else if i == 7 {
                password.len() as u8
            } else if i == 8 {
                token.len() as u8
            } else if i < GENERATION_OFFSET {
                0
            } else if i < CRC_OFFSET {
                little_endian(generation)[i - GENERATION_OFFSET]
            } else if i < HEADER_LEN {
                little_endian(crc)[i - CRC_OFFSET]
            } else if i < PASSWORD_OFFSET {
                padded(ssid, i - SSID_OFFSET)
            } else if i < TOKEN_OFFSET {
                padded(password, i - PASSWORD_OFFSET)
            } else if i < COMMIT_OFFSET {
                padded(token, i - TOKEN_OFFSET)
            } else {
                commit_marker()[i - COMMIT_OFFSET]
            },
    )
}

/// The part of a record that the checksum covers: all before the commit
/// marker, with zeros for the checksum itself.
pub open spec fn covered(record: Seq<u8>) -> Seq<u8> {
    Seq::new(
        COMMIT_OFFSET as nat,
        |i: int|
            if CRC_OFFSET <= i < HEADER_LEN {
                0
            } else {
                record[i]
            },
    )
}

/// The record of a configuration.
pub open spec fn encoded(texts: DeviceTexts, generation: u32) -> Seq<u8> {
    record_with_checksum(
        texts,
        generation,
        checksum::crc32(covered(record_with_checksum(texts, generation, 0))),
    )
}

/// The configuration and generation that a record holds.
pub open spec fn decoded(record: Seq<u8>) -> Result<(DeviceTexts, u32), ConfigError> {
    let ssid_len = record[6] as int;
    let password_len = record[7] as int;
    let token_len = record[8] as int;
    if forall|i: int| 0 <= i < RECORD_LEN ==> #[trigger] record[i] == 0xff {
        Err(ConfigError::Missing)
    } else if record.subrange(COMMIT_OFFSET as int, RECORD_LEN as int) != commit_marker() {
        Err(ConfigError::Uncommitted)
    } else if record.subrange(0, 4) != magic() {
        Err(ConfigError::Corrupt)
    } else if record[4] != VERSION || record[5] != 0 {
        Err(ConfigError::UnsupportedVersion)
    } else if checksum::crc32(covered(record)) != number_at(record, CRC_OFFSET as int) {
        Err(ConfigError::Corrupt)
    } else if ssid_len == 0 || ssid_len > MAX_SSID_LEN {
        Err(ConfigError::InvalidSsid)
    } else if password_len > MAX_PASSWORD_LEN {
        Err(ConfigError::InvalidPassword)
    } else if !(MIN_TOKEN_LEN <= token_len <= MAX_TOKEN_LEN) {
        Err(ConfigError::InvalidToken)
    } else {
        decoded_texts(
            record.subrange(SSID_OFFSET as int, SSID_OFFSET + ssid_len),
            record.subrange(PASSWORD_OFFSET as int, PASSWORD_OFFSET + password_len),
            record.subrange(TOKEN_OFFSET as int, TOKEN_OFFSET + token_len),
            number_at(record, GENERATION_OFFSET as int),
        )
    }
}

/// The configuration whose texts have these encodings.
pub open spec fn decoded_texts(
    ssid: Seq<u8>,
    password: Seq<u8>,
    token: Seq<u8>,
    generation: u32,
) -> Result<(DeviceTexts, u32), ConfigError> {
    if !valid_utf8(ssid) || !valid_utf8(password) || !valid_utf8(token) {
        Err(ConfigError::InvalidUtf8)
    } else {
        let texts = DeviceTexts {
            ssid: decode_utf8(ssid),
            password: decode_utf8(password),
            token: decode_utf8(token),
        };
        match texts.checked() {
            Ok(texts) => Ok((texts, generation)),
            Err(error) => Err(error),
        }
    }
}

/// Whether every byte is a hexadecimal digit.
fn all_hex_digits(bytes: &[u8]) -> (result: bool)
    ensures
        result == forall|i: int| 0 <= i < bytes@.len() ==> is_hex_digit(#[trigger] bytes@[i]),
{
    let mut i: usize = 0;
    while i < bytes.len()
        invariant
            i <= bytes.len(),
            forall|j: int| 0 <= j < i ==> is_hex_digit(#[trigger] bytes@[j]),
        decreases bytes.len() - i,
    {
        let c = bytes[i] as char;
        if !(('0' <= c && c <= '9') || ('a' <= c && c <= 'f') || ('A' <= c && c <= 'F')) {
            return false;
        }
        i += 1;
    }
    true
}

/// Whether every byte may stand in a token.
pub fn all_token_bytes(bytes: &[u8]) -> (result: bool)
    ensures
        result == forall|i: int| 0 <= i < bytes@.len() ==> is_token_byte(#[trigger] bytes@[i]),
{
    let mut i: usize = 0;
    while i < bytes.len()
        invariant
            i <= bytes.len(),
            forall|j: int| 0 <= j < i ==> is_token_byte(#[trigger] bytes@[j]),
        decreases bytes.len() - i,
    {
        let c = bytes[i] as char;
        if !(('0' <= c && c <= '9') || ('a' <= c && c <= 'z') || ('A' <= c && c <= 'Z') || c == '-' || c == '_') {
            return false;
        }
        i += 1;
    }
    true
}

impl DeviceConfig {
    /// The configuration of these texts, when all of them are valid.
    pub fn new(ssid: &str, password: &str, token: &str) -> (result: Result<Self, ConfigError>)
        ensures
            ({
                let texts = DeviceTexts { ssid: ssid@, password: password@, token: token@ };
                match result {
                    Ok(config) => config@ == texts && texts.checked() == Ok::<DeviceTexts, ConfigError>(texts),
                    Err(error) => texts.checked() == Err::<DeviceTexts, ConfigError>(error),
                }
            }),
    {
        let ssid_len = ssid.as_bytes().len();
        if ssid_len == 0 || ssid_len > MAX_SSID_LEN {
            return Err(ConfigError::InvalidSsid);
        }
        let password_len = password.as_bytes().len();
        let password_is_valid = password_len == 0 || (8 <= password_len && password_len <= 63) || (
        password_len == 64 && all_hex_digits(password.as_bytes()));
        if !password_is_valid {
            return Err(ConfigError::InvalidPassword);
        }
        let token_len = token.as_bytes().len();
        if token_len < MIN_TOKEN_LEN || token_len > MAX_TOKEN_LEN || !all_token_bytes(token.as_bytes()) {
            return Err(ConfigError::InvalidToken);
        }
        let ssid_value = match bounded::bounded(ssid) {
            Some(value) => value,
            None => {
                return Err(ConfigError::InvalidSsid);
            },
        };
        let password_value = match bounded::bounded(password) {
            Some(value) => value,
            None => {
                return Err(ConfigError::InvalidPassword);
            },
        };
        let token_value = match bounded::bounded(token) {
            Some(value) => value,
            None => {
                return Err(ConfigError::InvalidToken);
            },
        };
        Ok(DeviceConfig { ssid: ssid_value, password: password_value, token: token_value })
    }

    /// Whether two configurations have the same texts.
    pub fn same(&self, other: &DeviceConfig) -> (same: bool)
        ensures
            same == (self@ == other@),
    {
        crate::text::same_text(self.ssid.as_text(), other.ssid.as_text()) && crate::text::same_text(
            self.password.as_text(),
            other.password.as_text(),
        ) && crate::text::same_text(self.token.as_text(), other.token.as_text())
    }
}

/// Writes `bytes` into a record from `offset` on.
fn put(record: &mut [u8; RECORD_LEN], offset: usize, bytes: &[u8])
    requires
        offset + bytes@.len() <= RECORD_LEN,
    ensures
        forall|i: int|
            0 <= i < RECORD_LEN ==> #[trigger] final(record)@[i] == if offset <= i < offset + bytes@.len() {
                bytes@[i - offset]
            } else {
                old(record)@[i]
            },
{
    let mut n: usize = 0;
    while n < bytes.len()
        invariant
            n <= bytes.len(),
            offset + bytes@.len() <= RECORD_LEN,
            forall|i: int|
                0 <= i < RECORD_LEN ==> #[trigger] record@[i] == if offset <= i < offset + n {
                    bytes@[i - offset]
                } else {
                    old(record)@[i]
                },
        decreases bytes.len() - n,
    {
        record[offset + n] = bytes[n];
        n += 1;
    }
}

/// Writes the four bytes of `value` into a record, the lowest first.
fn put_number(record: &mut [u8; RECORD_LEN], offset: usize, value: u32)
    requires
        offset + 4 <= RECORD_LEN,
    ensures
        forall|i: int|
            0 <= i < RECORD_LEN ==> #[trigger] final(record)@[i] == if offset <= i < offset + 4 {
                little_endian(value)[i - offset]
            } else {
                old(record)@[i]
            },
{
    let bytes: [u8; 4] = [
        (value & 0xff) as u8,
        ((value >> 8) & 0xff) as u8,
        ((value >> 16) & 0xff) as u8,
        ((value >> 24) & 0xff) as u8,
    ];
    assert(bytes@ =~= little_endian(value));
    put(record, offset, bytes.as_slice());
}

/// Reads four bytes of a record, the lowest first.
fn get_number(record: &[u8; RECORD_LEN], offset: usize) -> (value: u32)
    requires
        offset + 4 <= RECORD_LEN,
    ensures
        value == number_at(record@, offset as int),
{
    (record[offset] as u32) | (record[offset + 1] as u32) << 8 | (record[offset + 2] as u32) << 16 | (
    record[offset + 3] as u32) << 24
}

/// The checksum of a record, over all before the commit marker and with zeros
/// for the checksum itself.
pub fn record_crc(record: &[u8; RECORD_LEN]) -> (crc: u32)
    ensures
        crc == checksum::crc32(covered(record@)),
{
    let ghost bytes = covered(record@);
    let mut state: u32 = 0xffff_ffff;
    let mut index: usize = 0;
    while index < COMMIT_OFFSET
        invariant
            index <= COMMIT_OFFSET,
            bytes == covered(record@),
            state == checksum::crc_state(bytes.take(index as int)),
        decreases COMMIT_OFFSET - index,
    {
        let value: u8 = if CRC_OFFSET <= index && index < HEADER_LEN {
            0
        } else {
            record[index]
        };
        assert(bytes.take(index + 1).drop_last() =~= bytes.take(index as int));
        assert(bytes.take(index + 1).last() == value);
        state = checksum::step(state, value);
        index += 1;
    }
    assert(bytes.take(index as int) =~= bytes);
    !state
}

/// The record that stores `config` as the given generation.
pub fn encode(config: &DeviceConfig, generation: u32) -> (record: [u8; RECORD_LEN])
    ensures
        record@ == encoded(config@, generation),
        config@.fits(),
{
    let ssid = config.ssid.as_text().as_bytes();
    let password = config.password.as_text().as_bytes();
    let token = config.token.as_text().as_bytes();
    let mut record: [u8; RECORD_LEN] = [0xff; RECORD_LEN];
    record[0] = 'L' as u8;
    record[1] = 'C' as u8;
    record[2] = 'W' as u8;
    record[3] = 'F' as u8;
    record[4] = VERSION;
    record[5] = 0;
    record[6] = ssid.len() as u8;
    record[7] = password.len() as u8;
    record[8] = token.len() as u8;
    record[9] = 0;
    record[10] = 0;
    record[11] = 0;
    put_number(&mut record, GENERATION_OFFSET, generation);
    put_number(&mut record, CRC_OFFSET, 0);
    put(&mut record, SSID_OFFSET, ssid);
    put(&mut record, PASSWORD_OFFSET, password);
    put(&mut record, TOKEN_OFFSET, token);
    record[COMMIT_OFFSET] = 'L' as u8;
    record[COMMIT_OFFSET + 1] = 'C' as u8;
    record[COMMIT_OFFSET + 2] = 'O' as u8;
    record[COMMIT_OFFSET + 3] = 'K' as u8;
    assert(record@ =~= record_with_checksum(config@, generation, 0));
    let crc = record_crc(&record);
    put_number(&mut record, CRC_OFFSET, crc);
    assert(record@ =~= encoded(config@, generation));
    record
}

/// Whether every byte of a record is in the erased state.
fn is_erased(record: &[u8; RECORD_LEN]) -> (erased: bool)
    ensures
        erased == forall|i: int| 0 <= i < RECORD_LEN ==> #[trigger] record@[i] == 0xff,
{
    let mut i: usize = 0;
    while i < RECORD_LEN
        invariant
            i <= RECORD_LEN,
            forall|j: int| 0 <= j < i ==> #[trigger] record@[j] == 0xff,
        decreases RECORD_LEN - i,
    {
        if record[i] != 0xff {
            return false;
        }
        i += 1;
    }
    true
}

/// The configuration and the generation that a record stores.
pub fn decode(record: &[u8; RECORD_LEN]) -> (result: Result<(DeviceConfig, u32), ConfigError>)
    ensures
        match result {
            Ok((config, generation)) => decoded(record@) == Ok::<(DeviceTexts, u32), ConfigError>(
                (config@, generation),
            ),
            Err(error) => decoded(record@) == Err::<(DeviceTexts, u32), ConfigError>(error),
        },
{
    if is_erased(record) {
        return Err(ConfigError::Missing);
    }
    proof {
        let marker = record@.subrange(COMMIT_OFFSET as int, RECORD_LEN as int);
        assert(marker =~= commit_marker() <==> (marker[0] == 'L' as u8 && marker[1] == 'C' as u8 && marker[2]
            == 'O' as u8 && marker[3] == 'K' as u8));
        let start = record@.subrange(0, 4);
        assert(start =~= magic() <==> (start[0] == 'L' as u8 && start[1] == 'C' as u8 && start[2] == 'W' as u8
            && start[3] == 'F' as u8));
    }
    if record[COMMIT_OFFSET] != 'L' as u8 || record[COMMIT_OFFSET + 1] != 'C' as u8 || record[COMMIT_OFFSET
        + 2] != 'O' as u8 || record[COMMIT_OFFSET + 3] != 'K' as u8 {
        return Err(ConfigError::Uncommitted);
    }
    if record[0] != 'L' as u8 || record[1] != 'C' as u8 || record[2] != 'W' as u8 || record[3] != 'F' as u8 {
        return Err(ConfigError::Corrupt);
    }
    if record[4] != VERSION || record[5] != 0 {
        return Err(ConfigError::UnsupportedVersion);
    }
    let expected_checksum = get_number(record, CRC_OFFSET);
    if record_crc(record) != expected_checksum {
        return Err(ConfigError::Corrupt);
    }
    let ssid_len: usize = record[6] as usize;
    let password_len: usize = record[7] as usize;
    let token_len: usize = record[8] as usize;
    if ssid_len == 0 || ssid_len > MAX_SSID_LEN {
        return Err(ConfigError::InvalidSsid);
    }
    if password_len > MAX_PASSWORD_LEN {
        return Err(ConfigError::InvalidPassword);
    }
    if token_len < MIN_TOKEN_LEN || token_len > MAX_TOKEN_LEN {
        return Err(ConfigError::InvalidToken);
    }
    let bytes = record.as_slice();
    let ssid = match core::str::from_utf8(slice_subrange(bytes, SSID_OFFSET, SSID_OFFSET + ssid_len)) {
        Ok(text) => text,
        Err(_) => {
            return Err(ConfigError::InvalidUtf8);
        },
    };
    let password = match core::str::from_utf8(
        slice_subrange(bytes, PASSWORD_OFFSET, PASSWORD_OFFSET + password_len),
    ) {
        Ok(text) => text,
        Err(_) => {
            return Err(ConfigError::InvalidUtf8);
        },
    };
    let token = match core::str::from_utf8(slice_subrange(bytes, TOKEN_OFFSET, TOKEN_OFFSET + token_len)) {
        Ok(text) => text,
        Err(_) => {
            return Err(ConfigError::InvalidUtf8);
        },
    };
    proof {
        encode_utf8_decode_utf8(ssid@);
        encode_utf8_decode_utf8(password@);
        encode_utf8_decode_utf8(token@);
    }
    let generation = get_number(record, GENERATION_OFFSET);
    match DeviceConfig::new(ssid, password, token) {
        Ok(config) => Ok((config, generation)),
        Err(error) => Err(error),
    }
}

/// A number that is written to a record is read back.
proof fn lemma_number_is_read_back(bytes: Seq<u8>, offset: int, value: u32)
    requires
        bytes[offset] == little_endian(value)[0],
        bytes[offset + 1] == little_endian(value)[1],
        bytes[offset + 2] == little_endian(value)[2],
        bytes[offset + 3] == little_endian(value)[3],
    ensures
        number_at(bytes, offset) == value,
{
    assert((((value & 0xff) as u8) as u32) | ((((value >> 8) & 0xff) as u8) as u32) << 8 | ((((value >> 16)
        & 0xff) as u8) as u32) << 16 | ((((value >> 24) & 0xff) as u8) as u32) << 24 == value)
        by (bit_vector);
}

/// Records that agree outside the bytes of a number, and hold the same number
/// there, agree in those bytes too.
proof fn lemma_number_pins_its_bytes(a: Seq<u8>, b: Seq<u8>, offset: int)
    requires
        number_at(a, offset) == number_at(b, offset),
    ensures
        forall|i: int| offset <= i < offset + 4 ==> a[i] == b[i],
{
    let (a0, a1, a2, a3) = (a[offset], a[offset + 1], a[offset + 2], a[offset + 3]);
    let (b0, b1, b2, b3) = (b[offset], b[offset + 1], b[offset + 2], b[offset + 3]);
    assert((a0 as u32) | (a1 as u32) << 8 | (a2 as u32) << 16 | (a3 as u32) << 24 == (b0 as u32) | (b1
        as u32) << 8 | (b2 as u32) << 16 | (b3 as u32) << 24 ==> a0 == b0 && a1 == b1 && a2 == b2 && a3
        == b3) by (bit_vector);
}

/// A configuration that is stored is read back, with its generation.
pub proof fn law_record_round_trip(texts: DeviceTexts, generation: u32)
    requires
        texts.valid(),
    ensures
        decoded(encoded(texts, generation)) == Ok::<(DeviceTexts, u32), ConfigError>((texts, generation)),
{
    let blank = record_with_checksum(texts, generation, 0);
    let crc = checksum::crc32(covered(blank));
    let record = encoded(texts, generation);
    assert(covered(record) =~= covered(blank));
    assert(record[0] == 'L' as u8);
    assert(record.subrange(COMMIT_OFFSET as int, RECORD_LEN as int) =~= commit_marker());
    assert(record.subrange(0, 4) =~= magic());
    assert(record[CRC_OFFSET as int] == little_endian(crc)[0]);
    assert(record[GENERATION_OFFSET as int] == little_endian(generation)[0]);
    lemma_number_is_read_back(record, CRC_OFFSET as int, crc);
    lemma_number_is_read_back(record, GENERATION_OFFSET as int, generation);
    let ssid = encode_utf8(texts.ssid);
    let password = encode_utf8(texts.password);
    let token = encode_utf8(texts.token);
    assert(record.subrange(SSID_OFFSET as int, SSID_OFFSET + ssid.len()) =~= ssid);
    assert(record.subrange(PASSWORD_OFFSET as int, PASSWORD_OFFSET + password.len()) =~= password);
    assert(record.subrange(TOKEN_OFFSET as int, TOKEN_OFFSET + token.len()) =~= token);
    encode_utf8_valid_utf8(texts.ssid);
    encode_utf8_valid_utf8(texts.password);
    encode_utf8_valid_utf8(texts.token);
    encode_utf8_decode_utf8(texts.ssid);
    encode_utf8_decode_utf8(texts.password);
    encode_utf8_decode_utf8(texts.token);
}

/// What is read of a record is always a valid configuration.
pub proof fn law_decoded_is_valid(record: Seq<u8>)
    ensures
        decoded(record) matches Ok((texts, _)) ==> texts.valid(),
{
}

/// A change of any single byte of a good record is found out, wherever it is.
pub proof fn law_one_changed_byte_is_found_out(record: Seq<u8>, index: int, byte: u8)
    requires
        record.len() == RECORD_LEN,
        decoded(record) is Ok,
        0 <= index < RECORD_LEN,
        byte != record[index],
    ensures
        decoded(record.update(index, byte)) == Err::<(DeviceTexts, u32), ConfigError>(
            if index >= COMMIT_OFFSET {
                ConfigError::Uncommitted
            } else if index == 4 || index == 5 {
                ConfigError::UnsupportedVersion
            } else {
                ConfigError::Corrupt
            },
        ),
{
    let changed = record.update(index, byte);
    let marker = record.subrange(COMMIT_OFFSET as int, RECORD_LEN as int);
    let start = record.subrange(0, 4);
    assert(marker[0] == commit_marker()[0] && marker[1] == commit_marker()[1]);
    if index == COMMIT_OFFSET {
        assert(changed[COMMIT_OFFSET + 1] == marker[1]);
    } else {
        assert(changed[COMMIT_OFFSET as int] == marker[0]);
    }
    let changed_marker = changed.subrange(COMMIT_OFFSET as int, RECORD_LEN as int);
    if index >= COMMIT_OFFSET {
        assert(changed_marker[index - COMMIT_OFFSET] == byte);
        assert(marker[index - COMMIT_OFFSET] == record[index]);
    } else {
        assert(changed_marker =~= marker);
        let changed_start = changed.subrange(0, 4);
        if index < 4 {
            assert(changed_start[index] == byte);
            assert(start[index] == record[index]);
        } else {
            assert(changed_start =~= start);
            if CRC_OFFSET <= index < HEADER_LEN {
                assert(covered(changed) =~= covered(record));
                if number_at(changed, CRC_OFFSET as int) == number_at(record, CRC_OFFSET as int) {
                    lemma_number_pins_its_bytes(changed, record, CRC_OFFSET as int);
                    assert(changed[index] == record[index]);
                }
            } else if index >= 6 {
                checksum::law_one_changed_byte_changes_the_checksum(covered(changed), covered(record), index);
            }
        }
    }
}

/// A record whose commit marker was not written is never taken for a
/// configuration.
pub proof fn law_uncommitted_is_not_read(record: Seq<u8>)
    requires
        record.subrange(COMMIT_OFFSET as int, RECORD_LEN as int) != commit_marker(),
    ensures
        decoded(record) == Err::<(DeviceTexts, u32), ConfigError>(ConfigError::Uncommitted) || decoded(record)
            == Err::<(DeviceTexts, u32), ConfigError>(ConfigError::Missing),
{
}

/// What a configuration has to be, in bytes: a network name of 1 to 32, no
/// password or one of 8 to 63 or a key of 64 hexadecimal digits, and a token of
/// 16 to 32 letters, digits, hyphens and underscores. What is wrong first is
/// told.
pub proof fn law_texts_are_checked_in_order(texts: DeviceTexts)
    ensures
        ({
            let ssid = encode_utf8(texts.ssid);
            let password = encode_utf8(texts.password);
            let token = encode_utf8(texts.token);
            let ssid_is_right = 1 <= ssid.len() <= 32;
            let password_is_right = password.len() == 0 || 8 <= password.len() <= 63 || password.len() == 64
                && forall|i: int|
                0 <= i < 64 ==> 48 <= #[trigger] password[i] <= 57 || 65 <= password[i] <= 70 || 97 <= password[i]
                    <= 102;
            let token_is_right = 16 <= token.len() <= 32 && forall|i: int|
                0 <= i < token.len() ==> 48 <= #[trigger] token[i] <= 57 || 65 <= token[i] <= 90 || 97 <= token[i]
                    <= 122 || token[i] == 45 || token[i] == 95;
            &&& texts.valid() <==> ssid_is_right && password_is_right && token_is_right
            &&& valid_token(texts.token) <==> token_is_right
            &&& texts.checked() == if !ssid_is_right {
                Err::<DeviceTexts, ConfigError>(ConfigError::InvalidSsid)
            } else if !password_is_right {
                Err(ConfigError::InvalidPassword)
            } else if !token_is_right {
                Err(ConfigError::InvalidToken)
            } else {
                Ok(texts)
            }
        }),
{
    let password = encode_utf8(texts.password);
    let token = encode_utf8(texts.token);
    if password.len() == 64 && forall|i: int|
        0 <= i < 64 ==> 48 <= #[trigger] password[i] <= 57 || 65 <= password[i] <= 70 || 97 <= password[i] <= 102 {
        assert forall|i: int| 0 <= i < password.len() implies is_hex_digit(#[trigger] password[i]) by {}
    }
    if valid_password(texts.password) && password.len() == 64 {
        assert forall|i: int| 0 <= i < 64 implies 48 <= #[trigger] password[i] <= 57 || 65 <= password[i] <= 70
            || 97 <= password[i] <= 102 by {
            assert(is_hex_digit(password[i]));
        }
    }
    if 16 <= token.len() <= 32 && forall|i: int|
        0 <= i < token.len() ==> 48 <= #[trigger] token[i] <= 57 || 65 <= token[i] <= 90 || 97 <= token[i] <= 122
            || token[i] == 45 || token[i] == 95 {
        assert forall|i: int| 0 <= i < token.len() implies is_token_byte(#[trigger] token[i]) by {}
    }
    if valid_token(texts.token) {
        assert forall|i: int| 0 <= i < token.len() implies 48 <= #[trigger] token[i] <= 57 || 65 <= token[i] <= 90
            || 97 <= token[i] <= 122 || token[i] == 45 || token[i] == 95 by {
            assert(is_token_byte(token[i]));
        }
    }
}

/// The number that stands at a place in a record, its lowest byte first.
pub proof fn law_numbers_have_their_lowest_byte_first(bytes: Seq<u8>, offset: int)
    ensures
        number_at(bytes, offset) == bytes[offset] + 0x100 * bytes[offset + 1] + 0x1_0000 * bytes[offset + 2]
            + 0x100_0000 * bytes[offset + 3],
{
    let (a, b, c, d) = (bytes[offset], bytes[offset + 1], bytes[offset + 2], bytes[offset + 3]);
    assert((a as u32) | (b as u32) << 8 | (c as u32) << 16 | (d as u32) << 24 == a + 0x100 * b + 0x1_0000 * c
        + 0x100_0000 * d) by (bit_vector);
}

/// Where everything stands in the record of a configuration, of which all 256
/// bytes are given.
pub proof fn law_record_is_laid_out(texts: DeviceTexts, generation: u32)
    requires
        texts.valid(),
    ensures
        ({
            let record = encoded(texts, generation);
            let ssid = encode_utf8(texts.ssid);
            let password = encode_utf8(texts.password);
            let token = encode_utf8(texts.token);
            &&& record.len() == 256
            &&& record[0] == 76 && record[1] == 67 && record[2] == 87 && record[3] == 70
            &&& record[4] == 1 && record[5] == 0
            &&& record[6] == ssid.len() && record[7] == password.len() && record[8] == token.len()
            &&& record[9] == 0 && record[10] == 0 && record[11] == 0
            &&& record[12] + 0x100 * record[13] + 0x1_0000 * record[14] + 0x100_0000 * record[15] == generation
            &&& record.subrange(20, 20 + ssid.len() as int) == ssid
            &&& record.subrange(52, 52 + password.len() as int) == password
            &&& record.subrange(116, 116 + token.len() as int) == token
            &&& forall|i: int| 20 + ssid.len() <= i < 52 ==> #[trigger] record[i] == 0xff
            &&& forall|i: int| 52 + password.len() <= i < 116 ==> #[trigger] record[i] == 0xff
            &&& forall|i: int| 116 + token.len() <= i < 252 ==> #[trigger] record[i] == 0xff
            &&& record[252] == 76 && record[253] == 67 && record[254] == 79 && record[255] == 75
        }),
{
    let record = encoded(texts, generation);
    let ssid = encode_utf8(texts.ssid);
    let password = encode_utf8(texts.password);
    let token = encode_utf8(texts.token);
    assert(record[12] == little_endian(generation)[0]);
    lemma_number_is_read_back(record, 12, generation);
    law_numbers_have_their_lowest_byte_first(record, 12);
    assert(record.subrange(20, 20 + ssid.len() as int) =~= ssid);
    assert(record.subrange(52, 52 + password.len() as int) =~= password);
    assert(record.subrange(116, 116 + token.len() as int) =~= token);
}

/// What stands in a record as its checksum is the checksum of the bytes before
/// the commit marker, with zeros in place of the checksum itself.
pub proof fn law_record_carries_its_checksum(texts: DeviceTexts, generation: u32, bytes: Seq<u8>)
    requires
        texts.valid(),
        bytes.len() == 252,
        forall|i: int|
            0 <= i < 252 ==> #[trigger] bytes[i] == if 16 <= i < 20 {
                0
            } else {
                encoded(texts, generation)[i]
            },
    ensures
        ({
            let record = encoded(texts, generation);
            checksum::crc32(bytes) == record[16] + 0x100 * record[17] + 0x1_0000 * record[18] + 0x100_0000
                * record[19]
        }),
{
    let record = encoded(texts, generation);
    let blank = record_with_checksum(texts, generation, 0);
    let crc = checksum::crc32(covered(blank));
    assert(record[16] == little_endian(crc)[0]);
    lemma_number_is_read_back(record, 16, crc);
    law_numbers_have_their_lowest_byte_first(record, 16);
    assert(bytes =~= covered(blank)) by {
        assert forall|i: int| 0 <= i < 252 implies bytes[i] == covered(blank)[i] by {
            assert(record[i] == record[i]);
        }
    }
}

/// A record of 256 bytes is turned down for what is wrong with it first: it was
/// erased, not written whole, does not begin as records do, is of another
/// version, does not match its checksum, or tells lengths that cannot be. What
/// is left is read as texts, which have to be right too.
pub proof fn law_records_are_checked_in_order(record: Seq<u8>, bytes: Seq<u8>)
    requires
        record.len() == 256,
        bytes.len() == 252,
        forall|i: int|
            0 <= i < 252 ==> #[trigger] bytes[i] == if 16 <= i < 20 {
                0
            } else {
                record[i]
            },
    ensures
        ({
            let is_erased = forall|i: int| 0 <= i < 256 ==> #[trigger] record[i] == 0xff;
            let is_committed = record[252] == 76 && record[253] == 67 && record[254] == 79 && record[255] == 75;
            let begins_right = record[0] == 76 && record[1] == 67 && record[2] == 87 && record[3] == 70;
            let sum = record[16] + 0x100 * record[17] + 0x1_0000 * record[18] + 0x100_0000 * record[19];
            let (a, b, c) = (record[6] as int, record[7] as int, record[8] as int);
            let found = decoded(record);
            if is_erased {
                found == Err::<(DeviceTexts, u32), ConfigError>(ConfigError::Missing)
            } else if !is_committed {
                found == Err::<(DeviceTexts, u32), ConfigError>(ConfigError::Uncommitted)
            } else if !begins_right {
                found == Err::<(DeviceTexts, u32), ConfigError>(ConfigError::Corrupt)
            } else if record[4] != 1 || record[5] != 0 {
                found == Err::<(DeviceTexts, u32), ConfigError>(ConfigError::UnsupportedVersion)
            } else if checksum::crc32(bytes) != sum {
                found == Err::<(DeviceTexts, u32), ConfigError>(ConfigError::Corrupt)
            } else if a == 0 || a > 32 {
                found == Err::<(DeviceTexts, u32), ConfigError>(ConfigError::InvalidSsid)
            } else if b > 64 {
                found == Err::<(DeviceTexts, u32), ConfigError>(ConfigError::InvalidPassword)
            } else if c < 16 || c > 32 {
                found == Err::<(DeviceTexts, u32), ConfigError>(ConfigError::InvalidToken)
            } else {
                let (ssid, password, token) = (
                    record.subrange(20, 20 + a),
                    record.subrange(52, 52 + b),
                    record.subrange(116, 116 + c),
                );
                if !valid_utf8(ssid) || !valid_utf8(password) || !valid_utf8(token) {
                    found == Err::<(DeviceTexts, u32), ConfigError>(ConfigError::InvalidUtf8)
                } else {
                    let texts = DeviceTexts {
                        ssid: decode_utf8(ssid),
                        password: decode_utf8(password),
                        token: decode_utf8(token),
                    };
                    match texts.checked() {
                        Err(error) => found == Err::<(DeviceTexts, u32), ConfigError>(error),
                        Ok(_) => found is Ok && found->Ok_0.0 == texts && found->Ok_0.1 == record[12] + 0x100
                            * record[13] + 0x1_0000 * record[14] + 0x100_0000 * record[15],
                    }
                }
            }
        }),
{
    let marker = record.subrange(252, 256);
    let start = record.subrange(0, 4);
    assert(marker[0] == record[252] && marker[1] == record[253] && marker[2] == record[254] && marker[3]
        == record[255]);
    assert(start[0] == record[0] && start[1] == record[1] && start[2] == record[2] && start[3] == record[3]);
    assert(marker == commit_marker() <==> record[252] == 76 && record[253] == 67 && record[254] == 79
        && record[255] == 75) by {
        if record[252] == 76 && record[253] == 67 && record[254] == 79 && record[255] == 75 {
            assert(marker =~= commit_marker());
        }
        if marker == commit_marker() {
            assert(marker[0] == 76 && marker[1] == 67 && marker[2] == 79 && marker[3] == 75);
        }
    }
    assert(start == magic() <==> record[0] == 76 && record[1] == 67 && record[2] == 87 && record[3] == 70) by {
        if record[0] == 76 && record[1] == 67 && record[2] == 87 && record[3] == 70 {
            assert(start =~= magic());
        }
        if start == magic() {
            assert(start[0] == 76 && start[1] == 67 && start[2] == 87 && start[3] == 70);
        }
    }
    assert(bytes =~= covered(record));
    law_numbers_have_their_lowest_byte_first(record, 12);
    law_numbers_have_their_lowest_byte_first(record, 16);
}

} // verus!
