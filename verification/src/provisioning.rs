//! The requests of the setup page, by which a configuration is handed in.
use vstd::prelude::*;
use vstd::slice::*;
use vstd::string::*;
use vstd::utf8::*;

use crate::bounded::{BoundedBytes, BoundedText};
use crate::config;
use crate::config::{DeviceConfig, MAX_PASSWORD_LEN, MAX_SSID_LEN, MAX_TOKEN_LEN};
use crate::numbers;
use crate::numbers::parse_usize;
use crate::text;
use crate::text::{
    same_text, same_text_ignoring_ascii_case, split, split_crlf, split_once, starts_with, trim,
};

verus! {

/// What a request asks for.
#[derive(Debug, Eq, PartialEq)]
pub enum Request {
    ShowForm,
    Save(DeviceConfig),
    NotFound,
}

/// Why a request was turned down.
#[derive(Clone, Copy, Debug, Eq, PartialEq, Structural)]
pub enum RequestError {
    InvalidRequest,
    UnsupportedTransferEncoding,
    MissingContentLength,
    InvalidContentLength,
    UnsupportedContentType,
    RequestTooLarge,
    InvalidForm,
    InvalidEncoding,
    InvalidUtf8,
    InvalidConfig,
}

/// What a request asks for, in texts.
pub enum RequestTexts {
    ShowForm,
    Save(config::DeviceTexts),
    NotFound,
}

impl View for Request {
    type V = RequestTexts;

    open spec fn view(&self) -> RequestTexts {
        match self {
            Request::ShowForm => RequestTexts::ShowForm,
            Request::Save(config) => RequestTexts::Save(config@),
            Request::NotFound => RequestTexts::NotFound,
        }
    }
}

/// What the headers have said so far.
pub struct HeaderFacts {
    pub content_length: Option<nat>,
    pub is_form: bool,
}

/// What the fields of a form have said so far.
pub struct FormFacts {
    pub ssid: Option<Seq<char>>,
    pub password: Option<Seq<char>>,
    pub token: Option<Seq<char>>,
}

/// The first place at which `needle` stands in `haystack`.
pub open spec fn first_match(haystack: Seq<u8>, needle: Seq<u8>) -> Option<nat>
    decreases haystack.len(),
{
    if haystack.len() < needle.len() {
        None
    } else if haystack.take(needle.len() as int) == needle {
        Some(0)
    } else if haystack.len() == 0 {
        None
    } else {
        match first_match(haystack.drop_first(), needle) {
            Some(index) => Some(index + 1),
            None => None,
        }
    }
}

/// The empty line that ends the headers.
pub open spec fn header_terminator() -> Seq<u8> {
    seq![13, 10, 13, 10]
}

/// What is known after one more header line.
pub open spec fn header_line(facts: HeaderFacts, line: Seq<char>) -> Result<HeaderFacts, RequestError> {
    match text::cut_once(line, ':') {
        None => Err(RequestError::InvalidRequest),
        Some((name, rest)) => {
            let value = text::trimmed(rest);
            if text::same_ignoring_ascii_case(name, "content-length"@) {
                if facts.content_length is Some {
                    Err(RequestError::InvalidContentLength)
                } else {
                    match numbers::unsigned_number(value, usize::MAX as nat) {
                        None => Err(RequestError::InvalidContentLength),
                        Some(length) => Ok(
                            HeaderFacts { content_length: Some(length), is_form: facts.is_form },
                        ),
                    }
                }
            } else if text::same_ignoring_ascii_case(name, "content-type"@) {
                let kind = text::trimmed(text::pieces(value, ';')[0]);
                Ok(
                    HeaderFacts {
                        content_length: facts.content_length,
                        is_form: kind == "application/x-www-form-urlencoded"@,
                    },
                )
            } else if text::same_ignoring_ascii_case(name, "transfer-encoding"@) {
                Err(RequestError::UnsupportedTransferEncoding)
            } else {
                Ok(facts)
            }
        },
    }
}

/// What is known after these header lines; empty ones say nothing.
pub open spec fn header_lines(facts: HeaderFacts, lines: Seq<Seq<char>>) -> Result<HeaderFacts, RequestError>
    decreases lines.len(),
{
    if lines.len() == 0 {
        Ok(facts)
    } else if lines[0].len() == 0 {
        header_lines(facts, lines.drop_first())
    } else {
        match header_line(facts, lines[0]) {
            Ok(next) => header_lines(next, lines.drop_first()),
            Err(error) => Err(error),
        }
    }
}

/// The value of a hexadecimal digit.
pub open spec fn hex_digit_value(byte: u8) -> Option<u8> {
    let c = byte as char;
    if '0' <= c <= '9' {
        Some((byte - 48) as u8)
    } else if 'a' <= c <= 'f' {
        Some((byte - 97 + 10) as u8)
    } else if 'A' <= c <= 'F' {
        Some((byte - 65 + 10) as u8)
    } else {
        None
    }
}

/// The byte that an encoded text begins with, and how many bytes stand for it:
/// `+` for a space, `%` and two digits for any byte, other bytes for
/// themselves.
pub open spec fn first_decoded(encoded: Seq<u8>) -> Option<(u8, int)> {
    if encoded[0] == '+' as u8 {
        Some((' ' as u8, 1))
    } else if encoded[0] == '%' as u8 {
        if encoded.len() < 3 {
            None
        } else {
            match (hex_digit_value(encoded[1]), hex_digit_value(encoded[2])) {
                (Some(high), Some(low)) => Some(((16 * high + low) as u8, 3)),
                _ => None,
            }
        }
    } else {
        Some((encoded[0], 1))
    }
}

/// The bytes that an encoded text stands for, when there is room for them.
pub open spec fn percent_decoded(encoded: Seq<u8>, room: int) -> Result<Seq<u8>, RequestError>
    decreases encoded.len(),
{
    if encoded.len() == 0 {
        Ok(seq![])
    } else {
        match first_decoded(encoded) {
            None => Err(RequestError::InvalidEncoding),
            Some((byte, used)) => if byte == 0 {
                Err(RequestError::InvalidEncoding)
            } else if room <= 0 {
                Err(RequestError::InvalidForm)
            } else {
                match percent_decoded(encoded.skip(used), room - 1) {
                    Ok(rest) => Ok(seq![byte] + rest),
                    Err(error) => Err(error),
                }
            },
        }
    }
}

/// The text that an encoded value stands for, of at most `limit` bytes.
pub open spec fn component(encoded: Seq<char>, limit: nat) -> Result<Seq<char>, RequestError> {
    match percent_decoded(encode_utf8(encoded), limit as int) {
        Err(error) => Err(error),
        Ok(bytes) => if valid_utf8(bytes) {
            Ok(decode_utf8(bytes))
        } else {
            Err(RequestError::InvalidUtf8)
        },
    }
}

/// What is known after one more field of a form.
pub open spec fn form_field(facts: FormFacts, field: Seq<char>) -> Result<FormFacts, RequestError> {
    match text::cut_once(field, '=') {
        None => Err(RequestError::InvalidForm),
        Some((name, value)) => if name == "ssid"@ && facts.ssid is None {
            match component(value, MAX_SSID_LEN as nat) {
                Ok(found) => Ok(FormFacts { ssid: Some(found), ..facts }),
                Err(error) => Err(error),
            }
        } else if name == "password"@ && facts.password is None {
            match component(value, MAX_PASSWORD_LEN as nat) {
                Ok(found) => Ok(FormFacts { password: Some(found), ..facts }),
                Err(error) => Err(error),
            }
        } else if name == "token"@ && facts.token is None {
            match component(value, MAX_TOKEN_LEN as nat) {
                Ok(found) => Ok(FormFacts { token: Some(found), ..facts }),
                Err(error) => Err(error),
            }
        } else {
            Err(RequestError::InvalidForm)
        },
    }
}

/// What is known after these fields of a form.
pub open spec fn form_fields(facts: FormFacts, fields: Seq<Seq<char>>) -> Result<FormFacts, RequestError>
    decreases fields.len(),
{
    if fields.len() == 0 {
        Ok(facts)
    } else {
        match form_field(facts, fields[0]) {
            Ok(next) => form_fields(next, fields.drop_first()),
            Err(error) => Err(error),
        }
    }
}

/// The configuration that a form hands in.
pub open spec fn form_config(body: Seq<u8>) -> Result<config::DeviceTexts, RequestError> {
    if !valid_utf8(body) {
        Err(RequestError::InvalidUtf8)
    } else {
        match form_fields(
            FormFacts { ssid: None, password: None, token: None },
            text::pieces(decode_utf8(body), '&'),
        ) {
            Err(error) => Err(error),
            Ok(FormFacts { ssid: Some(ssid), password: Some(password), token: Some(token) }) => {
                let texts = config::DeviceTexts { ssid, password, token };
                if texts.valid() {
                    Ok(texts)
                } else {
                    Err(RequestError::InvalidConfig)
                }
            },
            Ok(_) => Err(RequestError::InvalidForm),
        }
    }
}

/// What a request asks for by its headers, of which `head` is the text: an
/// answer that needs no body, or what is known of the body.
pub open spec fn request_head(head: Seq<char>) -> Result<Result<RequestTexts, HeaderFacts>, RequestError> {
    let lines = text::crlf_lines(head);
    let request_line = lines[0];
    if request_line == "GET / HTTP/1.1"@ || request_line == "GET / HTTP/1.0"@ {
        Ok(Ok(RequestTexts::ShowForm))
    } else if request_line != "POST /save HTTP/1.1"@ && request_line != "POST /save HTTP/1.0"@ {
        Ok(Ok(RequestTexts::NotFound))
    } else {
        match header_lines(HeaderFacts { content_length: None, is_form: false }, lines.drop_first()) {
            Ok(facts) => Ok(Err(facts)),
            Err(error) => Err(error),
        }
    }
}

/// What the bytes of a request ask for: nothing yet while they are too few.
pub open spec fn request_in(bytes: Seq<u8>, capacity: nat) -> Result<Option<RequestTexts>, RequestError> {
    match first_match(bytes, header_terminator()) {
        None => if bytes.len() == capacity {
            Err(RequestError::RequestTooLarge)
        } else {
            Ok(None)
        },
        Some(index) => {
            let header_end = index as int + 4;
            let head = bytes.take(header_end);
            if !valid_utf8(head) {
                Err(RequestError::InvalidUtf8)
            } else {
                match request_head(decode_utf8(head)) {
                    Err(error) => Err(error),
                    Ok(Ok(answer)) => Ok(Some(answer)),
                    Ok(Err(facts)) => match facts.content_length {
                        None => Err(RequestError::MissingContentLength),
                        Some(body_length) => if header_end + body_length > capacity {
                            Err(RequestError::RequestTooLarge)
                        } else if bytes.len() < header_end + body_length {
                            Ok(None)
                        } else if !facts.is_form {
                            Err(RequestError::UnsupportedContentType)
                        } else {
                            match form_config(bytes.subrange(header_end, header_end + body_length)) {
                                Ok(texts) => Ok(Some(RequestTexts::Save(texts))),
                                Err(error) => Err(error),
                            }
                        },
                    },
                }
            }
        },
    }
}

proof fn lemma_first_match_is(haystack: Seq<u8>, needle: Seq<u8>, index: int)
    requires
        needle.len() > 0,
        0 <= index,
        index + needle.len() <= haystack.len(),
        haystack.subrange(index, index + needle.len()) == needle,
        forall|i: int|
            0 <= i < index ==> #[trigger] haystack.subrange(i, i + needle.len()) != needle,
    ensures
        first_match(haystack, needle) == Some(index as nat),
    decreases haystack.len(),
{
    let n = needle.len() as int;
    assert(haystack.take(n) =~= haystack.subrange(0, 0 + n));
    if index > 0 {
        let rest = haystack.drop_first();
        assert(rest.subrange(index - 1, index - 1 + n) =~= haystack.subrange(index, index + n));
        assert forall|i: int| 0 <= i < index - 1 implies #[trigger] rest.subrange(i, i + n) != needle by {
            assert(rest.subrange(i, i + n) =~= haystack.subrange(i + 1, i + 1 + n));
        }
        lemma_first_match_is(rest, needle, index - 1);
    }
}

proof fn lemma_no_match(haystack: Seq<u8>, needle: Seq<u8>)
    requires
        needle.len() > 0,
        forall|i: int|
            0 <= i && i + needle.len() <= haystack.len() ==> #[trigger] haystack.subrange(i, i + needle.len())
                != needle,
    ensures
        first_match(haystack, needle) is None,
    decreases haystack.len(),
{
    if haystack.len() >= needle.len() {
        let rest = haystack.drop_first();
        let n = needle.len() as int;
        assert(haystack.take(n) =~= haystack.subrange(0, 0 + n));
        assert forall|i: int| 0 <= i && i + n <= rest.len() implies #[trigger] rest.subrange(i, i + n) != needle by {
            assert(rest.subrange(i, i + n) =~= haystack.subrange(i + 1, i + 1 + n));
        }
        lemma_no_match(rest, needle);
    }
}

/// The first place at which `needle` stands in `haystack`.
pub fn find_bytes(haystack: &[u8], needle: &[u8]) -> (result: Option<usize>)
    requires
        needle@.len() > 0,
    ensures
        match result {
            Some(index) => first_match(haystack@, needle@) == Some(index as nat) && index + needle@.len()
                <= haystack@.len(),
            None => first_match(haystack@, needle@) is None,
        },
{
    let n = needle.len();
    let mut i: usize = 0;
    while i < haystack.len() && haystack.len() - i >= n
        invariant
            n == needle@.len(),
            n > 0,
            i <= haystack.len(),
            forall|j: int| 0 <= j < i ==> #[trigger] haystack@.subrange(j, j + n) != needle@,
        decreases haystack.len() - i,
    {
        if crate::text::same_bytes(slice_subrange(haystack, i, i + n), needle) {
            proof {
                lemma_first_match_is(haystack@, needle@, i as int);
            }
            return Some(i);
        }
        i += 1;
    }
    proof {
        lemma_no_match(haystack@, needle@);
    }
    None
}

/// The value of a hexadecimal digit.
pub fn hex_value(byte: u8) -> (result: Option<u8>)
    ensures
        result == hex_digit_value(byte),
{
    let c = byte as char;
    if '0' <= c && c <= '9' {
        Some(byte - 48)
    } else if 'a' <= c && c <= 'f' {
        Some(byte - 97 + 10)
    } else if 'A' <= c && c <= 'F' {
        Some(byte - 65 + 10)
    } else {
        None
    }
}

/// `first` in front of what was decoded behind it.
spec fn behind(first: Seq<u8>, rest: Result<Seq<u8>, RequestError>) -> Result<Seq<u8>, RequestError> {
    match rest {
        Ok(bytes) => Ok(first + bytes),
        Err(error) => Err(error),
    }
}

/// The text that an encoded value of a form stands for.
pub fn decode_component<T: BoundedText>(encoded: &str) -> (result: Result<T, RequestError>)
    ensures
        match result {
            Ok(found) => component(encoded@, T::limit()) == Ok::<Seq<char>, RequestError>(found.text()),
            Err(error) => component(encoded@, T::limit()) == Err::<Seq<char>, RequestError>(error),
        },
{
    let bytes = encoded.as_bytes();
    let mut decoded = T::Bytes::empty();
    let mut index: usize = 0;
    let ghost limit = T::limit() as int;
    proof {
        T::same_limit();
    }
    assert(bytes@.skip(0) =~= bytes@);
    assert(behind(decoded.bytes(), percent_decoded(bytes@, limit)) =~= percent_decoded(bytes@, limit)) by {
        if let Ok(all) = percent_decoded(bytes@, limit) {
            assert(decoded.bytes() + all =~= all);
        }
    }
    while index < bytes.len()
        invariant
            index <= bytes.len(),
            bytes@ == encode_utf8(encoded@),
            limit == T::limit(),
            T::Bytes::limit() == T::limit(),
            decoded.bytes().len() <= limit,
            behind(
                decoded.bytes(),
                percent_decoded(bytes@.skip(index as int), limit - decoded.bytes().len()),
            ) == percent_decoded(bytes@, limit),
        decreases bytes.len() - index,
    {
        let ghost rest = bytes@.skip(index as int);
        let ghost before = decoded.bytes();
        let mut byte: u8 = bytes[index];
        let mut used: usize = 1;
        if byte == '+' as u8 {
            byte = ' ' as u8;
        } else if byte == '%' as u8 {
            if bytes.len() - index < 3 {
                return Err(RequestError::InvalidEncoding);
            }
            let high: u8 = match hex_value(bytes[index + 1]) {
                Some(value) => value,
                None => {
                    return Err(RequestError::InvalidEncoding);
                },
            };
            let low: u8 = match hex_value(bytes[index + 2]) {
                Some(value) => value,
                None => {
                    return Err(RequestError::InvalidEncoding);
                },
            };
            assert(high < 16 && low < 16 ==> (high << 4) | low == 16 * high + low) by (bit_vector);
            byte = (high << 4) | low;
            used = 3;
        }
        assert(first_decoded(rest) == Some((byte, used as int)));
        if byte == 0 {
            return Err(RequestError::InvalidEncoding);
        }
        match decoded.append(byte) {
            Ok(()) => {},
            Err(_) => {
                return Err(RequestError::InvalidForm);
            },
        }
        proof {
            let room = limit - before.len();
            assert(rest.skip(used as int) =~= bytes@.skip(index + used));
            if let Ok(tail) = percent_decoded(rest.skip(used as int), room - 1) {
                assert(before.push(byte) + tail =~= before + (seq![byte] + tail));
            }
        }
        index += used;
    }
    assert(bytes@.skip(index as int) =~= Seq::<u8>::empty());
    assert(decoded.bytes() + Seq::<u8>::empty() =~= decoded.bytes());
    let value = match core::str::from_utf8(decoded.as_bytes()) {
        Ok(value) => value,
        Err(_) => {
            return Err(RequestError::InvalidUtf8);
        },
    };
    proof {
        encode_utf8_decode_utf8(value@);
    }
    let mut result = T::empty();
    match result.append(value) {
        Ok(()) => {},
        Err(()) => {
            return Err(RequestError::InvalidForm);
        },
    }
    assert(result.text() =~= value@);
    Ok(result)
}

/// The text of a field that was given.
spec fn given<T: BoundedText>(field: Option<T>) -> Option<Seq<char>> {
    match field {
        Some(value) => Some(value.text()),
        None => None,
    }
}

/// The configuration that a form hands in.
pub fn parse_form(body: &[u8]) -> (result: Result<DeviceConfig, RequestError>)
    ensures
        match result {
            Ok(config) => form_config(body@) == Ok::<config::DeviceTexts, RequestError>(config@),
            Err(error) => form_config(body@) == Err::<config::DeviceTexts, RequestError>(error),
        },
{
    let content = match core::str::from_utf8(body) {
        Ok(content) => content,
        Err(_) => {
            return Err(RequestError::InvalidUtf8);
        },
    };
    proof {
        encode_utf8_decode_utf8(content@);
    }
    let mut ssid: Option<heapless::String<MAX_SSID_LEN>> = None;
    let mut password: Option<heapless::String<MAX_PASSWORD_LEN>> = None;
    let mut token: Option<heapless::String<MAX_TOKEN_LEN>> = None;
    let ghost facts = FormFacts { ssid: None, password: None, token: None };
    let fields = split(content, '&');
    let ghost all = text::texts(fields@);
    assert(all.skip(0) =~= all);
    let mut i: usize = 0;
    while i < fields.len()
        invariant
            i <= fields.len(),
            all == text::texts(fields@),
            all == text::pieces(decode_utf8(body@), '&'),
            valid_utf8(body@),
            facts == (FormFacts { ssid: given(ssid), password: given(password), token: given(token) }),
            form_fields(facts, all.skip(i as int)) == form_fields(
                FormFacts { ssid: None, password: None, token: None },
                all,
            ),
        decreases fields.len() - i,
    {
        assert(all.skip(i as int)[0] == fields[i as int]@);
        assert(all.skip(i as int).drop_first() =~= all.skip(i + 1));
        let (name, value) = match split_once(fields[i], '=') {
            Some(parts) => parts,
            None => {
                return Err(RequestError::InvalidForm);
            },
        };
        if same_text(name, "ssid") && ssid.is_none() {
            match decode_component(value) {
                Ok(found) => {
                    ssid = Some(found);
                },
                Err(error) => {
                    return Err(error);
                },
            }
        } else if same_text(name, "password") && password.is_none() {
            match decode_component(value) {
                Ok(found) => {
                    password = Some(found);
                },
                Err(error) => {
                    return Err(error);
                },
            }
        } else if same_text(name, "token") && token.is_none() {
            match decode_component(value) {
                Ok(found) => {
                    token = Some(found);
                },
                Err(error) => {
                    return Err(error);
                },
            }
        } else {
            return Err(RequestError::InvalidForm);
        }
        proof {
            facts = FormFacts { ssid: given(ssid), password: given(password), token: given(token) };
        }
        i += 1;
    }
    match (ssid, password, token) {
        (Some(ssid), Some(password), Some(token)) => match DeviceConfig::new(
            ssid.as_text(),
            password.as_text(),
            token.as_text(),
        ) {
            Ok(config) => Ok(config),
            Err(_) => Err(RequestError::InvalidConfig),
        },
        _ => Err(RequestError::InvalidForm),
    }
}

/// A length as a number.
spec fn counted(length: Option<usize>) -> Option<nat> {
    match length {
        Some(length) => Some(length as nat),
        None => None,
    }
}

/// What is known after these header lines.
fn read_headers(lines: &Vec<&str>) -> (result: Result<(Option<usize>, bool), RequestError>)
    requires
        lines@.len() > 0,
    ensures
        header_lines(
            HeaderFacts { content_length: None, is_form: false },
            text::texts(lines@).drop_first(),
        ) == match result {
            Ok((content_length, is_form)) => Ok::<HeaderFacts, RequestError>(
                HeaderFacts { content_length: counted(content_length), is_form },
            ),
            Err(error) => Err(error),
        },
{
    let mut content_length: Option<usize> = None;
    let mut is_form = false;
    let ghost all = text::texts(lines@);
    let ghost start = HeaderFacts { content_length: None, is_form: false };
    let mut i: usize = 1;
    assert(all.skip(1) =~= all.drop_first());
    while i < lines.len()
        invariant
            1 <= i <= lines.len(),
            all == text::texts(lines@),
            start == (HeaderFacts { content_length: None, is_form: false }),
            header_lines(
                HeaderFacts { content_length: counted(content_length), is_form },
                all.skip(i as int),
            ) == header_lines(start, all.drop_first()),
        decreases lines.len() - i,
    {
        let line = lines[i];
        assert(all.skip(i as int)[0] == line@);
        assert(all.skip(i as int).drop_first() =~= all.skip(i + 1));
        proof {
            reveal_strlit("");
            assert(line@.len() == 0 ==> line@ =~= ""@);
        }
        if !same_text(line, "") {
            let (name, rest) = match split_once(line, ':') {
                Some(parts) => parts,
                None => {
                    return Err(RequestError::InvalidRequest);
                },
            };
            let value = trim(rest);
            if same_text_ignoring_ascii_case(name, "content-length") {
                if content_length.is_some() {
                    return Err(RequestError::InvalidContentLength);
                }
                match parse_usize(value) {
                    Some(length) => {
                        content_length = Some(length);
                    },
                    None => {
                        return Err(RequestError::InvalidContentLength);
                    },
                }
            } else if same_text_ignoring_ascii_case(name, "content-type") {
                let parts = split(value, ';');
                assert(text::pieces(value@, ';').len() > 0);
                assert(text::texts(parts@)[0] == parts[0]@);
                is_form = same_text(trim(parts[0]), "application/x-www-form-urlencoded");
            } else if same_text_ignoring_ascii_case(name, "transfer-encoding") {
                return Err(RequestError::UnsupportedTransferEncoding);
            }
        }
        i += 1;
    }
    Ok((content_length, is_form))
}

/// What the bytes of a request ask for: nothing yet while they are too few.
pub fn parse_request(bytes: &[u8], capacity: usize) -> (result: Result<Option<Request>, RequestError>)
    ensures
        request_in(bytes@, capacity as nat) == match result {
            Ok(Some(request)) => Ok::<Option<RequestTexts>, RequestError>(Some(request@)),
            Ok(None) => Ok(None),
            Err(error) => Err(error),
        },
{
    let terminator: [u8; 4] = [13, 10, 13, 10];
    assert(terminator@ =~= header_terminator());
    let received: usize = bytes.len();
    let header_end: usize = match find_bytes(bytes, &terminator) {
        Some(index) => index + 4,
        None => {
            if received == capacity {
                return Err(RequestError::RequestTooLarge);
            }
            return Ok(None);
        },
    };
    let head = slice_subrange(bytes, 0, header_end);
    assert(head@ =~= bytes@.take(header_end as int));
    let headers = match core::str::from_utf8(head) {
        Ok(headers) => headers,
        Err(_) => {
            return Err(RequestError::InvalidUtf8);
        },
    };
    proof {
        encode_utf8_decode_utf8(headers@);
    }
    let lines = split_crlf(headers);
    assert(text::texts(lines@)[0] == lines[0]@);
    let request_line = lines[0];
    if same_text(request_line, "GET / HTTP/1.1") || same_text(request_line, "GET / HTTP/1.0") {
        return Ok(Some(Request::ShowForm));
    }
    if starts_with(request_line, "GET ") {
        proof {
            reveal_strlit("GET ");
            reveal_strlit("POST /save HTTP/1.1");
            reveal_strlit("POST /save HTTP/1.0");
            assert(request_line@[0] == "GET "@[0]);
        }
        return Ok(Some(Request::NotFound));
    }
    if !same_text(request_line, "POST /save HTTP/1.1") && !same_text(request_line, "POST /save HTTP/1.0") {
        return Ok(Some(Request::NotFound));
    }
    let (content_length, is_form) = match read_headers(&lines) {
        Ok(facts) => facts,
        Err(error) => {
            return Err(error);
        },
    };
    let body_length: usize = match content_length {
        Some(length) => length,
        None => {
            return Err(RequestError::MissingContentLength);
        },
    };
    let total_length: usize = match header_end.checked_add(body_length) {
        Some(length) => length,
        None => {
            return Err(RequestError::RequestTooLarge);
        },
    };
    if total_length > capacity {
        return Err(RequestError::RequestTooLarge);
    }
    if received < total_length {
        return Ok(None);
    }
    if !is_form {
        return Err(RequestError::UnsupportedContentType);
    }
    match parse_form(slice_subrange(bytes, header_end, total_length)) {
        Ok(config) => Ok(Some(Request::Save(config))),
        Err(error) => Err(error),
    }
}

proof fn lemma_match_stays(haystack: Seq<u8>, more: Seq<u8>, needle: Seq<u8>)
    requires
        first_match(haystack, needle) is Some,
    ensures
        first_match(haystack + more, needle) == first_match(haystack, needle),
        first_match(haystack, needle)->0 + needle.len() <= haystack.len(),
    decreases haystack.len(),
{
    let whole = haystack + more;
    assert(whole.take(needle.len() as int) =~= haystack.take(needle.len() as int));
    if haystack.take(needle.len() as int) != needle {
        assert(whole.drop_first() =~= haystack.drop_first() + more);
        lemma_match_stays(haystack.drop_first(), more, needle);
    }
}

/// Once the headers are there and an answer is given, it stays the same
/// whatever arrives behind.
pub proof fn law_answer_stays(bytes: Seq<u8>, more: Seq<u8>, capacity: nat)
    requires
        first_match(bytes, header_terminator()) is Some,
        request_in(bytes, capacity) != Ok::<Option<RequestTexts>, RequestError>(None),
    ensures
        request_in(bytes + more, capacity) == request_in(bytes, capacity),
{
    lemma_match_stays(bytes, more, header_terminator());
    let header_end = first_match(bytes, header_terminator())->0 as int + 4;
    let whole = bytes + more;
    assert(whole.take(header_end) =~= bytes.take(header_end));
    if let Ok(Err(facts)) = request_head(decode_utf8(bytes.take(header_end))) {
        if let Some(body_length) = facts.content_length {
            let end = header_end + body_length;
            if end <= bytes.len() {
                assert(whole.subrange(header_end, end) =~= bytes.subrange(header_end, end));
            }
        }
    }
}

/// A request may arrive in parts: to each part of it the answer is that there
/// is more to come, or already the answer to the whole.
pub proof fn law_request_may_arrive_in_parts(bytes: Seq<u8>, received: int, capacity: nat)
    requires
        0 <= received <= bytes.len() <= capacity,
    ensures
        request_in(bytes.take(received), capacity) == Ok::<Option<RequestTexts>, RequestError>(None)
            || request_in(bytes.take(received), capacity) == request_in(bytes, capacity),
{
    let part = bytes.take(received);
    let rest = bytes.skip(received);
    assert(part + rest =~= bytes);
    if first_match(part, header_terminator()) is Some {
        if request_in(part, capacity) != Ok::<Option<RequestTexts>, RequestError>(None) {
            law_answer_stays(part, rest, capacity);
        }
    } else if received == capacity {
        assert(part =~= bytes);
    }
}

/// A configuration that a request hands in can be stored.
pub proof fn law_saved_configuration_is_valid(bytes: Seq<u8>, capacity: nat)
    ensures
        request_in(bytes, capacity) matches Ok(Some(RequestTexts::Save(texts))) ==> texts.valid(),
{
}

/// A hexadecimal digit.
pub open spec fn hex_digit(value: u8) -> char {
    if value < 10 {
        ('0' as u8 + value) as char
    } else {
        ('A' as u8 + (value - 10)) as char
    }
}

/// `bytes` with each written as `%` and two digits.
pub open spec fn escaped(bytes: Seq<u8>) -> Seq<char>
    decreases bytes.len(),
{
    if bytes.len() == 0 {
        seq![]
    } else {
        seq!['%', hex_digit(bytes[0] / 16), hex_digit(bytes[0] % 16)] + escaped(bytes.drop_first())
    }
}

/// Whether a text can stand in an encoded form: no byte of it is zero.
pub open spec fn without_zero(text: Seq<char>) -> bool {
    forall|i: int| 0 <= i < encode_utf8(text).len() ==> #[trigger] encode_utf8(text)[i] != 0
}

/// Whether `encoded` stands for `bytes`: `+` for a space, `%` and two digits of
/// either case for any byte, and every other character but `&` for itself.
pub open spec fn stands_for(encoded: Seq<char>, bytes: Seq<u8>) -> bool
    decreases encoded.len(),
{
    if encoded.len() == 0 || bytes.len() == 0 {
        encoded.len() == 0 && bytes.len() == 0
    } else if encoded[0] == '%' {
        &&& encoded.len() >= 3
        &&& hex_digit_value(encoded[1] as u8) is Some
        &&& hex_digit_value(encoded[2] as u8) is Some
        &&& bytes[0] == 16 * hex_digit_value(encoded[1] as u8)->0 + hex_digit_value(encoded[2] as u8)->0
        &&& stands_for(encoded.skip(3), bytes.drop_first())
    } else if encoded[0] == '+' {
        &&& bytes[0] == ' ' as u8
        &&& stands_for(encoded.skip(1), bytes.drop_first())
    } else {
        &&& encoded[0] != '&'
        &&& bytes[0] == encoded[0] as u8
        &&& stands_for(encoded.skip(1), bytes.drop_first())
    }
}

/// Whether `encoded` is a text as a form carries it.
pub open spec fn is_encoding(encoded: Seq<char>, value: Seq<char>) -> bool {
    is_ascii_chars(encoded) && stands_for(encoded, encode_utf8(value))
}

proof fn lemma_ascii_rest(encoded: Seq<char>, used: int)
    requires
        is_ascii_chars(encoded),
        0 <= used <= encoded.len(),
    ensures
        is_ascii_chars(encoded.skip(used)),
{
    let rest = encoded.skip(used);
    assert forall|i: int| 0 <= i < rest.len() implies '\0' <= #[trigger] rest[i] <= '\u{7f}' by {
        assert(rest[i] == encoded[i + used]);
    }
}

/// Fields are told apart by `&`, which stands in no encoding.
proof fn lemma_encoding_is_one_piece(encoded: Seq<char>, bytes: Seq<u8>)
    requires
        is_ascii_chars(encoded),
        stands_for(encoded, bytes),
    ensures
        !encoded.contains('&'),
    decreases encoded.len(),
{
    if encoded.len() > 0 {
        let used: int = if encoded[0] == '%' {
            3
        } else {
            1
        };
        let rest = encoded.skip(used);
        lemma_ascii_rest(encoded, used);
        lemma_encoding_is_one_piece(rest, bytes.drop_first());
        assert forall|i: int| 0 <= i < encoded.len() implies encoded[i] != '&' by {
            if i >= used {
                assert(encoded[i] == rest[i - used]);
                assert(rest.contains(rest[i - used]));
            }
        }
    }
}

proof fn lemma_encoding_decodes(encoded: Seq<char>, raw: Seq<u8>, bytes: Seq<u8>, room: int)
    requires
        is_ascii_chars(encoded),
        stands_for(encoded, bytes),
        bytes.len() <= room,
        forall|i: int| 0 <= i < bytes.len() ==> #[trigger] bytes[i] != 0,
        raw.len() == encoded.len(),
        forall|i: int| 0 <= i < raw.len() ==> #[trigger] raw[i] == encoded[i] as u8,
    ensures
        percent_decoded(raw, room) == Ok::<Seq<u8>, RequestError>(bytes),
    decreases encoded.len(),
{
    if encoded.len() == 0 {
        assert(bytes =~= seq![]);
    } else {
        let first = bytes[0];
        let rest = bytes.drop_first();
        let used: int = if encoded[0] == '%' {
            3
        } else {
            1
        };
        assert(raw[0] == encoded[0] as u8);
        if used == 3 {
            assert(raw[1] == encoded[1] as u8);
            assert(raw[2] == encoded[2] as u8);
        }
        assert(first_decoded(raw) == Some((first, used)));
        let tail = raw.skip(used);
        let behind = encoded.skip(used);
        assert forall|i: int| 0 <= i < tail.len() implies #[trigger] tail[i] == behind[i] as u8 by {
            assert(tail[i] == raw[i + used]);
            assert(behind[i] == encoded[i + used]);
        }
        assert forall|i: int| 0 <= i < rest.len() implies #[trigger] rest[i] != 0 by {
            assert(rest[i] == bytes[i + 1]);
        }
        lemma_ascii_rest(encoded, used);
        lemma_encoding_decodes(behind, tail, rest, room - 1);
        assert(seq![first] + rest =~= bytes);
    }
}

/// A text is read back from any of its encodings: characters may stand for
/// themselves, a space may be a `+`, and any byte may be escaped.
pub proof fn law_encoded_text_is_read_back(encoded: Seq<char>, value: Seq<char>, limit: nat)
    requires
        is_encoding(encoded, value),
        without_zero(value),
        encode_utf8(value).len() <= limit,
    ensures
        component(encoded, limit) == Ok::<Seq<char>, RequestError>(value),
{
    is_ascii_chars_encode_utf8(encoded);
    lemma_encoding_decodes(encoded, encode_utf8(encoded), encode_utf8(value), limit as int);
    encode_utf8_valid_utf8(value);
    encode_utf8_decode_utf8(value);
}

proof fn lemma_escaped_stands_for(bytes: Seq<u8>)
    ensures
        is_ascii_chars(escaped(bytes)),
        stands_for(escaped(bytes), bytes),
    decreases bytes.len(),
{
    if bytes.len() > 0 {
        let first = bytes[0];
        let rest = escaped(bytes.drop_first());
        let whole = escaped(bytes);
        lemma_escaped_stands_for(bytes.drop_first());
        assert(whole.skip(3) =~= rest);
        assert(hex_digit_value(whole[1] as u8) == Some((first / 16) as u8));
        assert(hex_digit_value(whole[2] as u8) == Some((first % 16) as u8));
        assert forall|i: int| 0 <= i < whole.len() implies '\0' <= #[trigger] whole[i] <= '\u{7f}' by {
            if i >= 3 {
                assert(whole[i] == rest[i - 3]);
            }
        }
    }
}

/// Every text has an encoding: it may be escaped throughout. It is read back,
/// whatever its characters.
pub proof fn law_escaped_text_is_read_back(value: Seq<char>, limit: nat)
    requires
        without_zero(value),
        encode_utf8(value).len() <= limit,
    ensures
        is_encoding(escaped(encode_utf8(value)), value),
        component(escaped(encode_utf8(value)), limit) == Ok::<Seq<char>, RequestError>(value),
{
    lemma_escaped_stands_for(encode_utf8(value));
    law_encoded_text_is_read_back(escaped(encode_utf8(value)), value, limit);
}

/// A field of a form.
pub open spec fn form_field_text(name: Seq<char>, encoded: Seq<char>) -> Seq<char> {
    name + seq!['='] + encoded
}

/// The form with these encoded values.
pub open spec fn form_text(ssid: Seq<char>, password: Seq<char>, token: Seq<char>) -> Seq<char> {
    form_field_text("ssid"@, ssid) + seq!['&'] + (form_field_text("password"@, password) + seq!['&']
        + form_field_text("token"@, token))
}

proof fn lemma_form_field_text(name: Seq<char>, encoded: Seq<char>)
    requires
        !name.contains('='),
        !name.contains('&'),
        !encoded.contains('&'),
    ensures
        text::cut_once(form_field_text(name, encoded), '=') == Some((name, encoded)),
        !form_field_text(name, encoded).contains('&'),
{
    text::lemma_pieces_step(name, '=', encoded);
    let field = form_field_text(name, encoded);
    assert forall|i: int| 0 <= i < field.len() implies field[i] != '&' by {
        if i < name.len() {
            assert(field[i] == name[i]);
            assert(name.contains(name[i]));
        } else if i > name.len() {
            assert(field[i] == encoded[i - name.len() - 1]);
            assert(encoded.contains(encoded[i - name.len() - 1]));
        }
    }
}

proof fn lemma_form_pieces(ssid: Seq<char>, password: Seq<char>, token: Seq<char>)
    requires
        !ssid.contains('&'),
        !password.contains('&'),
        !token.contains('&'),
    ensures
        text::pieces(form_text(ssid, password, token), '&') == seq![
            form_field_text("ssid"@, ssid),
            form_field_text("password"@, password),
            form_field_text("token"@, token),
        ],
        text::cut_once(form_field_text("ssid"@, ssid), '=') == Some(("ssid"@, ssid)),
        text::cut_once(form_field_text("password"@, password), '=') == Some(("password"@, password)),
        text::cut_once(form_field_text("token"@, token), '=') == Some(("token"@, token)),
{
    let first = form_field_text("ssid"@, ssid);
    let second = form_field_text("password"@, password);
    let third = form_field_text("token"@, token);
    assert(!"ssid"@.contains('=') && !"ssid"@.contains('&')) by {
        reveal_strlit("ssid");
    }
    assert(!"password"@.contains('=') && !"password"@.contains('&')) by {
        reveal_strlit("password");
    }
    assert(!"token"@.contains('=') && !"token"@.contains('&')) by {
        reveal_strlit("token");
    }
    lemma_form_field_text("ssid"@, ssid);
    lemma_form_field_text("password"@, password);
    lemma_form_field_text("token"@, token);
    text::lemma_pieces_step(first, '&', second + seq!['&'] + third);
    text::lemma_pieces_step(second, '&', third);
    text::lemma_pieces_last(third, '&');
    assert(text::pieces(form_text(ssid, password, token), '&') =~= seq![first, second, third]);
}

proof fn lemma_three_fields(
    fields: Seq<Seq<char>>,
    none: FormFacts,
    one: FormFacts,
    two: FormFacts,
    three: FormFacts,
)
    requires
        fields.len() == 3,
        form_field(none, fields[0]) == Ok::<FormFacts, RequestError>(one),
        form_field(one, fields[1]) == Ok::<FormFacts, RequestError>(two),
        form_field(two, fields[2]) == Ok::<FormFacts, RequestError>(three),
    ensures
        form_fields(none, fields) == Ok::<FormFacts, RequestError>(three),
{
    let behind_first = fields.drop_first();
    let behind_second = behind_first.drop_first();
    let behind_third = behind_second.drop_first();
    assert(behind_first[0] == fields[1]);
    assert(behind_second[0] == fields[2]);
    assert(form_fields(three, behind_third) == Ok::<FormFacts, RequestError>(three));
    assert(form_fields(two, behind_second) == Ok::<FormFacts, RequestError>(three));
    assert(form_fields(one, behind_first) == Ok::<FormFacts, RequestError>(three));
}

/// A form with any encodings of a configuration that can be stored hands in
/// that configuration.
pub proof fn law_form_hands_in_the_configuration(
    texts: config::DeviceTexts,
    ssid: Seq<char>,
    password: Seq<char>,
    token: Seq<char>,
)
    requires
        texts.valid(),
        without_zero(texts.ssid),
        without_zero(texts.password),
        is_encoding(ssid, texts.ssid),
        is_encoding(password, texts.password),
        is_encoding(token, texts.token),
    ensures
        form_config(encode_utf8(form_text(ssid, password, token))) == Ok::<config::DeviceTexts, RequestError>(
            texts,
        ),
{
    let form = form_text(ssid, password, token);
    encode_utf8_valid_utf8(form);
    encode_utf8_decode_utf8(form);
    lemma_encoding_is_one_piece(ssid, encode_utf8(texts.ssid));
    lemma_encoding_is_one_piece(password, encode_utf8(texts.password));
    lemma_encoding_is_one_piece(token, encode_utf8(texts.token));
    lemma_form_pieces(ssid, password, token);
    assert(without_zero(texts.token)) by {
        let bytes = encode_utf8(texts.token);
        assert forall|i: int| 0 <= i < bytes.len() implies #[trigger] bytes[i] != 0 by {
            assert(config::is_token_byte(bytes[i]));
        }
    }
    law_encoded_text_is_read_back(ssid, texts.ssid, MAX_SSID_LEN as nat);
    law_encoded_text_is_read_back(password, texts.password, MAX_PASSWORD_LEN as nat);
    law_encoded_text_is_read_back(token, texts.token, MAX_TOKEN_LEN as nat);
    assert("ssid"@ != "password"@ && "ssid"@ != "token"@ && "password"@ != "token"@) by {
        reveal_strlit("ssid");
        reveal_strlit("password");
        reveal_strlit("token");
        assert("ssid"@.len() == 4 && "password"@.len() == 8 && "token"@.len() == 5);
    }
    let none = FormFacts { ssid: None, password: None, token: None };
    let one = FormFacts { ssid: Some(texts.ssid), password: None, token: None };
    let two = FormFacts { ssid: Some(texts.ssid), password: Some(texts.password), token: None };
    let three = FormFacts {
        ssid: Some(texts.ssid),
        password: Some(texts.password),
        token: Some(texts.token),
    };
    lemma_three_fields(text::pieces(form, '&'), none, one, two, three);
}

/// Headers that announce a form, followed by a form with any encodings of a
/// configuration that can be stored, ask for that configuration to be saved.
pub proof fn law_complete_form_request_is_saved(
    head: Seq<u8>,
    texts: config::DeviceTexts,
    ssid: Seq<char>,
    password: Seq<char>,
    token: Seq<char>,
    capacity: nat,
)
    requires
        texts.valid(),
        without_zero(texts.ssid),
        without_zero(texts.password),
        is_encoding(ssid, texts.ssid),
        is_encoding(password, texts.password),
        is_encoding(token, texts.token),
        first_match(head, header_terminator()) == Some((head.len() - 4) as nat),
        valid_utf8(head),
        request_head(decode_utf8(head)) == Ok::<Result<RequestTexts, HeaderFacts>, RequestError>(
            Err(
                HeaderFacts {
                    content_length: Some(encode_utf8(form_text(ssid, password, token)).len()),
                    is_form: true,
                },
            ),
        ),
        head.len() + encode_utf8(form_text(ssid, password, token)).len() <= capacity,
    ensures
        request_in(head + encode_utf8(form_text(ssid, password, token)), capacity) == Ok::<
            Option<RequestTexts>,
            RequestError,
        >(Some(RequestTexts::Save(texts))),
{
    let body = encode_utf8(form_text(ssid, password, token));
    let whole = head + body;
    lemma_match_stays(head, body, header_terminator());
    assert(whole.take(head.len() as int) =~= head);
    assert(whole.subrange(head.len() as int, (head.len() + body.len()) as int) =~= body);
    law_form_hands_in_the_configuration(texts, ssid, password, token);
}

/// The headers of a request: its first line, the header lines and an empty line.
pub open spec fn head_text(request_line: Seq<char>, headers: Seq<Seq<char>>) -> Seq<char> {
    text::joined_lines(seq![request_line] + headers + seq![Seq::<char>::empty(), Seq::<char>::empty()])
}

/// Whether these can stand as lines: none is empty, and none holds a carriage
/// return.
pub open spec fn are_lines(lines: Seq<Seq<char>>) -> bool {
    forall|i: int| 0 <= i < lines.len() ==> (#[trigger] lines[i]).len() > 0 && !lines[i].contains('\r')
}

/// Whether a line is a header that the controller does not know: its name is,
/// whatever the case, none of the three that say something.
pub open spec fn is_other_header(line: Seq<char>) -> bool {
    exists|name: Seq<char>, value: Seq<char>|
        {
            &&& line == #[trigger] (name + seq![':'] + value)
            &&& !name.contains(':')
            &&& !text::same_ignoring_ascii_case(name, "content-length"@)
            &&& !text::same_ignoring_ascii_case(name, "content-type"@)
            &&& !text::same_ignoring_ascii_case(name, "transfer-encoding"@)
        }
}

proof fn lemma_head_lines(request_line: Seq<char>, headers: Seq<Seq<char>>)
    requires
        request_line.len() > 0,
        !request_line.contains('\r'),
        are_lines(headers),
    ensures
        text::crlf_lines(head_text(request_line, headers))[0] == request_line,
        text::crlf_lines(head_text(request_line, headers)).drop_first() == headers + seq![
            Seq::<char>::empty(),
            Seq::<char>::empty(),
        ],
{
    let ends = seq![Seq::<char>::empty(), Seq::<char>::empty()];
    let lines = seq![request_line] + headers + ends;
    assert forall|i: int| 0 <= i < lines.len() implies !(#[trigger] lines[i]).contains('\r') by {
        if 1 <= i < 1 + headers.len() {
            assert(lines[i] == headers[i - 1]);
        } else if i > headers.len() {
            assert(lines[i] == Seq::<char>::empty());
        }
    }
    text::law_lines_are_what_was_joined(lines);
    assert(lines.drop_first() =~= headers + ends);
}

/// What stands before the first place is passed over.
proof fn lemma_match_behind(front: Seq<u8>, rest: Seq<u8>, needle: Seq<u8>)
    requires
        needle.len() > 0,
        forall|i: int|
            0 <= i < front.len() && i + needle.len() <= front.len() + rest.len() ==> #[trigger] (front + rest).subrange(
                i,
                i + needle.len(),
            ) != needle,
        first_match(rest, needle) is Some,
    ensures
        first_match(front + rest, needle) == Some((front.len() + first_match(rest, needle)->0) as nat),
    decreases front.len(),
{
    let whole = front + rest;
    let n = needle.len() as int;
    if front.len() == 0 {
        assert(whole =~= rest);
    } else {
        let behind = front.drop_first();
        let shorter = behind + rest;
        assert(whole.drop_first() =~= shorter);
        lemma_match_stays(rest, seq![], needle);
        assert(whole.take(n) =~= whole.subrange(0, 0 + n));
        assert forall|i: int| 0 <= i < behind.len() && i + n <= behind.len() + rest.len() implies #[trigger] shorter.subrange(
            i,
            i + n,
        ) != needle by {
            assert(shorter.subrange(i, i + n) =~= whole.subrange(i + 1, i + 1 + n));
        }
        lemma_match_behind(behind, rest, needle);
    }
}

/// The empty line behind the headers is the first, and they end with it.
proof fn lemma_head_ends(lines: Seq<Seq<char>>)
    requires
        lines.len() > 0,
        are_lines(lines),
    ensures
        ({
            let bytes = encode_utf8(
                text::joined_lines(lines + seq![Seq::<char>::empty(), Seq::<char>::empty()]),
            );
            &&& bytes.len() >= 4
            &&& bytes[0] != 13
            &&& first_match(bytes, seq![13u8, 10, 13, 10]) == Some((bytes.len() - 4) as nat)
        }),
    decreases lines.len(),
{
    let empty = Seq::<char>::empty();
    let ends = seq![empty, empty];
    let all = lines + ends;
    let line = lines[0];
    let pair = seq!['\r', '\n'];
    let needle = seq![13u8, 10, 13, 10];
    let behind = text::joined_lines(all.drop_first());
    assert(!line.contains('\r'));
    assert(all[0] == line);
    assert(text::joined_lines(all) == line + pair + behind);
    text::lemma_encoded_in_a_row(line + pair, behind);
    text::lemma_encoded_in_a_row(line, pair);
    text::lemma_encoded_line_end();
    text::lemma_encoded_without(line, '\r');
    let front = encode_utf8(line);
    let rest = encode_utf8(behind);
    let bytes = encode_utf8(text::joined_lines(all));
    assert(bytes =~= front + seq![13u8, 10] + rest);
    assert(bytes[0] == front[0]);
    if lines.len() == 1 {
        assert(all.drop_first() =~= ends);
        assert(ends.drop_first() =~= seq![empty]);
        assert(text::joined_lines(seq![empty]) =~= empty);
        assert(text::joined_lines(ends) =~= pair);
        assert(rest =~= seq![13u8, 10]);
        let index = front.len() as int;
        assert(bytes.subrange(index, index + 4) =~= needle);
        assert forall|i: int| 0 <= i < index implies #[trigger] bytes.subrange(i, i + 4) != needle by {
            assert(bytes.subrange(i, i + 4)[0] == bytes[i]);
            assert(bytes[i] == front[i]);
            assert(needle[0] == 13);
        }
        lemma_first_match_is(bytes, needle, index);
    } else {
        let others = lines.drop_first();
        assert(all.drop_first() =~= others + ends);
        assert(are_lines(others)) by {
            assert forall|i: int| 0 <= i < others.len() implies (#[trigger] others[i]).len() > 0
                && !others[i].contains('\r') by {
                assert(others[i] == lines[i + 1]);
            }
        }
        lemma_head_ends(others);
        let before = front + seq![13u8, 10];
        assert(bytes =~= before + rest);
        assert forall|i: int|
            0 <= i < before.len() && i + needle.len() <= before.len() + rest.len() implies #[trigger] (before
            + rest).subrange(i, i + needle.len()) != needle by {
            let part = (before + rest).subrange(i, i + needle.len());
            assert(part[0] == bytes[i]);
            assert(part[2] == bytes[i + 2]);
            assert(needle[0] == 13 && needle[2] == 13);
            if i < front.len() {
                assert(bytes[i] == front[i]);
            } else if i == front.len() {
                assert(bytes[i + 2] == rest[0]);
            } else {
                assert(bytes[i] == 10);
            }
        }
        lemma_match_behind(before, rest, needle);
    }
}

/// What a request asks for by a head that was written out line by line.
proof fn lemma_request_with_head(request_line: Seq<char>, headers: Seq<Seq<char>>, body: Seq<u8>)
    requires
        request_line.len() > 0,
        !request_line.contains('\r'),
        are_lines(headers),
    ensures
        ({
            let head = encode_utf8(head_text(request_line, headers));
            &&& head.len() >= 4
            &&& first_match(head + body, header_terminator()) == Some((head.len() - 4) as nat)
            &&& (head + body).take(head.len() as int) == head
            &&& valid_utf8(head)
            &&& decode_utf8(head) == head_text(request_line, headers)
        }),
{
    let lines = seq![request_line] + headers;
    let head = encode_utf8(head_text(request_line, headers));
    assert(are_lines(lines)) by {
        assert forall|i: int| 0 <= i < lines.len() implies (#[trigger] lines[i]).len() > 0
            && !lines[i].contains('\r') by {
            if i > 0 {
                assert(lines[i] == headers[i - 1]);
            }
        }
    }
    lemma_head_ends(lines);
    assert(header_terminator() =~= seq![13u8, 10, 13, 10]);
    lemma_match_stays(head, body, header_terminator());
    assert((head + body).take(head.len() as int) =~= head);
    encode_utf8_valid_utf8(head_text(request_line, headers));
    encode_utf8_decode_utf8(head_text(request_line, headers));
}

/// Header lines in a row say what the first of them say, and then the others.
/// An empty line says nothing, and where a line is wrong that is all they say.
pub proof fn law_headers_are_read_in_a_row(facts: HeaderFacts, front: Seq<Seq<char>>, behind: Seq<Seq<char>>)
    ensures
        header_lines(facts, front + behind) == match header_lines(facts, front) {
            Ok(next) => header_lines(next, behind),
            Err(error) => Err(error),
        },
        header_lines(facts, seq![]) == Ok::<HeaderFacts, RequestError>(facts),
        header_lines(facts, seq![Seq::<char>::empty()]) == Ok::<HeaderFacts, RequestError>(facts),
        forall|line: Seq<char>|
            line.len() > 0 ==> #[trigger] header_lines(facts, seq![line]) == header_line(facts, line),
    decreases front.len(),
{
    let whole = front + behind;
    let empty = Seq::<char>::empty();
    assert(header_lines(facts, seq![]) == Ok::<HeaderFacts, RequestError>(facts));
    assert(seq![empty].drop_first() =~= seq![]);
    assert forall|line: Seq<char>| line.len() > 0 implies #[trigger] header_lines(facts, seq![line])
        == header_line(facts, line) by {
        assert(seq![line].drop_first() =~= seq![]);
        if let Ok(next) = header_line(facts, line) {
            assert(header_lines(next, seq![]) == Ok::<HeaderFacts, RequestError>(next));
        }
    }
    if front.len() == 0 {
        assert(whole =~= behind);
    } else {
        assert(whole[0] == front[0]);
        assert(whole.drop_first() =~= front.drop_first() + behind);
        if front[0].len() == 0 {
            law_headers_are_read_in_a_row(facts, front.drop_first(), behind);
        } else if let Ok(next) = header_line(facts, front[0]) {
            law_headers_are_read_in_a_row(next, front.drop_first(), behind);
        }
    }
}

/// A header line is a name, a colon and a value, which may stand between white
/// space. The case of the name does not matter. A length is taken once and has
/// to be a number. A form is told by its kind, whatever stands behind a
/// semicolon. No transfer encoding is taken. Another header says nothing, and
/// a line without a colon is wrong.
pub proof fn law_header_says_what_its_name_means(
    facts: HeaderFacts,
    name: Seq<char>,
    before: Seq<char>,
    value: Seq<char>,
    between: Seq<char>,
    more: Seq<char>,
)
    requires
        !name.contains(':'),
        text::is_blank(before),
        text::is_blank(between),
        value.len() > 0,
        !text::is_white_space(value[0]),
        !text::is_white_space(value.last()),
        !value.contains(';'),
    ensures
        ({
            let line = name + seq![':'] + (before + value + between);
            let longer = name + seq![':'] + (before + value + between + (seq![';'] + more));
            let number = numbers::unsigned_number(value, usize::MAX as nat);
            let is_form = value == "application/x-www-form-urlencoded"@;
            if text::same_ignoring_ascii_case(name, "content-length"@) {
                header_line(facts, line) == if facts.content_length is None && number is Some {
                    Ok::<HeaderFacts, RequestError>(
                        HeaderFacts { content_length: Some(number->0), is_form: facts.is_form },
                    )
                } else {
                    Err(RequestError::InvalidContentLength)
                }
            } else if text::same_ignoring_ascii_case(name, "content-type"@) {
                let next = Ok::<HeaderFacts, RequestError>(
                    HeaderFacts { content_length: facts.content_length, is_form },
                );
                header_line(facts, line) == next && header_line(facts, longer) == next
            } else if text::same_ignoring_ascii_case(name, "transfer-encoding"@) {
                header_line(facts, line) == Err::<HeaderFacts, RequestError>(
                    RequestError::UnsupportedTransferEncoding,
                )
            } else {
                header_line(facts, line) == Ok::<HeaderFacts, RequestError>(facts)
            }
        }),
        header_line(facts, name) == Err::<HeaderFacts, RequestError>(RequestError::InvalidRequest),
{
    let rest = before + value + between;
    let rest_longer = rest + (seq![';'] + more);
    text::law_text_is_cut_at_the_first_separator(name, ':', rest);
    text::law_text_is_cut_at_the_first_separator(name, ':', rest_longer);
    lemma_trimmed_value(before, value, between);
    text::lemma_pieces_last(value, ';');
    text::lemma_trimmed_again(rest);
    assert(text::trimmed(rest) == value);
    assert(text::pieces(value, ';')[0] == value);
    // The white space behind the longer value is cut off behind its semicolon.
    let kept = text::trim_end(more);
    let inner = value + between;
    text::lemma_trimmed_around(before + inner, ';', more);
    assert(before + inner + seq![';'] + more =~= rest_longer);
    lemma_first_kept(before, value, between);
    let whole = inner + seq![';'] + kept;
    assert(text::trimmed(rest_longer) =~= whole);
    assert(!inner.contains(';')) by {
        assert forall|i: int| 0 <= i < inner.len() implies inner[i] != ';' by {
            if i < value.len() {
                assert(inner[i] == value[i]);
                assert(value.contains(value[i]));
            } else {
                assert(inner[i] == between[i - value.len()]);
                assert(text::is_white_space(between[i - value.len()]));
            }
        }
    }
    text::lemma_pieces_step(inner, ';', kept);
    assert(text::pieces(whole, ';')[0] == inner);
    let none = Seq::<char>::empty();
    lemma_trimmed_value(none, value, between);
    assert(none + value + between =~= inner);
}

proof fn lemma_trimmed_value(before: Seq<char>, value: Seq<char>, between: Seq<char>)
    requires
        text::is_blank(before),
        text::is_blank(between),
        value.len() > 0,
        !text::is_white_space(value[0]),
        !text::is_white_space(value.last()),
    ensures
        text::trimmed(before + value + between) == value,
{
    text::lemma_trimmed_padded(before, value, between);
    assert(text::trim_start(value) == value);
    assert(text::trim_end(value) == value);
}

proof fn lemma_first_kept(before: Seq<char>, value: Seq<char>, between: Seq<char>)
    requires
        text::is_blank(before),
        value.len() > 0,
        !text::is_white_space(value[0]),
    ensures
        text::trim_start(before + (value + between)) == value + between,
    decreases before.len(),
{
    let whole = before + (value + between);
    if before.len() > 0 {
        assert(text::is_white_space(before[0]));
        let rest = before.drop_first();
        assert(text::is_blank(rest)) by {
            assert forall|i: int| 0 <= i < rest.len() implies text::is_white_space(#[trigger] rest[i]) by {
                assert(rest[i] == before[i + 1]);
            }
        }
        lemma_first_kept(rest, value, between);
        assert(whole.drop_first() =~= rest + (value + between));
    } else {
        assert(whole =~= value + between);
        assert(whole[0] == value[0]);
    }
}

/// What the headers have said before the first.
spec fn no_headers() -> HeaderFacts {
    HeaderFacts { content_length: None, is_form: false }
}

proof fn lemma_other_header(facts: HeaderFacts, line: Seq<char>)
    requires
        is_other_header(line),
    ensures
        line.len() > 0,
        header_line(facts, line) == Ok::<HeaderFacts, RequestError>(facts),
{
    let (name, value) = choose|name: Seq<char>, value: Seq<char>|
        {
            &&& line == #[trigger] (name + seq![':'] + value)
            &&& !name.contains(':')
            &&& !text::same_ignoring_ascii_case(name, "content-length"@)
            &&& !text::same_ignoring_ascii_case(name, "content-type"@)
            &&& !text::same_ignoring_ascii_case(name, "transfer-encoding"@)
        };
    text::law_text_is_cut_at_the_first_separator(name, ':', value);
}

proof fn lemma_ends_say_nothing(facts: HeaderFacts, lines: Seq<Seq<char>>)
    ensures
        header_lines(facts, lines + seq![Seq::<char>::empty(), Seq::<char>::empty()]) == header_lines(facts, lines),
{
    let empty = Seq::<char>::empty();
    let ends = seq![empty, empty];
    law_headers_are_read_in_a_row(facts, lines, ends);
    if let Ok(next) = header_lines(facts, lines) {
        assert(ends =~= seq![empty] + seq![empty]);
        law_headers_are_read_in_a_row(next, seq![empty], seq![empty]);
    }
}

/// A request is answered by its first line and its headers. The form is shown
/// for `GET /`, and nothing is found but what is posted to `/save`. There a wrong
/// header, a missing length, a length beyond what can be received and a body
/// that is no form are turned down, and a body that is not all there is waited
/// for.
pub proof fn law_request_is_answered_by_its_head(
    request_line: Seq<char>,
    headers: Seq<Seq<char>>,
    body: Seq<u8>,
    capacity: nat,
)
    requires
        request_line.len() > 0,
        !request_line.contains('\r'),
        are_lines(headers),
    ensures
        ({
            let head = encode_utf8(head_text(request_line, headers));
            let answer = request_in(head + body, capacity);
            let facts = header_lines(HeaderFacts { content_length: None, is_form: false }, headers);
            if request_line == "GET / HTTP/1.1"@ || request_line == "GET / HTTP/1.0"@ {
                answer == Ok::<Option<RequestTexts>, RequestError>(Some(RequestTexts::ShowForm))
            } else if request_line != "POST /save HTTP/1.1"@ && request_line != "POST /save HTTP/1.0"@ {
                answer == Ok::<Option<RequestTexts>, RequestError>(Some(RequestTexts::NotFound))
            } else if facts is Err {
                answer == Err::<Option<RequestTexts>, RequestError>(facts->Err_0)
            } else if facts->Ok_0.content_length is None {
                answer == Err::<Option<RequestTexts>, RequestError>(RequestError::MissingContentLength)
            } else if head.len() + facts->Ok_0.content_length->0 > capacity {
                answer == Err::<Option<RequestTexts>, RequestError>(RequestError::RequestTooLarge)
            } else if body.len() < facts->Ok_0.content_length->0 {
                answer == Ok::<Option<RequestTexts>, RequestError>(None)
            } else if !facts->Ok_0.is_form {
                answer == Err::<Option<RequestTexts>, RequestError>(RequestError::UnsupportedContentType)
            } else {
                match form_config(body.take(facts->Ok_0.content_length->0 as int)) {
                    Ok(texts) => answer == Ok::<Option<RequestTexts>, RequestError>(
                        Some(RequestTexts::Save(texts)),
                    ),
                    Err(error) => answer == Err::<Option<RequestTexts>, RequestError>(error),
                }
            }
        }),
{
    let head = encode_utf8(head_text(request_line, headers));
    let whole = head + body;
    lemma_request_with_head(request_line, headers, body);
    lemma_head_lines(request_line, headers);
    lemma_ends_say_nothing(no_headers(), headers);
    if let Ok(facts) = header_lines(no_headers(), headers) {
        if let Some(length) = facts.content_length {
            if length <= body.len() {
                assert(whole.subrange(head.len() as int, (head.len() + length) as int) =~= body.take(
                    length as int,
                ));
            }
        }
    }
}

/// A header whose name is, whatever the case, none of the three that say
/// something changes nothing, wherever it stands: the request is answered as
/// the one without it.
pub proof fn law_other_headers_change_nothing(
    request_line: Seq<char>,
    front: Seq<Seq<char>>,
    line: Seq<char>,
    behind: Seq<Seq<char>>,
    body: Seq<u8>,
    room: nat,
)
    requires
        request_line.len() > 0,
        !request_line.contains('\r'),
        are_lines(front),
        are_lines(behind),
        is_other_header(line),
        !line.contains('\r'),
    ensures
        ({
            let with = encode_utf8(head_text(request_line, front + seq![line] + behind));
            let without = encode_utf8(head_text(request_line, front + behind));
            request_in(with + body, with.len() + room) == request_in(without + body, without.len() + room)
        }),
{
    let facts = no_headers();
    let all = front + seq![line] + behind;
    let fewer = front + behind;
    lemma_other_header(facts, line);
    assert(are_lines(all)) by {
        assert forall|i: int| 0 <= i < all.len() implies (#[trigger] all[i]).len() > 0 && !all[i].contains('\r') by {
            if i < front.len() {
                assert(all[i] == front[i]);
            } else if i > front.len() {
                assert(all[i] == behind[i - front.len() - 1]);
            }
        }
    }
    assert(are_lines(fewer)) by {
        assert forall|i: int| 0 <= i < fewer.len() implies (#[trigger] fewer[i]).len() > 0
            && !fewer[i].contains('\r') by {
            if i < front.len() {
                assert(fewer[i] == front[i]);
            } else {
                assert(fewer[i] == behind[i - front.len()]);
            }
        }
    }
    assert(header_lines(facts, all) == header_lines(facts, fewer)) by {
        assert(all =~= front + (seq![line] + behind));
        law_headers_are_read_in_a_row(facts, front, seq![line] + behind);
        law_headers_are_read_in_a_row(facts, front, behind);
        if let Ok(next) = header_lines(facts, front) {
            law_headers_are_read_in_a_row(next, seq![line], behind);
            lemma_other_header(next, line);
        }
    }
    let with = encode_utf8(head_text(request_line, all));
    let without = encode_utf8(head_text(request_line, fewer));
    law_request_is_answered_by_its_head(request_line, all, body, with.len() + room);
    law_request_is_answered_by_its_head(request_line, fewer, body, without.len() + room);
}

/// Headers of which one tells a form, one tells a length, and the others say
/// nothing, in any order. A place below zero was passed before.
proof fn lemma_form_headers(facts: HeaderFacts, headers: Seq<Seq<char>>, kind: int, length: int, n: nat)
    requires
        kind != length,
        kind < headers.len(),
        length < headers.len(),
        n <= usize::MAX,
        length >= 0 ==> facts.content_length is None,
        forall|i: int|
            0 <= i < headers.len() && i != kind && i != length ==> is_other_header(#[trigger] headers[i]),
        kind >= 0 ==> headers[kind] == "Content-Type: application/x-www-form-urlencoded"@,
        length >= 0 ==> headers[length] == "Content-Length: "@ + numbers::decimal(n),
    ensures
        header_lines(facts, headers) == Ok::<HeaderFacts, RequestError>(
            HeaderFacts {
                content_length: if length >= 0 {
                    Some(n)
                } else {
                    facts.content_length
                },
                is_form: kind >= 0 || facts.is_form,
            },
        ),
    decreases headers.len(),
{
    if headers.len() > 0 {
        let line = headers[0];
        let rest = headers.drop_first();
        assert forall|i: int| 0 <= i < rest.len() && i != kind - 1 && i != length - 1 implies is_other_header(
            #[trigger] rest[i],
        ) by {
            assert(rest[i] == headers[i + 1]);
        }
        if kind > 0 {
            assert(rest[kind - 1] == headers[kind]);
        }
        if length > 0 {
            assert(rest[length - 1] == headers[length]);
        }
        if kind == 0 {
            lemma_kind_header(facts);
            lemma_form_headers(HeaderFacts { is_form: true, ..facts }, rest, -1, length - 1, n);
        } else if length == 0 {
            lemma_length_header(facts, n);
            lemma_form_headers(HeaderFacts { content_length: Some(n), ..facts }, rest, kind - 1, -1, n);
        } else {
            lemma_other_header(facts, line);
            lemma_form_headers(facts, rest, kind - 1, length - 1, n);
        }
    }
}

proof fn lemma_kind_header(facts: HeaderFacts)
    ensures
        "Content-Type: application/x-www-form-urlencoded"@.len() > 0,
        header_line(facts, "Content-Type: application/x-www-form-urlencoded"@) == Ok::<HeaderFacts, RequestError>(
            HeaderFacts { content_length: facts.content_length, is_form: true },
        ),
{
    let line = "Content-Type: application/x-www-form-urlencoded"@;
    let name = "Content-Type"@;
    let value = "application/x-www-form-urlencoded"@;
    reveal_strlit("Content-Type: application/x-www-form-urlencoded");
    reveal_strlit("Content-Type");
    reveal_strlit("application/x-www-form-urlencoded");
    reveal_strlit("content-type");
    reveal_strlit("content-length");
    let none = Seq::<char>::empty();
    let space = seq![' '];
    assert(line =~= name + seq![':'] + (space + value + none));
    assert(text::same_ignoring_ascii_case(name, "content-type"@));
    assert("content-length"@.len() == 14);
    assert(!name.contains(':'));
    assert(!value.contains(';'));
    assert(value[0] == 'a' && value.last() == 'd');
    assert(text::is_blank(space));
    law_header_says_what_its_name_means(facts, name, space, value, none, none);
}

proof fn lemma_length_header(facts: HeaderFacts, n: nat)
    requires
        facts.content_length is None,
        n <= usize::MAX,
    ensures
        ("Content-Length: "@ + numbers::decimal(n)).len() > 0,
        header_line(facts, "Content-Length: "@ + numbers::decimal(n)) == Ok::<HeaderFacts, RequestError>(
            HeaderFacts { content_length: Some(n), is_form: facts.is_form },
        ),
{
    let name = "Content-Length"@;
    let value = numbers::decimal(n);
    reveal_strlit("Content-Length: ");
    reveal_strlit("Content-Length");
    reveal_strlit("content-length");
    let none = Seq::<char>::empty();
    let space = seq![' '];
    assert("Content-Length: "@ + value =~= name + seq![':'] + (space + value + none));
    assert(text::same_ignoring_ascii_case(name, "content-length"@));
    assert(!name.contains(':'));
    numbers::lemma_decimal_is_read_back(n);
    numbers::law_unsigned_round_trip(n, usize::MAX as nat);
    assert forall|i: int| 0 <= i < value.len() implies value[i] != ';' && !text::is_white_space(value[i]) by {
        assert(numbers::is_digit(value[i]));
    }
    assert(text::is_blank(space));
    law_header_says_what_its_name_means(facts, name, space, value, none, none);
}

/// A posted form is saved, whatever headers come with its kind and its length,
/// and in whatever order: the bytes of the first line, of those header lines, of
/// an empty line and of a form with any encodings of a configuration that can be
/// stored ask for that configuration to be saved.
pub proof fn law_posted_form_is_saved(
    request_line: Seq<char>,
    headers: Seq<Seq<char>>,
    kind: int,
    length: int,
    texts: config::DeviceTexts,
    ssid: Seq<char>,
    password: Seq<char>,
    token: Seq<char>,
    capacity: nat,
)
    requires
        request_line == "POST /save HTTP/1.1"@ || request_line == "POST /save HTTP/1.0"@,
        0 <= kind < headers.len(),
        0 <= length < headers.len(),
        kind != length,
        headers[kind] == "Content-Type: application/x-www-form-urlencoded"@,
        headers[length] == "Content-Length: "@ + numbers::decimal(
            encode_utf8(form_text(ssid, password, token)).len(),
        ),
        forall|i: int|
            0 <= i < headers.len() && i != kind && i != length ==> is_other_header(#[trigger] headers[i])
                && !headers[i].contains('\r'),
        texts.valid(),
        without_zero(texts.ssid),
        without_zero(texts.password),
        is_encoding(ssid, texts.ssid),
        is_encoding(password, texts.password),
        is_encoding(token, texts.token),
        encode_utf8(head_text(request_line, headers)).len() + encode_utf8(form_text(ssid, password, token)).len()
            <= capacity,
        capacity <= usize::MAX,
    ensures
        request_in(
            encode_utf8(head_text(request_line, headers)) + encode_utf8(form_text(ssid, password, token)),
            capacity,
        ) == Ok::<Option<RequestTexts>, RequestError>(Some(RequestTexts::Save(texts))),
{
    let body = encode_utf8(form_text(ssid, password, token));
    let n = body.len();
    assert(request_line.len() > 0 && !request_line.contains('\r')) by {
        reveal_strlit("POST /save HTTP/1.1");
        reveal_strlit("POST /save HTTP/1.0");
    }
    assert(request_line != "GET / HTTP/1.1"@ && request_line != "GET / HTTP/1.0"@) by {
        reveal_strlit("POST /save HTTP/1.1");
        reveal_strlit("POST /save HTTP/1.0");
        reveal_strlit("GET / HTTP/1.1");
        reveal_strlit("GET / HTTP/1.0");
        assert(request_line.len() == 19);
    }
    assert(are_lines(headers)) by {
        assert forall|i: int| 0 <= i < headers.len() implies (#[trigger] headers[i]).len() > 0
            && !headers[i].contains('\r') by {
            if i == kind {
                reveal_strlit("Content-Type: application/x-www-form-urlencoded");
            } else if i == length {
                lemma_length_line(n);
            } else {
                lemma_other_header(no_headers(), headers[i]);
            }
        }
    }
    lemma_form_headers(no_headers(), headers, kind, length, n);
    law_request_is_answered_by_its_head(request_line, headers, body, capacity);
    assert(body.take(n as int) =~= body);
    law_form_hands_in_the_configuration(texts, ssid, password, token);
}

proof fn lemma_length_line(n: nat)
    ensures
        ("Content-Length: "@ + numbers::decimal(n)).len() > 0,
        !("Content-Length: "@ + numbers::decimal(n)).contains('\r'),
{
    let value = numbers::decimal(n);
    let line = "Content-Length: "@ + value;
    reveal_strlit("Content-Length: ");
    numbers::lemma_decimal_is_read_back(n);
    assert forall|i: int| 0 <= i < line.len() implies line[i] != '\r' by {
        if i >= 16 {
            assert(line[i] == value[i - 16]);
            assert(numbers::is_digit(value[i - 16]));
        }
    }
}

/// A request is waited for while the empty line behind its headers has not come,
/// up to what can be received. Headers that are no text are turned down.
pub proof fn law_headers_are_waited_for(bytes: Seq<u8>, body: Seq<u8>, capacity: nat)
    ensures
        (forall|i: int|
            0 <= i <= bytes.len() - 4 ==> !(#[trigger] bytes[i] == 13 && bytes[i + 1] == 10 && bytes[i + 2] == 13
                && bytes[i + 3] == 10)) ==> request_in(bytes, capacity) == if bytes.len() == capacity {
            Err::<Option<RequestTexts>, RequestError>(RequestError::RequestTooLarge)
        } else {
            Ok(None)
        },
        bytes.len() >= 4 && bytes.skip(bytes.len() - 4) == seq![13u8, 10, 13, 10] && !valid_utf8(bytes) && (forall|
            i: int,
        |
            0 <= i < bytes.len() - 4 ==> !(#[trigger] bytes[i] == 13 && bytes[i + 1] == 10 && bytes[i + 2] == 13
                && bytes[i + 3] == 10)) ==> request_in(bytes + body, capacity) == Err::<
            Option<RequestTexts>,
            RequestError,
        >(RequestError::InvalidUtf8),
{
    let needle = header_terminator();
    assert(needle[0] == 13 && needle[1] == 10 && needle[2] == 13 && needle[3] == 10);
    assert forall|i: int|
        0 <= i && i + 4 <= bytes.len() && !(bytes[i] == 13 && bytes[i + 1] == 10 && bytes[i + 2] == 13 && bytes[i
            + 3] == 10) implies #[trigger] bytes.subrange(i, i + 4) != needle by {
        let part = bytes.subrange(i, i + 4);
        assert(part[0] == bytes[i] && part[1] == bytes[i + 1] && part[2] == bytes[i + 2] && part[3] == bytes[i
            + 3]);
    }
    if forall|i: int|
        0 <= i <= bytes.len() - 4 ==> !(#[trigger] bytes[i] == 13 && bytes[i + 1] == 10 && bytes[i + 2] == 13
            && bytes[i + 3] == 10) {
        lemma_no_match(bytes, needle);
    }
    if bytes.len() >= 4 && bytes.skip(bytes.len() - 4) == seq![13u8, 10, 13, 10] && forall|i: int|
        0 <= i < bytes.len() - 4 ==> !(#[trigger] bytes[i] == 13 && bytes[i + 1] == 10 && bytes[i + 2] == 13
            && bytes[i + 3] == 10) {
        assert(bytes.subrange(bytes.len() - 4, bytes.len() as int) =~= bytes.skip(bytes.len() - 4));
        lemma_first_match_is(bytes, needle, bytes.len() - 4);
        lemma_match_stays(bytes, body, needle);
        assert((bytes + body).take(bytes.len() as int) =~= bytes);
    }
}

/// The digits of an escape, by their numbers in ASCII.
pub proof fn law_hex_digits_by_number(byte: u8)
    ensures
        48 <= byte <= 57 ==> hex_digit_value(byte) == Some((byte - 48) as u8),
        65 <= byte <= 70 ==> hex_digit_value(byte) == Some((byte - 55) as u8),
        97 <= byte <= 102 ==> hex_digit_value(byte) == Some((byte - 87) as u8),
        hex_digit_value(byte) is Some ==> 48 <= byte <= 57 || 65 <= byte <= 70 || 97 <= byte <= 102,
{
}

/// An encoded text is decoded byte by byte: `%` (37) with two digits, `+` (43)
/// for a space (32), and any other byte for itself. An escape that is cut short
/// or has another character for a digit, and a zero byte, are turned down, and
/// so is a byte for which there is no room.
pub proof fn law_text_is_decoded_byte_by_byte(first: u8, second: u8, third: u8, rest: Seq<u8>, room: int)
    ensures
        ({
            let wrong = Err::<Seq<u8>, RequestError>(RequestError::InvalidEncoding);
            let (high, low) = (hex_digit_value(second), hex_digit_value(third));
            let escape = percent_decoded(seq![37u8, second, third] + rest, room);
            &&& high is None || low is None ==> escape == wrong
            &&& high == Some(0u8) && low == Some(0u8) ==> escape == wrong
            &&& high is Some && low is Some && 16 * high->0 + low->0 != 0 ==> escape == with_byte(
                (16 * high->0 + low->0) as u8,
                rest,
                room,
            )
            &&& percent_decoded(seq![37u8], room) == wrong
            &&& percent_decoded(seq![37u8, second], room) == wrong
            &&& percent_decoded(seq![43u8] + rest, room) == with_byte(32, rest, room)
            &&& percent_decoded(seq![0u8] + rest, room) == wrong
            &&& first != 37 && first != 43 && first != 0 ==> percent_decoded(seq![first] + rest, room)
                == with_byte(first, rest, room)
            &&& percent_decoded(seq![], room) == Ok::<Seq<u8>, RequestError>(seq![])
        }),
{
    let escape = seq![37u8, second, third] + rest;
    assert(escape.skip(3) =~= rest);
    assert(escape[0] == 37 && escape[1] == second && escape[2] == third);
    let space = seq![43u8] + rest;
    assert(space.skip(1) =~= rest);
    assert(space[0] == 43);
    let zero = seq![0u8] + rest;
    assert(zero[0] == 0);
    let plain = seq![first] + rest;
    assert(plain.skip(1) =~= rest);
    assert(plain[0] == first);
    assert(seq![37u8][0] == 37 && seq![37u8, second][0] == 37);
}

/// A byte in front of what is decoded behind it, where there is room for it.
pub open spec fn with_byte(byte: u8, rest: Seq<u8>, room: int) -> Result<Seq<u8>, RequestError> {
    if room <= 0 {
        Err(RequestError::InvalidForm)
    } else {
        match percent_decoded(rest, room - 1) {
            Ok(bytes) => Ok(seq![byte] + bytes),
            Err(error) => Err(error),
        }
    }
}

/// A value that is decoded to bytes that are no text is turned down.
pub proof fn law_values_are_texts(encoded: Seq<char>, limit: nat)
    ensures
        match percent_decoded(encode_utf8(encoded), limit as int) {
            Err(error) => component(encoded, limit) == Err::<Seq<char>, RequestError>(error),
            Ok(bytes) => if valid_utf8(bytes) {
                component(encoded, limit) is Ok && encode_utf8(component(encoded, limit)->Ok_0) == bytes
            } else {
                component(encoded, limit) == Err::<Seq<char>, RequestError>(RequestError::InvalidUtf8)
            },
        },
{
    if let Ok(bytes) = percent_decoded(encode_utf8(encoded), limit as int) {
        if valid_utf8(bytes) {
            decode_utf8_encode_utf8(bytes);
        }
    }
}

/// A field of a form is a name, an equals sign and a value. The three names that
/// are known are each taken once, with a network name and a token of up to 32
/// bytes and a password of up to 64. Anything else is turned down.
pub proof fn law_fields_are_taken_once(facts: FormFacts, name: Seq<char>, value: Seq<char>)
    requires
        !name.contains('='),
    ensures
        ({
            let taken = form_field(facts, name + seq!['='] + value);
            let short = component(value, 32);
            let long = component(value, 64);
            let wrong = Err::<FormFacts, RequestError>(RequestError::InvalidForm);
            &&& name == "ssid"@ && facts.ssid is None ==> taken == match short {
                Ok(found) => Ok::<FormFacts, RequestError>(
                    FormFacts { ssid: Some(found), password: facts.password, token: facts.token },
                ),
                Err(error) => Err(error),
            }
            &&& name == "password"@ && facts.password is None ==> taken == match long {
                Ok(found) => Ok::<FormFacts, RequestError>(
                    FormFacts { ssid: facts.ssid, password: Some(found), token: facts.token },
                ),
                Err(error) => Err(error),
            }
            &&& name == "token"@ && facts.token is None ==> taken == match short {
                Ok(found) => Ok::<FormFacts, RequestError>(
                    FormFacts { ssid: facts.ssid, password: facts.password, token: Some(found) },
                ),
                Err(error) => Err(error),
            }
            &&& name == "ssid"@ && facts.ssid is Some ==> taken == wrong
            &&& name == "password"@ && facts.password is Some ==> taken == wrong
            &&& name == "token"@ && facts.token is Some ==> taken == wrong
            &&& name != "ssid"@ && name != "password"@ && name != "token"@ ==> taken == wrong
            &&& form_field(facts, name) == wrong
        }),
{
    text::law_text_is_cut_at_the_first_separator(name, '=', value);
    lemma_form_names();
}

proof fn lemma_form_names()
    ensures
        "ssid"@.len() == 4,
        "password"@.len() == 8,
        "token"@.len() == 5,
{
    reveal_strlit("ssid");
    reveal_strlit("password");
    reveal_strlit("token");
}

/// A form is read field by field, up to the first that is wrong.
pub proof fn law_form_is_read_field_by_field(facts: FormFacts, front: Seq<Seq<char>>, behind: Seq<Seq<char>>)
    ensures
        form_fields(facts, front + behind) == match form_fields(facts, front) {
            Ok(next) => form_fields(next, behind),
            Err(error) => Err(error),
        },
        form_fields(facts, seq![]) == Ok::<FormFacts, RequestError>(facts),
        forall|field: Seq<char>| #[trigger] form_fields(facts, seq![field]) == form_field(facts, field),
    decreases front.len(),
{
    let whole = front + behind;
    assert forall|field: Seq<char>| #[trigger] form_fields(facts, seq![field]) == form_field(facts, field) by {
        assert(seq![field].drop_first() =~= seq![]);
        if let Ok(next) = form_field(facts, field) {
            assert(form_fields(next, seq![]) == Ok::<FormFacts, RequestError>(next));
        }
    }
    assert(form_fields(facts, seq![]) == Ok::<FormFacts, RequestError>(facts));
    if front.len() == 0 {
        assert(whole =~= behind);
    } else {
        assert(whole[0] == front[0]);
        assert(whole.drop_first() =~= front.drop_first() + behind);
        if let Ok(next) = form_field(facts, front[0]) {
            law_form_is_read_field_by_field(next, front.drop_first(), behind);
        }
    }
}

/// A form that consists of these fields hands in what they say, when all three
/// are there and can be stored. A body that is no text is no form.
pub proof fn law_form_is_complete(fields: Seq<Seq<char>>, body: Seq<u8>)
    requires
        fields.len() > 0,
        forall|i: int| 0 <= i < fields.len() ==> !(#[trigger] fields[i]).contains('&'),
    ensures
        !valid_utf8(body) ==> form_config(body) == Err::<config::DeviceTexts, RequestError>(
            RequestError::InvalidUtf8,
        ),
        ({
            let handed_in = form_config(encode_utf8(text::joined(fields, '&')));
            match form_fields(FormFacts { ssid: None, password: None, token: None }, fields) {
                Err(error) => handed_in == Err::<config::DeviceTexts, RequestError>(error),
                Ok(facts) => if facts.ssid is None || facts.password is None || facts.token is None {
                    handed_in == Err::<config::DeviceTexts, RequestError>(RequestError::InvalidForm)
                } else {
                    let texts = config::DeviceTexts {
                        ssid: facts.ssid->0,
                        password: facts.password->0,
                        token: facts.token->0,
                    };
                    if texts.valid() {
                        handed_in == Ok::<config::DeviceTexts, RequestError>(texts)
                    } else {
                        handed_in == Err::<config::DeviceTexts, RequestError>(RequestError::InvalidConfig)
                    }
                },
            }
        }),
{
    let form = text::joined(fields, '&');
    encode_utf8_valid_utf8(form);
    encode_utf8_decode_utf8(form);
    text::law_pieces_are_what_was_joined(fields, '&');
}

/// What is known after so many fields, where the three stand at these places.
spec fn facts_in_turn(texts: config::DeviceTexts, a: int, b: int, c: int, done: int) -> FormFacts {
    FormFacts {
        ssid: if a < done {
            Some(texts.ssid)
        } else {
            None
        },
        password: if b < done {
            Some(texts.password)
        } else {
            None
        },
        token: if c < done {
            Some(texts.token)
        } else {
            None
        },
    }
}

proof fn lemma_next_field(
    texts: config::DeviceTexts,
    ssid: Seq<char>,
    password: Seq<char>,
    token: Seq<char>,
    field: Seq<char>,
    a: int,
    b: int,
    c: int,
    done: int,
)
    requires
        a != b && b != c && a != c,
        done == a || done == b || done == c,
        done == a ==> field == "ssid"@ + seq!['='] + ssid,
        done == b ==> field == "password"@ + seq!['='] + password,
        done == c ==> field == "token"@ + seq!['='] + token,
        component(ssid, 32) == Ok::<Seq<char>, RequestError>(texts.ssid),
        component(password, 64) == Ok::<Seq<char>, RequestError>(texts.password),
        component(token, 32) == Ok::<Seq<char>, RequestError>(texts.token),
    ensures
        form_field(facts_in_turn(texts, a, b, c, done), field) == Ok::<FormFacts, RequestError>(
            facts_in_turn(texts, a, b, c, done + 1),
        ),
{
    let facts = facts_in_turn(texts, a, b, c, done);
    if done == a {
        assert(!"ssid"@.contains('=')) by {
            reveal_strlit("ssid");
        }
        law_fields_are_taken_once(facts, "ssid"@, ssid);
    } else if done == b {
        assert(!"password"@.contains('=')) by {
            reveal_strlit("password");
        }
        law_fields_are_taken_once(facts, "password"@, password);
    } else {
        assert(!"token"@.contains('=')) by {
            reveal_strlit("token");
        }
        law_fields_are_taken_once(facts, "token"@, token);
    }
}

proof fn lemma_fields_in_any_order(
    texts: config::DeviceTexts,
    ssid: Seq<char>,
    password: Seq<char>,
    token: Seq<char>,
    fields: Seq<Seq<char>>,
    a: int,
    b: int,
    c: int,
)
    requires
        fields.len() == 3,
        0 <= a < 3 && 0 <= b < 3 && 0 <= c < 3,
        a != b && b != c && a != c,
        fields[a] == "ssid"@ + seq!['='] + ssid,
        fields[b] == "password"@ + seq!['='] + password,
        fields[c] == "token"@ + seq!['='] + token,
        component(ssid, 32) == Ok::<Seq<char>, RequestError>(texts.ssid),
        component(password, 64) == Ok::<Seq<char>, RequestError>(texts.password),
        component(token, 32) == Ok::<Seq<char>, RequestError>(texts.token),
    ensures
        form_fields(FormFacts { ssid: None, password: None, token: None }, fields) == Ok::<FormFacts, RequestError>(
            FormFacts { ssid: Some(texts.ssid), password: Some(texts.password), token: Some(texts.token) },
        ),
{
    let none = FormFacts { ssid: None, password: None, token: None };
    let one = facts_in_turn(texts, a, b, c, 1);
    let two = facts_in_turn(texts, a, b, c, 2);
    let three = facts_in_turn(texts, a, b, c, 3);
    assert(facts_in_turn(texts, a, b, c, 0) == none);
    lemma_next_field(texts, ssid, password, token, fields[0], a, b, c, 0);
    lemma_next_field(texts, ssid, password, token, fields[1], a, b, c, 1);
    lemma_next_field(texts, ssid, password, token, fields[2], a, b, c, 2);
    lemma_three_fields(fields, none, one, two, three);
}

proof fn lemma_token_without_zero(token: Seq<char>)
    requires
        config::valid_token(token),
    ensures
        without_zero(token),
{
    let bytes = encode_utf8(token);
    assert forall|i: int| 0 <= i < bytes.len() implies #[trigger] bytes[i] != 0 by {
        assert(config::is_token_byte(bytes[i]));
    }
}

/// The three fields of a form may come in any order.
pub proof fn law_fields_may_come_in_any_order(
    texts: config::DeviceTexts,
    ssid: Seq<char>,
    password: Seq<char>,
    token: Seq<char>,
    fields: Seq<Seq<char>>,
    a: int,
    b: int,
    c: int,
)
    requires
        texts.valid(),
        without_zero(texts.ssid),
        without_zero(texts.password),
        is_encoding(ssid, texts.ssid),
        is_encoding(password, texts.password),
        is_encoding(token, texts.token),
        fields.len() == 3,
        0 <= a < 3 && 0 <= b < 3 && 0 <= c < 3,
        a != b && b != c && a != c,
        fields[a] == "ssid"@ + seq!['='] + ssid,
        fields[b] == "password"@ + seq!['='] + password,
        fields[c] == "token"@ + seq!['='] + token,
    ensures
        form_config(encode_utf8(text::joined(fields, '&'))) == Ok::<config::DeviceTexts, RequestError>(texts),
{
    assert(forall|i: int| 0 <= i < fields.len() ==> !(#[trigger] fields[i]).contains('&')) by {
        lemma_encoding_is_one_piece(ssid, encode_utf8(texts.ssid));
        lemma_encoding_is_one_piece(password, encode_utf8(texts.password));
        lemma_encoding_is_one_piece(token, encode_utf8(texts.token));
        lemma_field_is_one_piece(ssid, password, token);
    }
    assert(component(ssid, 32) == Ok::<Seq<char>, RequestError>(texts.ssid)) by {
        law_encoded_text_is_read_back(ssid, texts.ssid, 32);
    }
    assert(component(password, 64) == Ok::<Seq<char>, RequestError>(texts.password)) by {
        law_encoded_text_is_read_back(password, texts.password, 64);
    }
    assert(component(token, 32) == Ok::<Seq<char>, RequestError>(texts.token)) by {
        lemma_token_without_zero(texts.token);
        law_encoded_text_is_read_back(token, texts.token, 32);
    }
    lemma_fields_in_any_order(texts, ssid, password, token, fields, a, b, c);
    law_form_is_complete(fields, seq![]);
}

proof fn lemma_field_is_one_piece(ssid: Seq<char>, password: Seq<char>, token: Seq<char>)
    requires
        !ssid.contains('&'),
        !password.contains('&'),
        !token.contains('&'),
    ensures
        !("ssid"@ + seq!['='] + ssid).contains('&'),
        !("password"@ + seq!['='] + password).contains('&'),
        !("token"@ + seq!['='] + token).contains('&'),
{
    assert(!"ssid"@.contains('=') && !"ssid"@.contains('&')) by {
        reveal_strlit("ssid");
    }
    assert(!"password"@.contains('=') && !"password"@.contains('&')) by {
        reveal_strlit("password");
    }
    assert(!"token"@.contains('=') && !"token"@.contains('&')) by {
        reveal_strlit("token");
    }
    lemma_form_field_text("ssid"@, ssid);
    lemma_form_field_text("password"@, password);
    lemma_form_field_text("token"@, token);
}

/// What a header says of any text behind its colon. A length has to be a number
/// between white space and nothing else, so that a blank one is wrong. What is
/// blank or of another kind is no form.
pub proof fn law_header_is_read_by_its_name(facts: HeaderFacts, name: Seq<char>, rest: Seq<char>)
    requires
        !name.contains(':'),
    ensures
        ({
            let read = header_line(facts, name + seq![':'] + rest);
            let number = numbers::unsigned_number(text::trimmed(rest), usize::MAX as nat);
            &&& text::same_ignoring_ascii_case(name, "content-length"@) ==> {
                &&& read is Ok <==> facts.content_length is None && number is Some
                &&& read is Ok ==> read->Ok_0.content_length == number && read->Ok_0.is_form == facts.is_form
                &&& read is Err ==> read->Err_0 == RequestError::InvalidContentLength
                &&& text::is_blank(rest) ==> read is Err
            }
            &&& text::same_ignoring_ascii_case(name, "content-type"@) ==> {
                &&& read is Ok
                &&& read->Ok_0.content_length == facts.content_length
                &&& text::is_blank(rest) ==> !read->Ok_0.is_form
                &&& !rest.contains(';') ==> read->Ok_0.is_form == (text::trimmed(rest)
                    == "application/x-www-form-urlencoded"@)
            }
            &&& text::same_ignoring_ascii_case(name, "transfer-encoding"@) ==> read == Err::<
                HeaderFacts,
                RequestError,
            >(RequestError::UnsupportedTransferEncoding)
        }),
{
    text::law_text_is_cut_at_the_first_separator(name, ':', rest);
    lemma_names_of_headers();
    let value = text::trimmed(rest);
    let empty = Seq::<char>::empty();
    if text::is_blank(rest) {
        text::lemma_trimmed_padded(rest, empty, empty);
        assert(rest + empty + empty =~= rest);
        assert(value =~= empty);
        text::lemma_pieces_last(value, ';');
        reveal_strlit("application/x-www-form-urlencoded");
        assert(text::trimmed(empty) =~= empty);
    }
    if !rest.contains(';') {
        text::lemma_trimmed_keeps(rest, ';');
        text::lemma_pieces_last(value, ';');
        text::law_trimmed_loses_only_white_space(rest);
        if value.len() > 0 {
            lemma_trimmed_value(empty, value, empty);
            assert(empty + value + empty =~= value);
        }
        assert(text::trimmed(value) =~= value);
    }
}

/// The three names that say something are of different lengths.
proof fn lemma_names_of_headers()
    ensures
        "content-length"@.len() == 14,
        "content-type"@.len() == 12,
        "transfer-encoding"@.len() == 17,
{
    reveal_strlit("content-length");
    reveal_strlit("content-type");
    reveal_strlit("transfer-encoding");
}

} // verus!
