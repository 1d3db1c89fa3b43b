use laptop_cooler::checksum;
use laptop_cooler::config::{
    all_token_bytes, decode, encode, record_crc, ConfigError, DeviceConfig, RECORD_LEN,
};
use laptop_cooler::config_storage::{
    generation_is_newer, load, load_latest, save, slot_address, ConfigStorageError, FlashOperation,
    FlashOutcome, SaveAction, SavePlan, SaveProgress, SaveStage, SLOT_COUNT,
};
use laptop_cooler::control::{
    constant_time_eq, format_packet, parse_command, sequence_is_newer, ControlCommand, HostState,
    SampleError, CONTROL_PORT,
};
use laptop_cooler::controller::{
    after_attempt, after_save, duty_change, is_open_network, network_mode, network_seed, read_step,
    reply, NetworkMode, Page, ReadOutcome, Reconnect, Reply, SessionStep, Tachometer,
    REQUEST_CAPACITY,
};
use laptop_cooler::provisioning::{
    decode_component, find_bytes, hex_value, parse_form, parse_request, Request, RequestError,
};

const TOKEN: &str = "abcdefghijklmnop";

#[test]
fn firmware_config_record_round_trips_and_detects_corruption() {
    let config = DeviceConfig::new("home", "password", "abcdefghijklmnop").unwrap();
    let record = encode(&config, 42);
    assert_eq!(decode(&record), Ok((config.clone(), 42)));

    let mut corrupt = record;
    corrupt[30] ^= 1;
    assert_eq!(decode(&corrupt), Err(ConfigError::Corrupt));

    let mut uncommitted = record;
    uncommitted[252..].fill(0xff);
    assert_eq!(decode(&uncommitted), Err(ConfigError::Uncommitted));
}

#[test]
fn firmware_setup_parser_waits_for_and_validates_complete_post() {
    let body = "ssid=Home+WiFi&password=password&token=abcdefghijklmnop";
    let request = format!(
        "POST /save HTTP/1.1\r\nContent-Type: application/x-www-form-urlencoded\r\nContent-Length: {}\r\n\r\n{}",
        body.len(),
        body
    );
    let split = request.len() - 5;
    assert_eq!(parse_request(&request.as_bytes()[..split], 1024), Ok(None));
    match parse_request(request.as_bytes(), 1024).unwrap() {
        Some(Request::Save(config)) => {
            assert_eq!(config.ssid.as_str(), "Home WiFi");
            assert_eq!(config.password.as_str(), "password");
            assert_eq!(config.token.as_str(), "abcdefghijklmnop");
        }
        result => panic!("unexpected parser result: {result:?}"),
    }
}

#[test]
fn firmware_fan_control_guards_host_duty_commands() {
    let token = "abcdefghijklmnop";
    let mut state = HostState::new();
    assert_eq!(CONTROL_PORT, 42_110);
    assert_eq!(state.duty_percent(0), 0);

    state
        .accept(token, b"LC2 abcdefghijklmnop 10 40000 35\n", 1_000)
        .unwrap();
    assert_eq!(state.duty_percent(1_000), 35);
    assert_eq!(state.duty_percent(6_001), 35);
    assert_eq!(state.duty_percent(61_001), 0);

    assert_eq!(
        state.accept(token, b"LC2 wrongwrongwrongw 11 40000 35\n", 7_000),
        Err(SampleError::InvalidToken)
    );
    assert_eq!(state.duty_percent(7_000), 35);

    assert_eq!(
        state.accept(token, b"LC2 abcdefghijklmnop 1 40000 19\n", 7_001),
        Err(SampleError::InvalidDuty)
    );
    state
        .accept(token, b"LC2 abcdefghijklmnop 1 90000 20\n", 7_001)
        .unwrap();
    assert_eq!(state.duty_percent(7_001), 100);
    assert_eq!(
        state.accept(token, b"LC2 abcdefghijklmnop 1 40000 50\n", 7_002),
        Err(SampleError::OutOfOrder)
    );
    assert_eq!(state.duty_percent(7_002), 100);
    assert_eq!(state.duty_percent(67_002), 0);
}

fn command(sequence: u32, temperature_milli_c: i32, requested_duty_percent: u8) -> ControlCommand {
    ControlCommand {
        sequence,
        temperature_milli_c,
        requested_duty_percent,
    }
}

#[test]
fn packets_are_written_and_read() {
    let asked = command(4_294_967_295, 120_000, 100);
    let packet = format_packet(TOKEN, &asked);
    assert_eq!(packet, "LC2 abcdefghijklmnop 4294967295 120000 100\n");
    assert_eq!(parse_command(TOKEN, packet.as_bytes()), Ok(asked));
    assert_eq!(
        format_packet(TOKEN, &command(0, -20_000, 5)),
        "LC2 abcdefghijklmnop 0 -20000 5\n"
    );
    assert_eq!(
        parse_command(TOKEN, b"\tLC2  abcdefghijklmnop\r\n+7 +0 020 "),
        Ok(command(7, 0, 20))
    );
}

#[test]
fn packets_are_turned_down_for_their_first_fault() {
    let cases: [(&[u8], SampleError); 18] = [
        (b"\xff", SampleError::InvalidUtf8),
        (b"", SampleError::UnsupportedVersion),
        (b"LC1 abcdefghijklmnop 1 40000 35", SampleError::UnsupportedVersion),
        (b"LC2", SampleError::InvalidShape),
        (b"LC2 abcdefghijklmnoq", SampleError::InvalidToken),
        (b"LC2 abcdefghijklmnop", SampleError::InvalidShape),
        (b"LC2 abcdefghijklmnop x", SampleError::InvalidSequence),
        (b"LC2 abcdefghijklmnop -1", SampleError::InvalidSequence),
        (b"LC2 abcdefghijklmnop 4294967296", SampleError::InvalidSequence),
        (b"LC2 abcdefghijklmnop 1", SampleError::InvalidShape),
        (b"LC2 abcdefghijklmnop 1 warm", SampleError::InvalidTemperature),
        (b"LC2 abcdefghijklmnop 1 40000", SampleError::InvalidShape),
        (b"LC2 abcdefghijklmnop 1 40000 256", SampleError::InvalidDuty),
        (b"LC2 abcdefghijklmnop 1 200000 50 6", SampleError::InvalidShape),
        (b"LC2 abcdefghijklmnop 1 -1 10", SampleError::InvalidTemperature),
        (b"LC2 abcdefghijklmnop 1 120001 50", SampleError::InvalidTemperature),
        (b"LC2 abcdefghijklmnop 1 40000 101", SampleError::InvalidDuty),
        (b"LC2 abcdefghijklmnop 1 40000 19", SampleError::InvalidDuty),
    ];
    for (packet, error) in cases {
        assert_eq!(parse_command(TOKEN, packet), Err(error), "{packet:?}");
    }
}

#[test]
fn sequence_numbers_count_round() {
    assert!(sequence_is_newer(1, 0));
    assert!(sequence_is_newer(0, u32::MAX));
    assert!(!sequence_is_newer(0, 0));
    assert!(!sequence_is_newer(0, 1));
    assert!(sequence_is_newer(0x7fff_ffff, 0));
    assert!(!sequence_is_newer(0x8000_0000, 0));
    assert!(generation_is_newer(0, u32::MAX));
    assert!(!generation_is_newer(5, 5));
    assert!(!generation_is_newer(u32::MAX, 0));
}

#[test]
fn silence_forgets_the_sequence_number() {
    let mut state = HostState::new();
    let first = format_packet(TOKEN, &command(10, 40_000, 35));
    let older = format_packet(TOKEN, &command(9, 40_000, 40));
    assert_eq!(state.accept(TOKEN, first.as_bytes(), 1_000), Ok(command(10, 40_000, 35)));
    assert_eq!(
        state.accept(TOKEN, older.as_bytes(), 6_000),
        Err(SampleError::OutOfOrder)
    );
    assert_eq!(state.accept(TOKEN, older.as_bytes(), 6_001), Ok(command(9, 40_000, 40)));
    assert_eq!(state.duty_percent(66_001), 40);
    assert_eq!(state.duty_percent(66_002), 0);
}

#[test]
fn tokens_are_told_apart() {
    assert!(constant_time_eq(b"", b""));
    assert!(constant_time_eq(b"abc", b"abc"));
    assert!(!constant_time_eq(b"abc", b"abd"));
    assert!(!constant_time_eq(b"abc", b"ab"));
    assert!(!constant_time_eq(b"ab", b"ab\0"));
    assert!(all_token_bytes(b"AZaz09-_"));
    assert!(!all_token_bytes(b"a b"));
}

#[test]
fn checksum_is_the_usual_one() {
    let mut state = 0xffff_ffff_u32;
    for byte in b"123456789" {
        state = checksum::step(state, *byte);
    }
    assert_eq!(!state, 0xcbf4_3926);
}

#[test]
fn any_changed_byte_is_found_out() {
    let config = DeviceConfig::new("home", "password", TOKEN).unwrap();
    let record = encode(&config, 7);
    for index in 0..RECORD_LEN {
        for change in [0x01_u8, 0x80, 0xff] {
            let mut changed = record;
            changed[index] ^= change;
            assert!(decode(&changed).is_err(), "{index} {change}");
        }
    }
}

#[test]
fn records_have_their_layout() {
    let config = DeviceConfig::new("home", "password", TOKEN).unwrap();
    let record = encode(&config, 42);
    assert_eq!(&record[..6], b"LCWF\x01\x00");
    assert_eq!(&record[6..12], &[4, 8, 16, 0, 0, 0]);
    assert_eq!(&record[12..16], &[42, 0, 0, 0]);
    assert_eq!(&record[16..20], &0xdc9c_0746_u32.to_le_bytes());
    assert_eq!(record_crc(&record), 0xdc9c_0746);
    assert_eq!(&record[20..25], b"home\xff");
    assert_eq!(&record[52..61], b"password\xff");
    assert_eq!(&record[116..133], b"abcdefghijklmnop\xff");
    assert_eq!(&record[252..], b"LCOK");
}

fn sealed(mut record: [u8; RECORD_LEN]) -> [u8; RECORD_LEN] {
    let crc = record_crc(&record);
    record[16..20].copy_from_slice(&crc.to_le_bytes());
    record
}

#[test]
fn records_are_refused_for_their_first_fault() {
    let config = DeviceConfig::new("home", "", TOKEN).unwrap();
    let record = encode(&config, 1);
    assert_eq!(decode(&[0xff; RECORD_LEN]), Err(ConfigError::Missing));
    assert_eq!(decode(&[0; RECORD_LEN]), Err(ConfigError::Uncommitted));
    let change = |index: usize, value: u8| {
        let mut changed = record;
        changed[index] = value;
        changed
    };
    assert_eq!(decode(&change(0, 0)), Err(ConfigError::Corrupt));
    assert_eq!(decode(&change(4, 2)), Err(ConfigError::UnsupportedVersion));
    assert_eq!(decode(&change(5, 1)), Err(ConfigError::UnsupportedVersion));
    assert_eq!(decode(&change(16, !record[16])), Err(ConfigError::Corrupt));
    assert_eq!(decode(&sealed(change(6, 0))), Err(ConfigError::InvalidSsid));
    assert_eq!(decode(&sealed(change(6, 33))), Err(ConfigError::InvalidSsid));
    assert_eq!(decode(&sealed(change(7, 65))), Err(ConfigError::InvalidPassword));
    assert_eq!(decode(&sealed(change(8, 15))), Err(ConfigError::InvalidToken));
    assert_eq!(decode(&sealed(change(8, 33))), Err(ConfigError::InvalidToken));
    assert_eq!(decode(&sealed(change(20, 0xff))), Err(ConfigError::InvalidUtf8));
    assert_eq!(decode(&sealed(change(116, 0x20))), Err(ConfigError::InvalidToken));
    let mut short_password = change(7, 7);
    short_password[52..59].copy_from_slice(b"1234567");
    assert_eq!(decode(&sealed(short_password)), Err(ConfigError::InvalidPassword));
}

#[test]
fn configurations_are_checked() {
    let long = "a".repeat(33);
    assert_eq!(DeviceConfig::new("", "", TOKEN), Err(ConfigError::InvalidSsid));
    assert_eq!(DeviceConfig::new(&long, "", TOKEN), Err(ConfigError::InvalidSsid));
    assert_eq!(DeviceConfig::new("home", "short", TOKEN), Err(ConfigError::InvalidPassword));
    assert_eq!(
        DeviceConfig::new("home", &"g".repeat(64), TOKEN),
        Err(ConfigError::InvalidPassword)
    );
    assert_eq!(
        DeviceConfig::new("home", &"f".repeat(65), TOKEN),
        Err(ConfigError::InvalidPassword)
    );
    assert_eq!(DeviceConfig::new("home", "", "short"), Err(ConfigError::InvalidToken));
    assert_eq!(DeviceConfig::new("home", "", &long), Err(ConfigError::InvalidToken));
    assert_eq!(
        DeviceConfig::new("home", "", "abcdefghijklmno "),
        Err(ConfigError::InvalidToken)
    );
    let config = DeviceConfig::new(&"\u{e9}".repeat(16), &"F".repeat(64), &long[1..]).unwrap();
    assert_eq!(config.ssid.as_str(), "\u{e9}".repeat(16));
    assert_eq!(config.password.as_str(), "F".repeat(64));
    assert_eq!(config.token.as_str(), "a".repeat(32));
    assert!(config.same(&config.clone()));
    assert!(!config.same(&DeviceConfig::new("home", "", TOKEN).unwrap()));
    assert_eq!(decode(&encode(&config, u32::MAX)), Ok((config, u32::MAX)));
}

#[test]
fn components_are_decoded() {
    let text = |encoded: &str| decode_component::<heapless::String<32>>(encoded).map(|value| value.as_str().to_string());
    assert_eq!(text("Home+WiFi"), Ok("Home WiFi".to_string()));
    assert_eq!(text("a%26b%3Dc%2b"), Ok("a&b=c+".to_string()));
    assert_eq!(text("%C3%A9\u{e9}"), Ok("\u{e9}\u{e9}".to_string()));
    assert_eq!(text(""), Ok(String::new()));
    assert_eq!(text("%"), Err(RequestError::InvalidEncoding));
    assert_eq!(text("%4"), Err(RequestError::InvalidEncoding));
    assert_eq!(text("%g0"), Err(RequestError::InvalidEncoding));
    assert_eq!(text("%00"), Err(RequestError::InvalidEncoding));
    assert_eq!(text("\0"), Err(RequestError::InvalidEncoding));
    assert_eq!(text("%C3"), Err(RequestError::InvalidUtf8));
    assert_eq!(text(&"a".repeat(32)), Ok("a".repeat(32)));
    assert_eq!(text(&"a".repeat(33)), Err(RequestError::InvalidForm));
    assert_eq!(
        decode_component::<heapless::String<64>>(&"%20".repeat(64)).map(|value| value.as_str().len()),
        Ok(64)
    );
    assert_eq!(
        decode_component::<heapless::String<64>>(&"+".repeat(65)),
        Err(RequestError::InvalidForm)
    );
}

#[test]
fn hexadecimal_digits_have_values() {
    assert_eq!(hex_value(b'0'), Some(0));
    assert_eq!(hex_value(b'9'), Some(9));
    assert_eq!(hex_value(b'a'), Some(10));
    assert_eq!(hex_value(b'F'), Some(15));
    assert_eq!(hex_value(b'g'), None);
    assert_eq!(hex_value(b'/'), None);
    assert_eq!(hex_value(0xff), None);
}

#[test]
fn bytes_are_found() {
    assert_eq!(find_bytes(b"a\r\n\r\n\r\n", b"\r\n\r\n"), Some(1));
    assert_eq!(find_bytes(b"\r\n\r", b"\r\n\r\n"), None);
    assert_eq!(find_bytes(b"", b"x"), None);
    assert_eq!(find_bytes(b"aab", b"ab"), Some(1));
}

#[test]
fn forms_are_read() {
    let config = parse_form(b"token=abcdefghijklmnop&ssid=%48ome&password=").unwrap();
    assert_eq!(config, DeviceConfig::new("Home", "", TOKEN).unwrap());
    let cases: [(&[u8], RequestError); 8] = [
        (b"\xff", RequestError::InvalidUtf8),
        (b"", RequestError::InvalidForm),
        (b"ssid", RequestError::InvalidForm),
        (b"ssid=a&password=", RequestError::InvalidForm),
        (b"ssid=a&ssid=b&password=&token=abcdefghijklmnop", RequestError::InvalidForm),
        (b"ssid=a&password=&token=abcdefghijklmnop&x=1", RequestError::InvalidForm),
        (b"ssid=%&password=&token=abcdefghijklmnop", RequestError::InvalidEncoding),
        (b"ssid=&password=&token=abcdefghijklmnop", RequestError::InvalidConfig),
    ];
    for (body, error) in cases {
        assert_eq!(parse_form(body), Err(error), "{body:?}");
    }
}

/// A text with every byte escaped.
fn escape(text: &str) -> String {
    text.bytes().map(|byte| format!("%{byte:02X}")).collect()
}

#[test]
fn escaped_forms_hand_in_any_configuration() {
    let config = DeviceConfig::new("caf\u{e9} & bar = 100%", "p+ss word", TOKEN).unwrap();
    let form = format!(
        "ssid={}&password={}&token={}",
        escape("caf\u{e9} & bar = 100%"),
        escape("p+ss word"),
        escape(TOKEN)
    );
    assert_eq!(parse_form(form.as_bytes()), Ok(config.clone()));
    let ordinary = format!(
        "ssid=caf%C3%a9+%26%20bar+%3d+100%25&password=p%2bss+word&token={TOKEN}"
    );
    assert_eq!(parse_form(ordinary.as_bytes()), Ok(config));
}

fn post(headers: &str, body: &str) -> Vec<u8> {
    format!("POST /save HTTP/1.1\r\n{headers}\r\n{body}").into_bytes()
}

const FORM_TYPE: &str = "content-TYPE: application/x-www-form-urlencoded ; charset=utf-8\r\n";

#[test]
fn requests_are_told_apart() {
    assert_eq!(parse_request(b"GET / HTTP/1.1\r\n\r\n", 64), Ok(Some(Request::ShowForm)));
    assert_eq!(parse_request(b"GET / HTTP/1.0\r\nx\r\n\r\n", 64), Ok(Some(Request::ShowForm)));
    assert_eq!(parse_request(b"GET /x HTTP/1.1\r\n\r\n", 64), Ok(Some(Request::NotFound)));
    assert_eq!(parse_request(b"POST / HTTP/1.1\r\n\r\n", 64), Ok(Some(Request::NotFound)));
    assert_eq!(parse_request(b"\r\n\r\n", 64), Ok(Some(Request::NotFound)));
    assert_eq!(parse_request(b"GET / HTTP/1.1\r\n", 64), Ok(None));
    assert_eq!(parse_request(b"GET / HTTP/1.1\r\n", 16), Err(RequestError::RequestTooLarge));
    assert_eq!(parse_request(b"\xff\r\n\r\n", 64), Err(RequestError::InvalidUtf8));
}

#[test]
fn save_requests_are_refused_for_their_first_fault() {
    let refused = |headers: &str, body: &str| parse_request(&post(headers, body), 256).unwrap_err();
    assert_eq!(refused("nonsense\r\n", ""), RequestError::InvalidRequest);
    assert_eq!(refused(FORM_TYPE, ""), RequestError::MissingContentLength);
    assert_eq!(refused("Content-Length: x\r\n", ""), RequestError::InvalidContentLength);
    assert_eq!(refused("Content-Length: -1\r\n", ""), RequestError::InvalidContentLength);
    assert_eq!(
        refused("Content-Length: 0\r\ncontent-length: 0\r\n", ""),
        RequestError::InvalidContentLength
    );
    assert_eq!(
        refused("Transfer-Encoding: chunked\r\n", ""),
        RequestError::UnsupportedTransferEncoding
    );
    assert_eq!(
        refused("Content-Length: 18446744073709551615\r\n", ""),
        RequestError::RequestTooLarge
    );
    assert_eq!(refused("Content-Length: 257\r\n", ""), RequestError::RequestTooLarge);
    assert_eq!(refused("Content-Length: 0\r\n", ""), RequestError::UnsupportedContentType);
    assert_eq!(
        refused("Content-Type: text/plain\r\nContent-Length: 0\r\n", ""),
        RequestError::UnsupportedContentType
    );
    assert_eq!(
        refused(&format!("{FORM_TYPE}Content-Length: 0\r\n"), ""),
        RequestError::InvalidForm
    );
    assert_eq!(
        refused(&format!("{FORM_TYPE}Content-Length: 2\r\n"), "%\u{e9}"),
        RequestError::InvalidUtf8
    );
}

#[test]
fn a_request_may_arrive_in_parts() {
    let body = format!("ssid=a&password=&token={TOKEN}");
    let request = post(&format!("{FORM_TYPE}Content-Length: {}\r\n", body.len()), &body);
    let whole = parse_request(&request, 256);
    assert_eq!(
        whole,
        Ok(Some(Request::Save(DeviceConfig::new("a", "", TOKEN).unwrap())))
    );
    for received in 0..request.len() {
        assert_eq!(parse_request(&request[..received], 256), Ok(None));
    }
    let mut longer = request.clone();
    longer.extend_from_slice(b"more");
    assert_eq!(parse_request(&longer, 256), whole);
}

#[test]
fn setup_sessions_read_until_there_is_an_answer() {
    let mut buffer = [0_u8; REQUEST_CAPACITY];
    buffer[..18].copy_from_slice(b"GET / HTTP/1.1\r\n\r\n");
    assert_eq!(
        read_step(&buffer, 0, ReadOutcome::Received(10)),
        SessionStep::ReadMore(10)
    );
    assert_eq!(
        read_step(&buffer, 10, ReadOutcome::Received(8)),
        SessionStep::Done(Ok(Request::ShowForm))
    );
    assert_eq!(
        read_step(&buffer, 10, ReadOutcome::Received(0)),
        SessionStep::Done(Err(RequestError::InvalidRequest))
    );
    assert_eq!(
        read_step(&buffer, 10, ReadOutcome::Failed),
        SessionStep::Done(Err(RequestError::InvalidRequest))
    );
    let endless = [b'x'; REQUEST_CAPACITY];
    assert_eq!(
        read_step(&endless, 2000, ReadOutcome::Received(48)),
        SessionStep::Done(Err(RequestError::RequestTooLarge))
    );
    assert_eq!(
        read_step(&endless, 2000, ReadOutcome::Received(47)),
        SessionStep::ReadMore(2047)
    );
}

#[test]
fn setup_pages_answer_the_requests() {
    let config = DeviceConfig::new("home", "", TOKEN).unwrap();
    assert_eq!(reply(Ok(Request::ShowForm)), Reply::Answer(Page::Form));
    assert_eq!(reply(Ok(Request::Save(config.clone()))), Reply::Store(config));
    assert_eq!(reply(Ok(Request::NotFound)), Reply::Answer(Page::NotFound));
    assert_eq!(
        reply(Err(RequestError::InvalidForm)),
        Reply::Answer(Page::BadRequest)
    );
    assert_eq!(after_save(true), (Page::Saved, true));
    assert_eq!(after_save(false), (Page::SaveFailed, false));
    assert!(Page::Form.text().starts_with("HTTP/1.1 200 OK\r\nContent-Type: text/html; charset=utf-8\r\nConnection: close\r\n\r\n<!doctype html><html><head>"));
    assert!(Page::Form.text().ends_with("hyphens.</p></body></html>"));
    assert_eq!(
        Page::Saved.text(),
        "HTTP/1.1 200 OK\r\nContent-Type: text/html; charset=utf-8\r\nConnection: close\r\n\r\n<!doctype html><html><body><h1>Saved</h1><p>The cooler is restarting.</p></body></html>"
    );
    assert_eq!(
        Page::BadRequest.text(),
        "HTTP/1.1 400 Bad Request\r\nContent-Type: text/plain; charset=utf-8\r\nConnection: close\r\n\r\nInvalid setup request. Check the field lengths and token format."
    );
    assert_eq!(
        Page::SaveFailed.text(),
        "HTTP/1.1 500 Internal Server Error\r\nContent-Type: text/plain; charset=utf-8\r\nConnection: close\r\n\r\nThe configuration could not be saved. The existing configuration is unchanged."
    );
    assert_eq!(
        Page::NotFound.text(),
        "HTTP/1.1 404 Not Found\r\nContent-Type: text/plain; charset=utf-8\r\nConnection: close\r\n\r\nNot found."
    );
}

#[test]
fn networks_are_chosen_and_tried() {
    assert_eq!(network_mode(true, true), NetworkMode::Station);
    assert_eq!(network_mode(true, false), NetworkMode::Setup { reconfigure: true });
    assert_eq!(network_mode(false, false), NetworkMode::Setup { reconfigure: false });
    assert!(is_open_network(&DeviceConfig::new("home", "", TOKEN).unwrap()));
    assert!(!is_open_network(&DeviceConfig::new("home", "password", TOKEN).unwrap()));
    assert_eq!(after_attempt(1, true), Reconnect::Joined);
    assert_eq!(after_attempt(1, false), Reconnect::TryAgain { attempt: 2 });
    assert_eq!(after_attempt(2, false), Reconnect::TryAgain { attempt: 3 });
    assert_eq!(after_attempt(3, false), Reconnect::Restart);
    assert_eq!(network_seed(1, 2), 0x1_0000_0002);
}

#[test]
fn fan_is_driven_and_watched() {
    assert_eq!(duty_change(35, 35), None);
    assert_eq!(duty_change(35, 0), Some(0));

    let mut tachometer = Tachometer::new(true);
    for is_low in [true, false, true, true, false, false, true] {
        tachometer.look(is_low);
    }
    assert_eq!(tachometer.pulse_count, 2);
    assert_eq!(tachometer.measure(999), None);
    assert_eq!(tachometer.measure(1_000), Some((2, 60)));
    assert_eq!(tachometer.pulse_count, 0);
    tachometer.pulse_count = 50;
    assert_eq!(tachometer.measure(1_001), Some((50, 1_498)));
}

fn apply(flash: &mut [[u8; RECORD_LEN]; SLOT_COUNT], operation: &FlashOperation) {
    match operation {
        FlashOperation::Erase { from, to } => {
            assert_eq!(to - from, 0x1000);
            flash[((from - 0x9000) / 0x1000) as usize] = [0xff; RECORD_LEN];
        }
        FlashOperation::Write { address, bytes } => {
            let slot = ((address - 0x9000) / 0x1000) as usize;
            let start = ((address - 0x9000) % 0x1000) as usize;
            for (index, byte) in bytes.iter().enumerate() {
                flash[slot][start + index] &= *byte;
            }
        }
    }
}

/// What a save does to the flash where nothing fails.
fn operations(plan: &SavePlan) -> Vec<FlashOperation> {
    let stages: [SaveStage<u8>; 3] =
        [SaveStage::Erase, SaveStage::WriteBody, SaveStage::WriteMarker];
    stages
        .iter()
        .map(|stage| match plan.action(stage) {
            SaveAction::Perform(operation) => operation,
            other => panic!("unexpected action: {other:?}"),
        })
        .collect()
}

fn store(flash: &mut [[u8; RECORD_LEN]; SLOT_COUNT], config: &DeviceConfig) {
    let plan = save(flash, config);
    for operation in operations(&plan) {
        apply(flash, &operation);
    }
    let result: Result<(), ConfigStorageError<()>> = plan.verify(config, &flash[plan.slot]);
    assert_eq!(result, Ok(()));
}

#[test]
fn saved_configuration_is_loaded() {
    let mut flash = [[0xff_u8; RECORD_LEN]; SLOT_COUNT];
    assert_eq!(load(&flash), None);
    for round in 0..14_u32 {
        let config = DeviceConfig::new(&format!("home {round}"), "password", TOKEN).unwrap();
        store(&mut flash, &config);
        let stored = load_latest(&flash).unwrap();
        assert_eq!(stored.slot, round as usize % SLOT_COUNT);
        assert_eq!(stored.generation, round + 1);
        assert_eq!(load(&flash), Some(config));
    }
}

#[test]
fn generations_count_round() {
    let mut flash = [[0xff_u8; RECORD_LEN]; SLOT_COUNT];
    let config = DeviceConfig::new("old", "", TOKEN).unwrap();
    flash[2] = encode(&config, u32::MAX);
    let next = DeviceConfig::new("new", "", TOKEN).unwrap();
    let plan = save(&flash, &next);
    assert_eq!(plan.slot, 3);
    assert_eq!(plan.generation, 0);
    store(&mut flash, &next);
    assert_eq!(load(&flash), Some(next));
}

#[test]
fn interrupted_save_keeps_the_old_configuration() {
    let mut flash = [[0xff_u8; RECORD_LEN]; SLOT_COUNT];
    let old = DeviceConfig::new("old", "", TOKEN).unwrap();
    store(&mut flash, &old);
    let new = DeviceConfig::new("new", "password", TOKEN).unwrap();
    let plan = save(&flash, &new);
    let operations = operations(&plan);
    assert_eq!(operations.len(), 3);
    for done in 0..3 {
        let mut interrupted = flash;
        for operation in &operations[..done] {
            apply(&mut interrupted, operation);
        }
        assert_eq!(load(&interrupted), Some(old.clone()));
        let result: Result<(), ConfigStorageError<()>> =
            plan.verify(&new, &interrupted[plan.slot]);
        assert_eq!(result, Err(ConfigStorageError::VerificationFailed));
    }
}

#[test]
fn undone_save_keeps_the_old_configuration() {
    let mut flash = [[0xff_u8; RECORD_LEN]; SLOT_COUNT];
    let new = DeviceConfig::new("new", "password", TOKEN).unwrap();
    let mut old = None;
    for round in 0..8_u32 {
        let plan = save(&flash, &new);
        let operations = operations(&plan);
        for done in 0..=operations.len() {
            let mut undone = flash;
            for operation in &operations[..done] {
                apply(&mut undone, operation);
            }
            assert_eq!(load(&undone) == Some(new.clone()), done == operations.len());
            apply(&mut undone, &plan.undo());
            assert_eq!(load(&undone), old);
        }
        let next = DeviceConfig::new(&format!("old {round}"), "", TOKEN).unwrap();
        store(&mut flash, &next);
        old = Some(next);
    }
    let plan = save(&flash, &new);
    let address = slot_address(plan.slot);
    assert_eq!(
        plan.undo(),
        FlashOperation::Erase { from: address, to: address + 0x1000 }
    );
}

/// Saves on a flash whose action of this number, the first being zero, fails.
/// A read that is spoiled gives a wrong record instead of an error.
fn save_with_fault(
    flash: &mut [[u8; RECORD_LEN]; SLOT_COUNT],
    config: &DeviceConfig,
    fault: usize,
    spoiled: bool,
) -> Result<(), ConfigStorageError<u8>> {
    let plan = save(flash, config);
    let mut stage: SaveStage<u8> = SaveStage::Erase;
    let mut count = 0_usize;
    loop {
        let outcome = match plan.action(&stage) {
            SaveAction::Perform(operation) => {
                apply(flash, &operation);
                FlashOutcome::Performed
            }
            SaveAction::Read { address } => {
                assert_eq!(address, slot_address(plan.slot));
                let mut record = flash[plan.slot];
                if count == fault && spoiled {
                    record[40] ^= 1;
                }
                FlashOutcome::Read(record)
            }
        };
        let outcome = if count == fault && !spoiled {
            FlashOutcome::Failed(7)
        } else {
            outcome
        };
        count += 1;
        match plan.advance(config, stage, outcome) {
            SaveProgress::Continue(next) => stage = next,
            SaveProgress::Done(result) => return result,
        }
    }
}

#[test]
fn failed_save_keeps_the_old_configuration() {
    let mut flash = [[0xff_u8; RECORD_LEN]; SLOT_COUNT];
    let new = DeviceConfig::new("new", "password", TOKEN).unwrap();
    let mut old = None;
    for round in 0..8_u32 {
        for fault in 0..4 {
            let mut failed = flash;
            assert_eq!(
                save_with_fault(&mut failed, &new, fault, false),
                Err(ConfigStorageError::Flash(7))
            );
            assert_eq!(load(&failed), old);
        }
        let mut failed = flash;
        assert_eq!(
            save_with_fault(&mut failed, &new, 3, true),
            Err(ConfigStorageError::VerificationFailed)
        );
        assert_eq!(load(&failed), old);
        let next = DeviceConfig::new(&format!("old {round}"), "", TOKEN).unwrap();
        assert_eq!(save_with_fault(&mut flash, &next, usize::MAX, false), Ok(()));
        assert_eq!(load(&flash), Some(next.clone()));
        old = Some(next);
    }
}

#[test]
fn only_a_save_that_may_be_committed_is_undone() {
    let flash = [[0xff_u8; RECORD_LEN]; SLOT_COUNT];
    let config = DeviceConfig::new("home", "", TOKEN).unwrap();
    let plan = save(&flash, &config);
    let after_failure = |stage: SaveStage<u8>| plan.advance(&config, stage, FlashOutcome::Failed(7));
    let ended = SaveProgress::Done(Err(ConfigStorageError::Flash(7)));
    let undone = SaveProgress::Continue(SaveStage::Undo(ConfigStorageError::Flash(7)));
    assert_eq!(after_failure(SaveStage::Erase), ended);
    assert_eq!(after_failure(SaveStage::WriteBody), ended);
    assert_eq!(after_failure(SaveStage::WriteMarker), undone);
    assert_eq!(after_failure(SaveStage::ReadBack), undone);
    assert_eq!(
        after_failure(SaveStage::Undo(ConfigStorageError::VerificationFailed)),
        SaveProgress::Done(Err(ConfigStorageError::VerificationFailed))
    );
}

#[test]
fn reading_back_nothing_counts_as_a_failure() {
    let flash = [[0xff_u8; RECORD_LEN]; SLOT_COUNT];
    let config = DeviceConfig::new("home", "", TOKEN).unwrap();
    let plan = save(&flash, &config);
    let stage: SaveStage<u8> = SaveStage::ReadBack;
    assert_eq!(
        plan.advance(&config, stage, FlashOutcome::Performed),
        SaveProgress::Continue(SaveStage::Undo(ConfigStorageError::VerificationFailed))
    );
}

#[test]
fn spoiled_slot_falls_back_to_the_one_before() {
    let mut flash = [[0xff_u8; RECORD_LEN]; SLOT_COUNT];
    let old = DeviceConfig::new("old", "", TOKEN).unwrap();
    let new = DeviceConfig::new("new", "", TOKEN).unwrap();
    store(&mut flash, &old);
    store(&mut flash, &new);
    flash[1][30] ^= 1;
    assert_eq!(load(&flash), Some(old));
}

#[test]
fn slots_have_addresses() {
    assert_eq!(slot_address(0), 0x9000);
    assert_eq!(slot_address(5), 0xe000);
    let flash = [[0xff_u8; RECORD_LEN]; SLOT_COUNT];
    let config = DeviceConfig::new("home", "", TOKEN).unwrap();
    let plan = save(&flash, &config);
    let operations = operations(&plan);
    assert_eq!(operations[0], FlashOperation::Erase { from: 0x9000, to: 0xa000 });
    assert_eq!(
        operations[1],
        FlashOperation::Write { address: 0x9000, bytes: plan.record[..252].to_vec() }
    );
    assert_eq!(
        operations[2],
        FlashOperation::Write { address: 0x90fc, bytes: b"LCOK".to_vec() }
    );
}
