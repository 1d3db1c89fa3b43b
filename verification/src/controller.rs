//! What the controller decides while it runs: which network it joins, how it
//! answers the setup page, and how it drives and watches the fan.
use vstd::prelude::*;
use vstd::slice::*;
use vstd::utf8::*;

use crate::bounded::BoundedText;
use crate::config;
use crate::config::DeviceConfig;
use crate::provisioning;
use crate::provisioning::{parse_request, Request, RequestError};

verus! {

/// How often a lost network is tried before the controller restarts.
pub const RECONNECT_ATTEMPTS: u32 = 3;

/// How many bytes a request may have.
pub const REQUEST_CAPACITY: usize = 2048;

pub const TACH_PULSES_PER_REVOLUTION: u64 = 2;

/// How long pulses are counted before the speed is told.
pub const SAMPLE_INTERVAL_MILLIS: u64 = 1_000;

pub const FORM_PAGE: &'static str = "HTTP/1.1 200 OK\r\n\
Content-Type: text/html; charset=utf-8\r\n\
Connection: close\r\n\
\r\n\
<!doctype html><html><head><meta name=viewport content='width=device-width'>\
<link rel=icon href='data:,'><title>Laptop cooler setup</title></head>\
<body><h1>Laptop cooler setup</h1>\
<form method=post action=/save>\
<label>Wi-Fi name <input name=ssid maxlength=32 required></label><br>\
<label>Wi-Fi password <input type=password name=password maxlength=64></label><br>\
<label>Control token <input name=token minlength=16 maxlength=32 pattern='[A-Za-z0-9_-]+' required></label><br>\
<button type=submit>Save and connect</button></form>\
<p>The token must contain 16-32 letters, numbers, underscores, or hyphens.</p>\
</body></html>";

pub const SAVED_PAGE: &'static str = "HTTP/1.1 200 OK\r\n\
Content-Type: text/html; charset=utf-8\r\n\
Connection: close\r\n\
\r\n\
<!doctype html><html><body><h1>Saved</h1><p>The cooler is restarting.</p></body></html>";

pub const BAD_REQUEST: &'static str = "HTTP/1.1 400 Bad Request\r\n\
Content-Type: text/plain; charset=utf-8\r\n\
Connection: close\r\n\
\r\nInvalid setup request. Check the field lengths and token format.";

pub const SAVE_FAILED: &'static str = "HTTP/1.1 500 Internal Server Error\r\n\
Content-Type: text/plain; charset=utf-8\r\n\
Connection: close\r\n\
\r\nThe configuration could not be saved. The existing configuration is unchanged.";

pub const NOT_FOUND: &'static str = "HTTP/1.1 404 Not Found\r\n\
Content-Type: text/plain; charset=utf-8\r\n\
Connection: close\r\n\
\r\nNot found.";

/// Which network the controller runs on.
#[derive(Clone, Copy, Debug, PartialEq, Eq, Structural)]
pub enum NetworkMode {
    /// The network of the stored configuration.
    Station,
    /// A network of its own, by which it is set up. The radio has to be told
    /// where it was set up for the stored configuration.
    Setup { reconfigure: bool },
}

/// Which network the controller runs on, by whether a configuration is stored
/// and its network could be joined.
pub open spec fn mode_for(stored: bool, joined: bool) -> NetworkMode {
    if stored && joined {
        NetworkMode::Station
    } else {
        NetworkMode::Setup { reconfigure: stored }
    }
}

/// Which network the controller runs on, by whether a configuration is stored
/// and its network could be joined.
pub fn network_mode(stored: bool, joined: bool) -> (mode: NetworkMode)
    ensures
        mode == mode_for(stored, joined),
        mode == if stored && joined {
            NetworkMode::Station
        } else {
            NetworkMode::Setup { reconfigure: stored }
        },
{
    if stored && joined {
        NetworkMode::Station
    } else {
        NetworkMode::Setup { reconfigure: stored }
    }
}

/// Whether the stored network is joined without a password.
pub fn is_open_network(config: &DeviceConfig) -> (open_network: bool)
    ensures
        open_network == (config@.password.len() == 0),
{
    proof {
        reveal_strlit("");
        assert(config@.password.len() == 0 ==> config@.password =~= ""@);
    }
    crate::text::same_text(config.password.as_text(), "")
}

/// What follows an attempt to join a lost network.
#[derive(Clone, Copy, Debug, PartialEq, Eq, Structural)]
pub enum Reconnect {
    Joined,
    TryAgain { attempt: u32 },
    Restart,
}

/// What follows the attempt of this number, the first being one.
pub open spec fn attempted(attempt: u32, joined: bool) -> Reconnect {
    if joined {
        Reconnect::Joined
    } else if attempt < RECONNECT_ATTEMPTS {
        Reconnect::TryAgain { attempt: (attempt + 1) as u32 }
    } else {
        Reconnect::Restart
    }
}

/// What follows the attempt of this number, the first being one.
pub fn after_attempt(attempt: u32, joined: bool) -> (next: Reconnect)
    ensures
        next == attempted(attempt, joined),
        next == if joined {
            Reconnect::Joined
        } else if attempt < RECONNECT_ATTEMPTS {
            Reconnect::TryAgain { attempt: (attempt + 1) as u32 }
        } else {
            Reconnect::Restart
        },
{
    if joined {
        Reconnect::Joined
    } else if attempt < RECONNECT_ATTEMPTS {
        Reconnect::TryAgain { attempt: attempt + 1 }
    } else {
        Reconnect::Restart
    }
}

/// The number that the network stack draws its own from, made of two.
pub open spec fn seed_of(high: u32, low: u32) -> int {
    high * 0x1_0000_0000 + low
}

/// The number that the network stack draws its own from, made of two.
pub fn network_seed(high: u32, low: u32) -> (seed: u64)
    ensures
        seed == seed_of(high, low),
        seed == high * 0x1_0000_0000 + low,
{
    assert(((high as u64) << 32) | low as u64 == high as u64 * 0x1_0000_0000 + low) by (bit_vector);
    ((high as u64) << 32) | low as u64
}

/// What came of reading from a connection: so many bytes, none of them where
/// the other side has closed it, or an error.
#[derive(Clone, Copy, Debug, PartialEq, Eq, Structural)]
pub enum ReadOutcome {
    Received(usize),
    Failed,
}

/// How the reading of a request goes on: with this many bytes received, or
/// with what they ask for.
#[derive(Debug, PartialEq, Eq)]
pub enum SessionStep {
    ReadMore(usize),
    Done(Result<Request, RequestError>),
}

/// How the reading of a request goes on, in texts.
pub enum SessionTexts {
    ReadMore(nat),
    Done(Result<provisioning::RequestTexts, RequestError>),
}

impl View for SessionStep {
    type V = SessionTexts;

    open spec fn view(&self) -> SessionTexts {
        match self {
            SessionStep::ReadMore(used) => SessionTexts::ReadMore(*used as nat),
            SessionStep::Done(Ok(request)) => SessionTexts::Done(Ok(request@)),
            SessionStep::Done(Err(error)) => SessionTexts::Done(Err(*error)),
        }
    }
}

/// How the reading goes on once `received` has arrived, where there is room
/// for `capacity` bytes.
pub open spec fn session_after(received: Seq<u8>, capacity: nat) -> SessionTexts {
    match provisioning::request_in(received, capacity) {
        Ok(Some(request)) => SessionTexts::Done(Ok(request)),
        Ok(None) => if received.len() == capacity {
            SessionTexts::Done(Err(RequestError::RequestTooLarge))
        } else {
            SessionTexts::ReadMore(received.len())
        },
        Err(error) => SessionTexts::Done(Err(error)),
    }
}

/// How the reading of a request goes on, by what came of reading behind the first
/// `used` bytes of the buffer.
pub open spec fn step_after(buffer: Seq<u8>, used: usize, outcome: ReadOutcome) -> SessionTexts {
    match outcome {
        ReadOutcome::Received(length) => if length == 0 {
            SessionTexts::Done(Err(RequestError::InvalidRequest))
        } else {
            session_after(buffer.take(used + length), buffer.len())
        },
        ReadOutcome::Failed => SessionTexts::Done(Err(RequestError::InvalidRequest)),
    }
}

/// How the reading of a request goes on. The first `used` bytes of the buffer
/// had been received before; what was received now stands behind them.
pub fn read_step(buffer: &[u8], used: usize, outcome: ReadOutcome) -> (step: SessionStep)
    requires
        used < buffer@.len(),
        outcome matches ReadOutcome::Received(length) ==> used + length <= buffer@.len(),
    ensures
        step@ == step_after(buffer@, used, outcome),
        step@ == match outcome {
            ReadOutcome::Received(length) => if length == 0 {
                SessionTexts::Done(Err(RequestError::InvalidRequest))
            } else {
                session_after(buffer@.take(used + length), buffer@.len())
            },
            ReadOutcome::Failed => SessionTexts::Done(Err(RequestError::InvalidRequest)),
        },
{
    let capacity: usize = buffer.len();
    match outcome {
        ReadOutcome::Received(length) => {
            if length == 0 {
                return SessionStep::Done(Err(RequestError::InvalidRequest));
            }
            let total: usize = used + length;
            let received = slice_subrange(buffer, 0, total);
            assert(received@ =~= buffer@.take(total as int));
            match parse_request(received, capacity) {
                Ok(Some(request)) => SessionStep::Done(Ok(request)),
                Ok(None) => {
                    if total == capacity {
                        SessionStep::Done(Err(RequestError::RequestTooLarge))
                    } else {
                        SessionStep::ReadMore(total)
                    }
                },
                Err(error) => SessionStep::Done(Err(error)),
            }
        },
        ReadOutcome::Failed => SessionStep::Done(Err(RequestError::InvalidRequest)),
    }
}

/// A page of the setup server.
#[derive(Clone, Copy, Debug, PartialEq, Eq, Structural)]
pub enum Page {
    Form,
    Saved,
    BadRequest,
    SaveFailed,
    NotFound,
}

/// The text of a page.
pub open spec fn page_text(page: Page) -> Seq<char> {
    match page {
        Page::Form => FORM_PAGE@,
        Page::Saved => SAVED_PAGE@,
        Page::BadRequest => BAD_REQUEST@,
        Page::SaveFailed => SAVE_FAILED@,
        Page::NotFound => NOT_FOUND@,
    }
}

impl Page {
    /// The text of the page.
    pub fn text(&self) -> (text: &'static str)
        ensures
            text@ == page_text(*self),
    {
        match self {
            Page::Form => FORM_PAGE,
            Page::Saved => SAVED_PAGE,
            Page::BadRequest => BAD_REQUEST,
            Page::SaveFailed => SAVE_FAILED,
            Page::NotFound => NOT_FOUND,
        }
    }
}

/// What the server does about a request: answer it, or store a configuration
/// first.
#[derive(Debug, PartialEq, Eq)]
pub enum Reply {
    Answer(Page),
    Store(DeviceConfig),
}

/// What the server does about a request, in texts.
pub enum ReplyTexts {
    Answer(Page),
    Store(config::DeviceTexts),
}

impl View for Reply {
    type V = ReplyTexts;

    open spec fn view(&self) -> ReplyTexts {
        match self {
            Reply::Answer(page) => ReplyTexts::Answer(*page),
            Reply::Store(config) => ReplyTexts::Store(config@),
        }
    }
}

/// What the server does about what a request asks for.
pub open spec fn reply_to(request: Result<provisioning::RequestTexts, RequestError>) -> ReplyTexts {
    match request {
        Ok(provisioning::RequestTexts::ShowForm) => ReplyTexts::Answer(Page::Form),
        Ok(provisioning::RequestTexts::Save(texts)) => ReplyTexts::Store(texts),
        Ok(provisioning::RequestTexts::NotFound) => ReplyTexts::Answer(Page::NotFound),
        Err(_) => ReplyTexts::Answer(Page::BadRequest),
    }
}

/// What the server does about what a request asks for.
pub fn reply(request: Result<Request, RequestError>) -> (reply: Reply)
    ensures
        reply@ == reply_to(
            match request {
                Ok(request) => Ok(request@),
                Err(error) => Err(error),
            },
        ),
{
    match request {
        Ok(Request::ShowForm) => Reply::Answer(Page::Form),
        Ok(Request::Save(config)) => Reply::Store(config),
        Ok(Request::NotFound) => Reply::Answer(Page::NotFound),
        Err(_) => Reply::Answer(Page::BadRequest),
    }
}

/// The answer once a configuration was to be stored, and whether the
/// controller restarts after it: only where the configuration was stored.
pub open spec fn answer_to_save(saved: bool) -> (Page, bool) {
    if saved {
        (Page::Saved, true)
    } else {
        (Page::SaveFailed, false)
    }
}

/// The answer once a configuration was to be stored, and whether the
/// controller restarts after it: only where the configuration was stored.
pub fn after_save(saved: bool) -> (answer: (Page, bool))
    ensures
        answer == answer_to_save(saved),
        answer == if saved {
            (Page::Saved, true)
        } else {
            (Page::SaveFailed, false)
        },
{
    if saved {
        (Page::Saved, true)
    } else {
        (Page::SaveFailed, false)
    }
}

/// The duty that the fan is to be set to, where it runs at another.
pub open spec fn changed_duty(current_percent: u8, target_percent: u8) -> Option<u8> {
    if target_percent != current_percent {
        Some(target_percent)
    } else {
        None
    }
}

/// The duty that the fan is to be set to, where it runs at another.
pub fn duty_change(current_percent: u8, target_percent: u8) -> (change: Option<u8>)
    ensures
        change == changed_duty(current_percent, target_percent),
        change == if target_percent != current_percent {
            Some(target_percent)
        } else {
            None
        },
{
    if target_percent != current_percent {
        Some(target_percent)
    } else {
        None
    }
}

/// Counts the pulses of the fan, each of which begins where the signal goes
/// low.
#[derive(Clone, Copy, Debug, PartialEq, Eq, Structural)]
pub struct Tachometer {
    pub was_low: bool,
    pub pulse_count: u64,
}

/// How often a signal goes low, given whether it was low before.
pub open spec fn falling_edges(was_low: bool, levels: Seq<bool>) -> nat
    decreases levels.len(),
{
    if levels.len() == 0 {
        0
    } else {
        let edge: nat = if levels[0] && !was_low {
            1
        } else {
            0
        };
        edge + falling_edges(levels[0], levels.drop_first())
    }
}

/// The revolutions in a minute, when so many pulses were counted in so many
/// milliseconds.
pub open spec fn revolutions_per_minute(pulse_count: u64, elapsed_millis: u64) -> int {
    let millis: int = if elapsed_millis > 1 {
        elapsed_millis as int
    } else {
        1
    };
    (pulse_count * 60_000) / (TACH_PULSES_PER_REVOLUTION * millis)
}

/// The tachometer after its pulses may have been told, and what is told: the
/// pulses and the speed, where they were counted for long enough.
pub open spec fn measured_after(tachometer: Tachometer, elapsed_millis: u64) -> (Tachometer, Option<(u64, int)>) {
    if elapsed_millis < SAMPLE_INTERVAL_MILLIS {
        (tachometer, None)
    } else {
        (
            Tachometer { was_low: tachometer.was_low, pulse_count: 0 },
            Some((tachometer.pulse_count, revolutions_per_minute(tachometer.pulse_count, elapsed_millis))),
        )
    }
}

/// The tachometer after one more look at the signal.
pub open spec fn looked(tachometer: Tachometer, is_low: bool) -> Tachometer {
    Tachometer {
        was_low: is_low,
        pulse_count: if is_low && !tachometer.was_low {
            (tachometer.pulse_count + 1) as u64
        } else {
            tachometer.pulse_count
        },
    }
}

impl Tachometer {
    /// A tachometer that has counted nothing.
    pub fn new(is_low: bool) -> (tachometer: Self)
        ensures
            tachometer == (Tachometer { was_low: is_low, pulse_count: 0 }),
    {
        Tachometer { was_low: is_low, pulse_count: 0 }
    }

    /// Looks at the signal.
    pub fn look(&mut self, is_low: bool)
        requires
            old(self).pulse_count < u64::MAX,
        ensures
            *final(self) == looked(*old(self), is_low),
    {
        if is_low && !self.was_low {
            self.pulse_count += 1;
        }
        self.was_low = is_low;
    }

    /// The pulses and the speed in revolutions per minute, where pulses were
    /// counted for long enough; the count then starts over.
    pub fn measure(&mut self, elapsed_millis: u64) -> (measured: Option<(u64, u64)>)
        requires
            old(self).pulse_count * 60_000 <= u64::MAX,
            TACH_PULSES_PER_REVOLUTION * elapsed_millis <= u64::MAX,
        ensures
            (
                *final(self),
                match measured {
                    Some((pulses, speed)) => Some((pulses, speed as int)),
                    None => None,
                },
            ) == measured_after(*old(self), elapsed_millis),
            final(self).was_low == old(self).was_low,
            match measured {
                Some((pulses, speed)) => {
                    &&& elapsed_millis >= SAMPLE_INTERVAL_MILLIS
                    &&& pulses == old(self).pulse_count
                    &&& speed == revolutions_per_minute(old(self).pulse_count, elapsed_millis)
                    &&& final(self).pulse_count == 0
                },
                None => elapsed_millis < SAMPLE_INTERVAL_MILLIS && final(self).pulse_count == old(
                    self,
                ).pulse_count,
            },
    {
        if elapsed_millis < SAMPLE_INTERVAL_MILLIS {
            return None;
        }
        let pulses: u64 = self.pulse_count;
        let speed: u64 = pulses * 60_000 / (TACH_PULSES_PER_REVOLUTION * elapsed_millis);
        self.pulse_count = 0;
        Some((pulses, speed))
    }
}

/// The tachometer after a row of looks at the signal.
pub open spec fn watched(tachometer: Tachometer, levels: Seq<bool>) -> Tachometer
    decreases levels.len(),
{
    if levels.len() == 0 {
        tachometer
    } else {
        watched(looked(tachometer, levels[0]), levels.drop_first())
    }
}

/// The tachometer counts each time the signal goes low, once.
pub proof fn law_pulses_are_falling_edges(tachometer: Tachometer, levels: Seq<bool>)
    requires
        tachometer.pulse_count + levels.len() <= u64::MAX,
    ensures
        watched(tachometer, levels).pulse_count == tachometer.pulse_count + falling_edges(
            tachometer.was_low,
            levels,
        ),
    decreases levels.len(),
{
    if levels.len() > 0 {
        law_pulses_are_falling_edges(looked(tachometer, levels[0]), levels.drop_first());
    }
}

/// What a request asks for that arrives in parts: the answer after the first
/// part that has one.
pub open spec fn session(received: Seq<u8>, parts: Seq<Seq<u8>>, capacity: nat) -> SessionTexts
    decreases parts.len(),
{
    if parts.len() == 0 {
        SessionTexts::ReadMore(received.len())
    } else {
        let more = received + parts[0];
        match session_after(more, capacity) {
            SessionTexts::ReadMore(_) => session(more, parts.drop_first(), capacity),
            done => done,
        }
    }
}

/// All parts in a row.
pub open spec fn joined(received: Seq<u8>, parts: Seq<Seq<u8>>) -> Seq<u8>
    decreases parts.len(),
{
    if parts.len() == 0 {
        received
    } else {
        joined(received + parts[0], parts.drop_first())
    }
}

proof fn lemma_joined(received: Seq<u8>, parts: Seq<Seq<u8>>)
    ensures
        received.len() <= joined(received, parts).len(),
        joined(received, parts).take(received.len() as int) == received,
    decreases parts.len(),
{
    if parts.len() == 0 {
        assert(received.take(received.len() as int) =~= received);
    } else {
        let more = received + parts[0];
        lemma_joined(more, parts.drop_first());
        let whole = joined(more, parts.drop_first());
        assert(whole.take(received.len() as int) =~= whole.take(more.len() as int).take(
            received.len() as int,
        ));
        assert(more.take(received.len() as int) =~= received);
    }
}

/// However a request is cut into parts, it is answered as if it had arrived at
/// once.
pub proof fn law_parts_are_answered_like_the_whole(received: Seq<u8>, parts: Seq<Seq<u8>>, capacity: nat)
    requires
        joined(received, parts).len() <= capacity,
        session_after(received, capacity) is ReadMore,
    ensures
        session(received, parts, capacity) == session_after(joined(received, parts), capacity),
    decreases parts.len(),
{
    if parts.len() > 0 {
        let more = received + parts[0];
        let rest = parts.drop_first();
        let whole = joined(more, rest);
        lemma_joined(more, rest);
        provisioning::law_request_may_arrive_in_parts(whole, more.len() as int, capacity);
        if session_after(more, capacity) is ReadMore {
            law_parts_are_answered_like_the_whole(more, rest, capacity);
        } else if more.len() == capacity {
            assert(whole.take(more.len() as int) =~= whole);
        }
    }
}

/// One more look adds one pulse where the signal is low and was not, and none
/// otherwise. A signal that is not looked at has no pulses.
pub proof fn law_one_more_look(tachometer: Tachometer, levels: Seq<bool>, is_low: bool)
    ensures
        ({
            let was_low = if levels.len() == 0 {
                tachometer.was_low
            } else {
                levels.last()
            };
            let before = falling_edges(tachometer.was_low, levels);
            let after = falling_edges(tachometer.was_low, levels.push(is_low));
            &&& falling_edges(tachometer.was_low, seq![]) == 0
            &&& is_low && !was_low ==> after == before + 1
            &&& !is_low || was_low ==> after == before
            &&& watched(tachometer, levels).was_low == was_low
        }),
    decreases levels.len(),
{
    let more = levels.push(is_low);
    if levels.len() == 0 {
        assert(more.drop_first() =~= seq![]);
        assert(more[0] == is_low);
        assert(falling_edges(is_low, seq![]) == 0);
    } else {
        let rest = levels.drop_first();
        assert(more.drop_first() =~= rest.push(is_low));
        assert(more[0] == levels[0]);
        law_one_more_look(looked(tachometer, levels[0]), rest, is_low);
    }
}

/// The speed is the whole number of revolutions in a minute at two pulses for
/// each: so many revolutions have no more than the pulses that were counted,
/// and one more would have more of them.
pub proof fn law_speed_fits_the_pulses(pulse_count: u64, elapsed_millis: u64)
    requires
        elapsed_millis > 0,
    ensures
        ({
            let speed = revolutions_per_minute(pulse_count, elapsed_millis);
            &&& speed >= 0
            &&& 2 * speed * elapsed_millis <= pulse_count * 60_000
            &&& pulse_count * 60_000 < 2 * (speed + 1) * elapsed_millis
        }),
{
    let speed = revolutions_per_minute(pulse_count, elapsed_millis);
    let count = (pulse_count * 60_000) as int;
    let width = (2 * elapsed_millis) as int;
    assert(speed == count / width);
    assert(count / width >= 0 && width * (count / width) <= count < width * (count / width + 1))
        by (nonlinear_arith)
        requires
            count >= 0,
            width > 0,
    ;
    assert(2 * speed * elapsed_millis == width * speed) by (nonlinear_arith)
        requires
            width == 2 * elapsed_millis,
    ;
    assert(2 * (speed + 1) * elapsed_millis == width * (speed + 1)) by (nonlinear_arith)
        requires
            width == 2 * elapsed_millis,
    ;
}

/// At the setup page the form is answered to `GET /`, and nothing is found at
/// any other place, whatever headers come with it.
pub proof fn law_setup_page_is_shown(
    request_line: Seq<char>,
    headers: Seq<Seq<char>>,
    body: Seq<u8>,
    capacity: nat,
)
    requires
        request_line.len() > 0,
        !request_line.contains('\r'),
        request_line != "POST /save HTTP/1.1"@,
        request_line != "POST /save HTTP/1.0"@,
        provisioning::are_lines(headers),
    ensures
        ({
            let received = encode_utf8(provisioning::head_text(request_line, headers)) + body;
            let step = session_after(received, capacity);
            let is_form = request_line == "GET / HTTP/1.1"@ || request_line == "GET / HTTP/1.0"@;
            &&& step is Done
            &&& is_form ==> reply_to(step->Done_0) == ReplyTexts::Answer(Page::Form)
            &&& !is_form ==> reply_to(step->Done_0) == ReplyTexts::Answer(Page::NotFound)
        }),
{
    provisioning::law_request_is_answered_by_its_head(request_line, headers, body, capacity);
}

/// What was received is answered as soon as it asks for something: a
/// configuration that is handed in is stored, and what is turned down is told to
/// be wrong. Until then the reading goes on with all that was received, up to
/// what there is room for.
pub proof fn law_received_is_answered(received: Seq<u8>, capacity: nat)
    ensures
        match provisioning::request_in(received, capacity) {
            Ok(Some(provisioning::RequestTexts::Save(texts))) => session_after(received, capacity) is Done
                && reply_to(session_after(received, capacity)->Done_0) == ReplyTexts::Store(texts),
            Ok(Some(provisioning::RequestTexts::ShowForm)) => session_after(received, capacity) is Done
                && reply_to(session_after(received, capacity)->Done_0) == ReplyTexts::Answer(Page::Form),
            Ok(Some(provisioning::RequestTexts::NotFound)) => session_after(received, capacity) is Done
                && reply_to(session_after(received, capacity)->Done_0) == ReplyTexts::Answer(Page::NotFound),
            Err(error) => session_after(received, capacity) == SessionTexts::Done(Err(error)) && reply_to(
                Err(error),
            ) == ReplyTexts::Answer(Page::BadRequest),
            Ok(None) => if received.len() == capacity {
                session_after(received, capacity) == SessionTexts::Done(Err(RequestError::RequestTooLarge))
            } else {
                session_after(received, capacity) == SessionTexts::ReadMore(received.len())
            },
        },
{
}

/// The controller runs on the stored network exactly where one is stored and
/// was joined. Otherwise it is set up, and the radio is told anew exactly where
/// it had been set up for a stored network.
pub proof fn law_network_is_joined_or_set_up(stored: bool, joined: bool)
    ensures
        mode_for(stored, joined) is Station <==> stored && joined,
        mode_for(false, joined) == (NetworkMode::Setup { reconfigure: false }),
        mode_for(true, false) == (NetworkMode::Setup { reconfigure: true }),
{
}

/// A lost network is tried three times in all, until it is joined, and the
/// controller restarts after the third.
pub proof fn law_lost_network_is_tried_three_times(attempt: u32)
    ensures
        attempted(attempt, true) == Reconnect::Joined,
        attempt <= 2 ==> attempted(attempt, false) == (Reconnect::TryAgain { attempt: (attempt + 1) as u32 }),
        attempt >= 3 ==> attempted(attempt, false) == Reconnect::Restart,
{
}

/// The two numbers that a seed was made of are read back from it.
pub proof fn law_seed_holds_both_numbers(high: u32, low: u32)
    ensures
        seed_of(high, low) / 0x1_0000_0000 == high,
        seed_of(high, low) % 0x1_0000_0000 == low,
{
}

/// The controller restarts exactly where the configuration was stored, and the
/// answer tells which it was.
pub proof fn law_restart_follows_a_save(saved: bool)
    ensures
        answer_to_save(saved).1 == saved,
        answer_to_save(true).0 == Page::Saved,
        answer_to_save(false).0 == Page::SaveFailed,
{
}

/// The fan is set to its duty exactly where it runs at another, and runs at
/// that duty then.
pub proof fn law_fan_is_set_where_the_duty_changes(current_percent: u8, target_percent: u8)
    ensures
        changed_duty(current_percent, target_percent) is None <==> current_percent == target_percent,
        (match changed_duty(current_percent, target_percent) {
            Some(duty) => duty,
            None => current_percent,
        }) == target_percent,
{
}

/// Pulses are told once a second has passed, all that were counted since, and
/// the count starts over then and only then.
pub proof fn law_pulses_are_told_every_second(tachometer: Tachometer, elapsed_millis: u64)
    ensures
        ({
            let (after, told) = measured_after(tachometer, elapsed_millis);
            &&& after.was_low == tachometer.was_low
            &&& elapsed_millis < 1_000 ==> told is None && after.pulse_count == tachometer.pulse_count
            &&& elapsed_millis >= 1_000 ==> told is Some && after.pulse_count == 0 && told->0 == (
                tachometer.pulse_count,
                revolutions_per_minute(tachometer.pulse_count, elapsed_millis),
            )
        }),
{
}

/// A request is read up to all that was received, where something was. One that
/// ends or fails before it asks for something is told to be wrong.
pub proof fn law_reading_goes_on_with_all_that_came(buffer: Seq<u8>, used: usize, length: usize)
    requires
        used + length <= buffer.len(),
    ensures
        length > 0 ==> step_after(buffer, used, ReadOutcome::Received(length)) == session_after(
            buffer.subrange(0, used + length),
            buffer.len(),
        ),
        ({
            let closed = step_after(buffer, used, ReadOutcome::Received(0));
            let failed = step_after(buffer, used, ReadOutcome::Failed);
            &&& closed is Done && reply_to(closed->Done_0) == ReplyTexts::Answer(Page::BadRequest)
            &&& failed is Done && reply_to(failed->Done_0) == ReplyTexts::Answer(Page::BadRequest)
            &&& closed->Done_0 == Err::<provisioning::RequestTexts, RequestError>(RequestError::InvalidRequest)
            &&& failed->Done_0 == Err::<provisioning::RequestTexts, RequestError>(RequestError::InvalidRequest)
        }),
{
    assert(buffer.take(used + length) =~= buffer.subrange(0, used + length));
}

} // verus!
