//! The fan policy of the host agent: which duty a temperature asks for.
//!
//! The policy decides over whole numbers. The smoothing of temperatures, the
//! interpolation on the curve and the slew budget are fractions; whoever
//! drives the policy works them out when an action asks for it, and reports
//! them as the whole numbers next to them.
use vstd::prelude::*;

use crate::numbers;
use crate::numbers::parse_u8;
use crate::text;
use crate::text::{split, split_once, trim};

verus! {

pub const MIN_DUTY_PERCENT: u8 = 20;

pub const MAX_DUTY_PERCENT: u8 = 100;

pub const MAX_CONFIGURABLE_EMERGENCY_C: u32 = 90;

/// The duty that a temperature asks for.
#[derive(Clone, Copy, Debug, PartialEq, Eq, Structural)]
pub struct CurvePoint {
    pub temperature_milli_c: i32,
    pub duty_percent: u8,
}

/// What a user can set.
#[derive(Debug, PartialEq)]
pub struct FanPolicyConfig {
    pub curve: Vec<CurvePoint>,
    pub smoothing_seconds: u32,
    pub duty_step_percent: u8,
    pub duty_hysteresis_percent: u8,
    pub ramp_up_percent_per_second: u8,
    pub ramp_down_percent_per_second: u8,
    pub emergency_temperature_milli_c: i32,
}

/// Why a policy cannot be followed.
#[derive(Clone, Copy, Debug, PartialEq, Eq, Structural)]
pub enum PolicyConfigError {
    InvalidCurve,
    InvalidSmoothing,
    InvalidDutyStep,
    InvalidHysteresis,
    InvalidRamp,
    InvalidEmergencyTemperature,
}

/// What a user can set, with the curve as a sequence.
pub struct PolicySettings {
    pub curve: Seq<CurvePoint>,
    pub smoothing_seconds: u32,
    pub duty_step_percent: u8,
    pub duty_hysteresis_percent: u8,
    pub ramp_up_percent_per_second: u8,
    pub ramp_down_percent_per_second: u8,
    pub emergency_temperature_milli_c: i32,
}

impl View for FanPolicyConfig {
    type V = PolicySettings;

    open spec fn view(&self) -> PolicySettings {
        PolicySettings {
            curve: self.curve@,
            smoothing_seconds: self.smoothing_seconds,
            duty_step_percent: self.duty_step_percent,
            duty_hysteresis_percent: self.duty_hysteresis_percent,
            ramp_up_percent_per_second: self.ramp_up_percent_per_second,
            ramp_down_percent_per_second: self.ramp_down_percent_per_second,
            emergency_temperature_milli_c: self.emergency_temperature_milli_c,
        }
    }
}

/// Whether a curve rises, stays in range, and asks for full duty no later than
/// at the emergency temperature.
pub open spec fn valid_curve(curve: Seq<CurvePoint>, emergency_temperature_milli_c: i32) -> bool {
    &&& curve.len() >= 2
    &&& forall|i: int, j: int|
        0 <= i < j < curve.len() ==> (#[trigger] curve[i]).temperature_milli_c < (
        #[trigger] curve[j]).temperature_milli_c && curve[i].duty_percent <= curve[j].duty_percent
    &&& forall|i: int|
        0 <= i < curve.len() ==> 0 <= (#[trigger] curve[i]).temperature_milli_c <= 120_000
            && MIN_DUTY_PERCENT <= curve[i].duty_percent <= MAX_DUTY_PERCENT
    &&& curve.last().duty_percent == MAX_DUTY_PERCENT
    &&& curve.last().temperature_milli_c <= emergency_temperature_milli_c
}

impl PolicySettings {
    /// What is wrong with the settings, the curve first.
    pub open spec fn checked(self) -> Result<(), PolicyConfigError> {
        if !valid_curve(self.curve, self.emergency_temperature_milli_c) {
            Err(PolicyConfigError::InvalidCurve)
        } else if self.smoothing_seconds > 60 {
            Err(PolicyConfigError::InvalidSmoothing)
        } else if !(1 <= self.duty_step_percent <= 20) {
            Err(PolicyConfigError::InvalidDutyStep)
        } else if self.duty_hysteresis_percent > 20 {
            Err(PolicyConfigError::InvalidHysteresis)
        } else if !(1 <= self.ramp_up_percent_per_second <= 100) || !(1 <= self.ramp_down_percent_per_second
            <= 100) {
            Err(PolicyConfigError::InvalidRamp)
        } else if !(50_000 <= self.emergency_temperature_milli_c <= MAX_CONFIGURABLE_EMERGENCY_C * 1_000) {
            Err(PolicyConfigError::InvalidEmergencyTemperature)
        } else {
            Ok(())
        }
    }

    /// Whether the settings can be followed.
    pub open spec fn valid(self) -> bool {
        self.checked() is Ok
    }
}

/// The settings that hold where nothing else is said.
pub open spec fn default_settings() -> PolicySettings {
    PolicySettings {
        curve: seq![
            CurvePoint { temperature_milli_c: 45_000, duty_percent: 25 },
            CurvePoint { temperature_milli_c: 55_000, duty_percent: 40 },
            CurvePoint { temperature_milli_c: 65_000, duty_percent: 60 },
            CurvePoint { temperature_milli_c: 75_000, duty_percent: 80 },
            CurvePoint { temperature_milli_c: 80_000, duty_percent: 100 },
        ],
        smoothing_seconds: 5,
        duty_step_percent: 5,
        duty_hysteresis_percent: 5,
        ramp_up_percent_per_second: 10,
        ramp_down_percent_per_second: 2,
        emergency_temperature_milli_c: 80_000,
    }
}

impl Default for FanPolicyConfig {
    fn default() -> (config: Self)
        ensures
            config@ == default_settings(),
    {
        let mut curve: Vec<CurvePoint> = Vec::new();
        curve.push(CurvePoint { temperature_milli_c: 45_000, duty_percent: 25 });
        curve.push(CurvePoint { temperature_milli_c: 55_000, duty_percent: 40 });
        curve.push(CurvePoint { temperature_milli_c: 65_000, duty_percent: 60 });
        curve.push(CurvePoint { temperature_milli_c: 75_000, duty_percent: 80 });
        curve.push(CurvePoint { temperature_milli_c: 80_000, duty_percent: 100 });
        assert(curve@ =~= default_settings().curve);
        FanPolicyConfig {
            curve,
            smoothing_seconds: 5,
            duty_step_percent: 5,
            duty_hysteresis_percent: 5,
            ramp_up_percent_per_second: 10,
            ramp_down_percent_per_second: 2,
            emergency_temperature_milli_c: 80_000,
        }
    }
}

impl Clone for FanPolicyConfig {
    fn clone(&self) -> (copy: Self)
        ensures
            copy@ == self@,
    {
        let mut curve: Vec<CurvePoint> = Vec::new();
        let mut i: usize = 0;
        while i < self.curve.len()
            invariant
                i <= self.curve.len(),
                curve@ =~= self.curve@.take(i as int),
            decreases self.curve.len() - i,
        {
            curve.push(self.curve[i]);
            i += 1;
        }
        assert(curve@ =~= self.curve@);
        FanPolicyConfig {
            curve,
            smoothing_seconds: self.smoothing_seconds,
            duty_step_percent: self.duty_step_percent,
            duty_hysteresis_percent: self.duty_hysteresis_percent,
            ramp_up_percent_per_second: self.ramp_up_percent_per_second,
            ramp_down_percent_per_second: self.ramp_down_percent_per_second,
            emergency_temperature_milli_c: self.emergency_temperature_milli_c,
        }
    }
}

/// Whether a curve rises, stays in range, and asks for full duty no later than
/// at the emergency temperature.
fn curve_is_valid(curve: &Vec<CurvePoint>, emergency_temperature_milli_c: i32) -> (result: bool)
    ensures
        result == valid_curve(curve@, emergency_temperature_milli_c),
{
    if curve.len() < 2 {
        return false;
    }
    let mut i: usize = 0;
    while i < curve.len()
        invariant
            i <= curve.len(),
            forall|j: int, k: int|
                0 <= j < k < i ==> (#[trigger] curve@[j]).temperature_milli_c < (
                #[trigger] curve@[k]).temperature_milli_c && curve@[j].duty_percent <= curve@[k].duty_percent,
            forall|j: int|
                0 <= j < i ==> 0 <= (#[trigger] curve@[j]).temperature_milli_c <= 120_000 && MIN_DUTY_PERCENT
                    <= curve@[j].duty_percent <= MAX_DUTY_PERCENT,
        decreases curve.len() - i,
    {
        let point = curve[i];
        if point.temperature_milli_c < 0 || point.temperature_milli_c > 120_000 || point.duty_percent
            < MIN_DUTY_PERCENT || point.duty_percent > MAX_DUTY_PERCENT {
            return false;
        }
        if i > 0 {
            let before = curve[i - 1];
            if before.temperature_milli_c >= point.temperature_milli_c || before.duty_percent
                > point.duty_percent {
                return false;
            }
        }
        i += 1;
    }
    let last = curve[curve.len() - 1];
    last.duty_percent == MAX_DUTY_PERCENT && last.temperature_milli_c <= emergency_temperature_milli_c
}

impl FanPolicyConfig {
    /// Whether the settings can be followed, and if not, why.
    pub fn validate(&self) -> (result: Result<(), PolicyConfigError>)
        ensures
            result == self@.checked(),
    {
        if !curve_is_valid(&self.curve, self.emergency_temperature_milli_c) {
            return Err(PolicyConfigError::InvalidCurve);
        }
        if self.smoothing_seconds > 60 {
            return Err(PolicyConfigError::InvalidSmoothing);
        }
        if self.duty_step_percent < 1 || self.duty_step_percent > 20 {
            return Err(PolicyConfigError::InvalidDutyStep);
        }
        if self.duty_hysteresis_percent > 20 {
            return Err(PolicyConfigError::InvalidHysteresis);
        }
        if self.ramp_up_percent_per_second < 1 || self.ramp_up_percent_per_second > 100
            || self.ramp_down_percent_per_second < 1 || self.ramp_down_percent_per_second > 100 {
            return Err(PolicyConfigError::InvalidRamp);
        }
        if self.emergency_temperature_milli_c < 50_000 || self.emergency_temperature_milli_c
            > MAX_CONFIGURABLE_EMERGENCY_C as i32 * 1_000 {
            return Err(PolicyConfigError::InvalidEmergencyTemperature);
        }
        Ok(())
    }
}

/// What to tell a user about an error.
pub open spec fn error_text(error: PolicyConfigError) -> Seq<char> {
    match error {
        PolicyConfigError::InvalidCurve =>
            "curve must contain increasing temperature:duty points and end at 100% no later than the emergency temperature"@,
        PolicyConfigError::InvalidSmoothing => "smoothing_seconds must be between 0 and 60"@,
        PolicyConfigError::InvalidDutyStep => "duty_step_percent must be between 1 and 20"@,
        PolicyConfigError::InvalidHysteresis => "duty_hysteresis_percent must be between 0 and 20"@,
        PolicyConfigError::InvalidRamp => "ramp rates must be between 1 and 100 percent per second"@,
        PolicyConfigError::InvalidEmergencyTemperature =>
            "emergency_temperature_c must be between 50 and 90"@,
    }
}

impl PolicyConfigError {
    /// What to tell a user about the error.
    pub fn message(&self) -> (message: &'static str)
        ensures
            message@ == error_text(*self),
    {
        match self {
            PolicyConfigError::InvalidCurve =>
                "curve must contain increasing temperature:duty points and end at 100% no later than the emergency temperature",
            PolicyConfigError::InvalidSmoothing => "smoothing_seconds must be between 0 and 60",
            PolicyConfigError::InvalidDutyStep => "duty_step_percent must be between 1 and 20",
            PolicyConfigError::InvalidHysteresis => "duty_hysteresis_percent must be between 0 and 20",
            PolicyConfigError::InvalidRamp => "ramp rates must be between 1 and 100 percent per second",
            PolicyConfigError::InvalidEmergencyTemperature =>
                "emergency_temperature_c must be between 50 and 90",
        }
    }
}

/// The settings that hold where nothing else is said can be followed.
pub proof fn law_default_settings_are_valid()
    ensures
        default_settings().valid(),
{
}

/// A temperature in thousandths of a degree, by the whole numbers next to it:
/// the greatest that is not above it, the nearest, and the least that is not
/// below it. Numbers out of range stand for the end of the range.
#[derive(Clone, Copy, Debug, PartialEq, Eq, Structural)]
pub struct MilliCelsius {
    pub floor: i64,
    pub nearest: i64,
    pub ceiling: i64,
}

/// Whether `reading` is what `read` makes of a text.
pub open spec fn reads_as<F: Fn(&str) -> Option<MilliCelsius>>(
    read: F,
    reading: spec_fn(Seq<char>) -> Option<MilliCelsius>,
) -> bool {
    forall|value: &str, result: Option<MilliCelsius>| #[trigger]
        call_ensures(read, (value,), result) ==> result == reading(value@)
}

/// The point that one field of a curve gives.
pub open spec fn curve_point(
    field: Seq<char>,
    reading: spec_fn(Seq<char>) -> Option<MilliCelsius>,
) -> Option<CurvePoint> {
    match text::cut_once(text::trimmed(field), ':') {
        None => None,
        Some((temperature, duty)) => match (
            reading(text::trimmed(temperature)),
            numbers::unsigned_number(text::trimmed(duty), u8::MAX as nat),
        ) {
            (Some(milli_c), Some(duty)) => if i32::MIN <= milli_c.nearest <= i32::MAX {
                Some(
                    CurvePoint { temperature_milli_c: milli_c.nearest as i32, duty_percent: duty as u8 },
                )
            } else {
                None
            },
            _ => None,
        },
    }
}

/// The curve that a text gives: a point for each field, or nothing where one
/// of them gives none.
pub open spec fn curve_in(
    value: Seq<char>,
    reading: spec_fn(Seq<char>) -> Option<MilliCelsius>,
) -> Option<Seq<CurvePoint>> {
    let fields = text::pieces(value, ',');
    if forall|i: int| 0 <= i < fields.len() ==> curve_point(#[trigger] fields[i], reading) is Some {
        Some(fields.map_values(|field: Seq<char>| curve_point(field, reading)->0))
    } else {
        None
    }
}

/// The point that one field of a curve gives.
fn parse_curve_point<F: Fn(&str) -> Option<MilliCelsius>>(field: &str, read: &F) -> (point: Option<CurvePoint>)
    requires
        forall|value: &str| #[trigger] call_requires(*read, (value,)),
    ensures
        forall|reading: spec_fn(Seq<char>) -> Option<MilliCelsius>| #[trigger]
            reads_as(*read, reading) ==> point == curve_point(field@, reading),
{
    let (temperature, duty) = match split_once(trim(field), ':') {
        Some(parts) => parts,
        None => {
            return None;
        },
    };
    let milli_c = match read(trim(temperature)) {
        Some(milli_c) => milli_c,
        None => {
            return None;
        },
    };
    let duty_percent: u8 = match parse_u8(trim(duty)) {
        Some(duty) => duty,
        None => {
            return None;
        },
    };
    if milli_c.nearest < i32::MIN as i64 || milli_c.nearest > i32::MAX as i64 {
        return None;
    }
    Some(CurvePoint { temperature_milli_c: milli_c.nearest as i32, duty_percent })
}

/// The curve that a text gives. `read` makes a temperature of the text of a
/// number of degrees, or nothing where it is no finite number.
pub fn parse_curve<F: Fn(&str) -> Option<MilliCelsius>>(value: &str, read: &F) -> (result: Result<
    Vec<CurvePoint>,
    PolicyConfigError,
>)
    requires
        forall|value: &str| #[trigger] call_requires(*read, (value,)),
    ensures
        result matches Err(error) ==> error == PolicyConfigError::InvalidCurve,
        forall|reading: spec_fn(Seq<char>) -> Option<MilliCelsius>| #[trigger]
            reads_as(*read, reading) ==> match result {
                Ok(points) => curve_in(value@, reading) == Some(points@),
                Err(_) => curve_in(value@, reading) is None,
            },
{
    let mut points: Vec<CurvePoint> = Vec::new();
    let fields = split(value, ',');
    let ghost all = text::texts(fields@);
    let mut i: usize = 0;
    while i < fields.len()
        invariant
            i <= fields.len(),
            points.len() == i,
            all == text::texts(fields@),
            all == text::pieces(value@, ','),
            forall|value: &str| #[trigger] call_requires(*read, (value,)),
            forall|reading: spec_fn(Seq<char>) -> Option<MilliCelsius>, j: int|
                #[trigger] reads_as(*read, reading) && 0 <= j < i ==> curve_point(#[trigger] all[j], reading)
                    == Some(points@[j]),
        decreases fields.len() - i,
    {
        assert(all[i as int] == fields[i as int]@);
        match parse_curve_point(fields[i], read) {
            Some(point) => {
                points.push(point);
            },
            None => {
                return Err(PolicyConfigError::InvalidCurve);
            },
        }
        i += 1;
    }
    assert forall|reading: spec_fn(Seq<char>) -> Option<MilliCelsius>| #[trigger]
        reads_as(*read, reading) implies curve_in(value@, reading) == Some(points@) by {
        assert forall|j: int| 0 <= j < all.len() implies curve_point(#[trigger] all[j], reading) is Some by {
        }
        assert(points@ =~= all.map_values(|field: Seq<char>| curve_point(field, reading)->0));
    }
    Ok(points)
}

/// The part of a curve that a temperature falls on.
#[derive(Clone, Copy, Debug, PartialEq, Eq, Structural)]
pub enum Segment {
    Level { duty_percent: u8 },
    Slope { lower: CurvePoint, upper: CurvePoint },
}

/// What the policy is told.
#[derive(Clone, Copy, Debug, PartialEq, Eq, Structural)]
pub enum PolicyEvent {
    /// A temperature was measured.
    Sample { temperature_milli_c: i32 },
    /// The smoothed temperature, by the least whole number not below it.
    Smoothed { ceiling_milli_c: i64 },
    /// The duty that the curve asks for, by the whole numbers next to it, and
    /// by the number of duty steps nearest to it.
    Desired { floor_percent: i64, ceiling_percent: i64, nearest_steps: i64 },
    /// How many duty steps the slew budget is good for.
    Budget { available_steps: u8 },
}

/// What the policy asks for.
#[derive(Clone, Copy, Debug, PartialEq, Eq, Structural)]
pub enum PolicyAction {
    /// Take the measured temperature as the smoothed one, drop the slew budget
    /// and command full duty.
    Emergency,
    /// Take the measured temperature as the smoothed one, and report it.
    TakeSample,
    /// Let the smoothed temperature move to the measured one, and report it.
    Blend { smoothing_seconds: u32 },
    /// Work out the duty on this segment, and report it in steps of this size.
    Interpolate { segment: Segment, step_percent: u8 },
    /// Drop the slew budget and command this duty.
    Hold { duty_percent: u8 },
    /// Drop the slew budget where that is asked for, let it grow at this rate,
    /// and report it in steps of this size.
    Accrue { drop_budget: bool, percent_per_second: u8, step_percent: u8 },
    /// Take this much off the slew budget and command this duty.
    Command { duty_percent: u8, spent_percent: u8 },
}

/// What the policy remembers.
pub struct PolicyState {
    pub settings: PolicySettings,
    pub sampled: bool,
    pub target: u8,
    pub commanded: u8,
}

impl PolicyState {
    /// Whether the settings can be followed and both duties are in range.
    pub open spec fn well_formed(self) -> bool {
        &&& self.settings.valid()
        &&& MIN_DUTY_PERCENT <= self.target <= MAX_DUTY_PERCENT
        &&& MIN_DUTY_PERCENT <= self.commanded <= MAX_DUTY_PERCENT
    }
}

/// The segment of a rising curve behind its first point.
pub open spec fn slope_at(curve: Seq<CurvePoint>, ceiling_milli_c: int) -> Segment
    decreases curve.len(),
{
    if curve.len() < 2 {
        Segment::Level { duty_percent: curve.last().duty_percent }
    } else if ceiling_milli_c <= curve[1].temperature_milli_c {
        Segment::Slope { lower: curve[0], upper: curve[1] }
    } else {
        slope_at(curve.drop_first(), ceiling_milli_c)
    }
}

/// The segment that a temperature falls on, given the least whole number not
/// below it.
pub open spec fn segment_at(curve: Seq<CurvePoint>, ceiling_milli_c: int) -> Segment {
    if ceiling_milli_c <= curve[0].temperature_milli_c {
        Segment::Level { duty_percent: curve[0].duty_percent }
    } else {
        slope_at(curve, ceiling_milli_c)
    }
}

/// A duty of whole steps, in range.
pub open spec fn quantized(steps: int, step_percent: u8) -> u8 {
    let duty = steps * step_percent;
    if duty < MIN_DUTY_PERCENT {
        MIN_DUTY_PERCENT
    } else if duty > MAX_DUTY_PERCENT {
        MAX_DUTY_PERCENT
    } else {
        duty as u8
    }
}

/// The target after the curve asked for a duty: the nearest whole step where
/// the duty left the band around the old target, else the old target.
pub open spec fn retargeted(state: PolicyState, floor: int, ceiling: int, nearest_steps: int) -> u8 {
    let band = state.settings.duty_hysteresis_percent;
    if floor >= state.target + band || ceiling <= state.target - band {
        quantized(nearest_steps, state.settings.duty_step_percent)
    } else {
        state.target
    }
}

/// How far the commanded duty moves, given the steps that the budget allows.
pub open spec fn movement(state: PolicyState, available_steps: u8) -> int {
    let distance = if state.target > state.commanded {
        state.target - state.commanded
    } else {
        state.commanded - state.target
    };
    let allowed = available_steps * state.settings.duty_step_percent;
    if allowed < distance {
        allowed
    } else {
        distance
    }
}

/// What the policy remembers and asks for after an event.
pub open spec fn transition(state: PolicyState, event: PolicyEvent) -> (PolicyState, PolicyAction) {
    match event {
        PolicyEvent::Sample { temperature_milli_c } => if temperature_milli_c
            >= state.settings.emergency_temperature_milli_c {
            (
                PolicyState {
                    sampled: true,
                    target: MAX_DUTY_PERCENT,
                    commanded: MAX_DUTY_PERCENT,
                    ..state
                },
                PolicyAction::Emergency,
            )
        } else if state.sampled && state.settings.smoothing_seconds > 0 {
            (state, PolicyAction::Blend { smoothing_seconds: state.settings.smoothing_seconds })
        } else {
            (PolicyState { sampled: true, ..state }, PolicyAction::TakeSample)
        },
        PolicyEvent::Smoothed { ceiling_milli_c } => (
            state,
            PolicyAction::Interpolate {
                segment: segment_at(state.settings.curve, ceiling_milli_c as int),
                step_percent: state.settings.duty_step_percent,
            },
        ),
        PolicyEvent::Desired { floor_percent, ceiling_percent, nearest_steps } => {
            let target = retargeted(
                state,
                floor_percent as int,
                ceiling_percent as int,
                nearest_steps as int,
            );
            let next = PolicyState { target, ..state };
            if state.commanded == target {
                (next, PolicyAction::Hold { duty_percent: state.commanded })
            } else {
                (
                    next,
                    PolicyAction::Accrue {
                        drop_budget: target != state.target,
                        percent_per_second: if target > state.commanded {
                            state.settings.ramp_up_percent_per_second
                        } else {
                            state.settings.ramp_down_percent_per_second
                        },
                        step_percent: state.settings.duty_step_percent,
                    },
                )
            }
        },
        PolicyEvent::Budget { available_steps } => {
            let change = movement(state, available_steps);
            let commanded = if state.target > state.commanded {
                (state.commanded + change) as u8
            } else {
                (state.commanded - change) as u8
            };
            (
                PolicyState { commanded, ..state },
                PolicyAction::Command { duty_percent: commanded, spent_percent: change as u8 },
            )
        },
    }
}

/// Follows the settings from one event to the next.
#[derive(Debug)]
pub struct FanPolicy {
    config: FanPolicyConfig,
    sampled: bool,
    target_duty_percent: u8,
    commanded_duty_percent: u8,
}

impl View for FanPolicy {
    type V = PolicyState;

    closed spec fn view(&self) -> PolicyState {
        PolicyState {
            settings: self.config@,
            sampled: self.sampled,
            target: self.target_duty_percent,
            commanded: self.commanded_duty_percent,
        }
    }
}

/// The segment that a temperature falls on, given the least whole number not
/// below it.
fn interpolate_curve(curve: &Vec<CurvePoint>, ceiling_milli_c: i64) -> (segment: Segment)
    requires
        curve@.len() > 0,
    ensures
        segment == segment_at(curve@, ceiling_milli_c as int),
{
    if ceiling_milli_c <= curve[0].temperature_milli_c as i64 {
        return Segment::Level { duty_percent: curve[0].duty_percent };
    }
    let mut i: usize = 1;
    assert(curve@.skip(0) =~= curve@);
    while i < curve.len()
        invariant
            1 <= i <= curve.len(),
            ceiling_milli_c > curve@[0].temperature_milli_c,
            slope_at(curve@.skip(i - 1), ceiling_milli_c as int) == slope_at(curve@, ceiling_milli_c as int),
        decreases curve.len() - i,
    {
        let lower = curve[i - 1];
        let upper = curve[i];
        if ceiling_milli_c <= upper.temperature_milli_c as i64 {
            return Segment::Slope { lower, upper };
        }
        assert(curve@.skip(i - 1).drop_first() =~= curve@.skip(i as int));
        i += 1;
    }
    Segment::Level { duty_percent: curve[curve.len() - 1].duty_percent }
}

/// A duty of whole steps, in range.
fn quantize_duty(steps: i64, step_percent: u8) -> (duty: u8)
    ensures
        duty == quantized(steps as int, step_percent),
{
    if step_percent == 0 || steps <= 0 {
        assert(steps * step_percent <= 0) by (nonlinear_arith)
            requires
                step_percent == 0 || steps <= 0,
        ;
        return MIN_DUTY_PERCENT;
    }
    if steps >= MAX_DUTY_PERCENT as i64 {
        assert(steps * step_percent >= MAX_DUTY_PERCENT) by (nonlinear_arith)
            requires
                steps >= MAX_DUTY_PERCENT,
                step_percent >= 1,
        ;
        return MAX_DUTY_PERCENT;
    }
    assert(0 <= steps * step_percent <= 100 * 255) by (nonlinear_arith)
        requires
            0 <= steps <= 100,
            0 <= step_percent <= 255,
    ;
    let duty: i64 = steps * step_percent as i64;
    if duty < MIN_DUTY_PERCENT as i64 {
        MIN_DUTY_PERCENT
    } else if duty > MAX_DUTY_PERCENT as i64 {
        MAX_DUTY_PERCENT
    } else {
        duty as u8
    }
}

/// What a policy remembers before anything was measured.
pub open spec fn first_state(settings: PolicySettings) -> PolicyState {
    PolicyState { settings, sampled: false, target: MAX_DUTY_PERCENT, commanded: MAX_DUTY_PERCENT }
}

impl FanPolicy {
    #[verifier::type_invariant]
    spec fn inv(self) -> bool {
        self@.well_formed()
    }

    /// A policy that has measured nothing yet and commands full duty.
    pub fn new(config: FanPolicyConfig) -> (result: Result<Self, PolicyConfigError>)
        ensures
            result matches Ok(policy) ==> policy@ == first_state(config@),
            match result {
                Ok(policy) => config@.valid() && policy@ == (PolicyState {
                    settings: config@,
                    sampled: false,
                    target: MAX_DUTY_PERCENT,
                    commanded: MAX_DUTY_PERCENT,
                }),
                Err(error) => config@.checked() == Err::<(), PolicyConfigError>(error),
            },
    {
        match config.validate() {
            Ok(()) => Ok(
                FanPolicy {
                    config,
                    sampled: false,
                    target_duty_percent: MAX_DUTY_PERCENT,
                    commanded_duty_percent: MAX_DUTY_PERCENT,
                },
            ),
            Err(error) => Err(error),
        }
    }

    /// What is to be done after an event.
    pub fn update(&mut self, event: PolicyEvent) -> (action: PolicyAction)
        ensures
            (final(self)@, action) == transition(old(self)@, event),
            final(self)@.well_formed(),
    {
        proof {
            use_type_invariant(&*self);
        }
        match event {
            PolicyEvent::Sample { temperature_milli_c } => self.take_sample(temperature_milli_c),
            PolicyEvent::Smoothed { ceiling_milli_c } => PolicyAction::Interpolate {
                segment: interpolate_curve(&self.config.curve, ceiling_milli_c),
                step_percent: self.config.duty_step_percent,
            },
            PolicyEvent::Desired { floor_percent, ceiling_percent, nearest_steps } => self.retarget(
                floor_percent,
                ceiling_percent,
                nearest_steps,
            ),
            PolicyEvent::Budget { available_steps } => self.spend(available_steps),
        }
    }

    /// What is to be done with a measured temperature.
    fn take_sample(&mut self, temperature_milli_c: i32) -> (action: PolicyAction)
        ensures
            (final(self)@, action) == transition(
                old(self)@,
                PolicyEvent::Sample { temperature_milli_c },
            ),
            final(self)@.well_formed(),
    {
        proof {
            use_type_invariant(&*self);
        }
        if temperature_milli_c >= self.config.emergency_temperature_milli_c {
            self.sampled = true;
            self.target_duty_percent = MAX_DUTY_PERCENT;
            self.commanded_duty_percent = MAX_DUTY_PERCENT;
            return PolicyAction::Emergency;
        }
        if self.sampled && self.config.smoothing_seconds > 0 {
            PolicyAction::Blend { smoothing_seconds: self.config.smoothing_seconds }
        } else {
            self.sampled = true;
            PolicyAction::TakeSample
        }
    }

    /// What is to be done once the curve asked for a duty.
    fn retarget(&mut self, floor: i64, ceiling: i64, nearest_steps: i64) -> (action: PolicyAction)
        ensures
            (final(self)@, action) == transition(
                old(self)@,
                PolicyEvent::Desired { floor_percent: floor, ceiling_percent: ceiling, nearest_steps },
            ),
            final(self)@.well_formed(),
    {
        proof {
            use_type_invariant(&*self);
        }
        let before: u8 = self.target_duty_percent;
        let target: i64 = before as i64;
        let band: i64 = self.config.duty_hysteresis_percent as i64;
        if floor >= target + band || ceiling <= target - band {
            self.target_duty_percent = quantize_duty(nearest_steps, self.config.duty_step_percent);
        }
        if self.commanded_duty_percent == self.target_duty_percent {
            return PolicyAction::Hold { duty_percent: self.commanded_duty_percent };
        }
        let percent_per_second: u8 = if self.target_duty_percent > self.commanded_duty_percent {
            self.config.ramp_up_percent_per_second
        } else {
            self.config.ramp_down_percent_per_second
        };
        PolicyAction::Accrue {
            drop_budget: self.target_duty_percent != before,
            percent_per_second,
            step_percent: self.config.duty_step_percent,
        }
    }

    /// What is to be done with the steps that the budget is good for.
    fn spend(&mut self, available_steps: u8) -> (action: PolicyAction)
        ensures
            (final(self)@, action) == transition(old(self)@, PolicyEvent::Budget { available_steps }),
            final(self)@.well_formed(),
    {
        proof {
            use_type_invariant(&*self);
        }
        let step: u8 = self.config.duty_step_percent;
        let rising = self.target_duty_percent > self.commanded_duty_percent;
        let distance: u8 = if rising {
            self.target_duty_percent - self.commanded_duty_percent
        } else {
            self.commanded_duty_percent - self.target_duty_percent
        };
        assert(0 <= available_steps * step <= 255 * 20) by (nonlinear_arith)
            requires
                0 <= available_steps <= 255,
                0 <= step <= 20,
        ;
        let allowed: u16 = available_steps as u16 * step as u16;
        let change: u8 = if allowed < distance as u16 {
            allowed as u8
        } else {
            distance
        };
        if rising {
            self.commanded_duty_percent = self.commanded_duty_percent + change;
        } else {
            self.commanded_duty_percent = self.commanded_duty_percent - change;
        }
        PolicyAction::Command { duty_percent: self.commanded_duty_percent, spent_percent: change }
    }
}

/// Whatever happens, the target and the commanded duty stay in range.
pub proof fn law_duties_stay_in_range(state: PolicyState, event: PolicyEvent)
    requires
        state.well_formed(),
    ensures
        transition(state, event).0.well_formed(),
        transition(state, event).0.settings == state.settings,
{
}

/// At the emergency temperature full duty is commanded at once, whatever went
/// before.
pub proof fn law_emergency_commands_full_duty(state: PolicyState, temperature_milli_c: i32)
    requires
        temperature_milli_c >= state.settings.emergency_temperature_milli_c,
    ensures
        transition(state, PolicyEvent::Sample { temperature_milli_c }).1 == PolicyAction::Emergency,
        transition(state, PolicyEvent::Sample { temperature_milli_c }).0.commanded == MAX_DUTY_PERCENT,
        transition(state, PolicyEvent::Sample { temperature_milli_c }).0.target == MAX_DUTY_PERCENT,
{
}

/// A duty inside the band around the target leaves the target as it is.
pub proof fn law_small_fluctuations_keep_the_target(
    state: PolicyState,
    floor_percent: i64,
    ceiling_percent: i64,
    nearest_steps: i64,
)
    requires
        floor_percent < state.target + state.settings.duty_hysteresis_percent,
        ceiling_percent > state.target - state.settings.duty_hysteresis_percent,
    ensures
        transition(state, PolicyEvent::Desired { floor_percent, ceiling_percent, nearest_steps }).0 == state,
{
}

/// The commanded duty moves towards the target and never past it, by no more
/// than the budget allows, and what it moved by is spent.
pub proof fn law_command_moves_towards_the_target(state: PolicyState, available_steps: u8)
    requires
        state.well_formed(),
    ensures
        ({
            let (next, action) = transition(state, PolicyEvent::Budget { available_steps });
            let moved = if next.commanded > state.commanded {
                next.commanded - state.commanded
            } else {
                state.commanded - next.commanded
            };
            &&& state.commanded <= state.target ==> state.commanded <= next.commanded <= state.target
            &&& state.commanded >= state.target ==> state.target <= next.commanded <= state.commanded
            &&& moved <= available_steps * state.settings.duty_step_percent
            &&& action == PolicyAction::Command { duty_percent: next.commanded, spent_percent: moved as u8 }
        }),
{
    assert(0 <= available_steps * state.settings.duty_step_percent) by (nonlinear_arith)
        requires
            0 <= available_steps,
            0 <= state.settings.duty_step_percent,
    ;
}

/// Where the budget is good for the whole distance, the target is reached.
pub proof fn law_enough_budget_reaches_the_target(state: PolicyState, available_steps: u8)
    requires
        state.well_formed(),
        available_steps * state.settings.duty_step_percent >= state.target - state.commanded,
        available_steps * state.settings.duty_step_percent >= state.commanded - state.target,
    ensures
        transition(state, PolicyEvent::Budget { available_steps }).0.commanded == state.target,
{
}

proof fn lemma_slope(curve: Seq<CurvePoint>, ceiling_milli_c: int)
    requires
        curve.len() >= 1,
        ceiling_milli_c > curve[0].temperature_milli_c,
    ensures
        match slope_at(curve, ceiling_milli_c) {
            Segment::Slope { lower, upper } => lower.temperature_milli_c < ceiling_milli_c
                <= upper.temperature_milli_c && exists|i: int|
                0 <= i < curve.len() - 1 && lower == #[trigger] curve[i] && upper == curve[i + 1],
            Segment::Level { duty_percent } => duty_percent == curve.last().duty_percent && ceiling_milli_c
                > curve.last().temperature_milli_c,
        },
    decreases curve.len(),
{
    if curve.len() >= 2 {
        if ceiling_milli_c <= curve[1].temperature_milli_c {
            assert(curve[0] == curve[0]);
        } else {
            let rest = curve.drop_first();
            lemma_slope(rest, ceiling_milli_c);
            if let Segment::Slope { lower, upper } = slope_at(rest, ceiling_milli_c) {
                let i = choose|i: int|
                    0 <= i < rest.len() - 1 && lower == #[trigger] rest[i] && upper == rest[i + 1];
                assert(curve[i + 1] == rest[i]);
            }
        }
    }
}

/// A temperature is interpolated between the two neighbouring points of the
/// curve that it lies between. Up to the first point the duty is that of the
/// first point; above the last point it is full.
pub proof fn law_curve_covers_every_temperature(settings: PolicySettings, ceiling_milli_c: int)
    requires
        settings.valid(),
    ensures
        match segment_at(settings.curve, ceiling_milli_c) {
            Segment::Slope { lower, upper } => {
                &&& lower.temperature_milli_c < ceiling_milli_c <= upper.temperature_milli_c
                &&& lower.duty_percent <= upper.duty_percent
                &&& exists|i: int|
                    0 <= i < settings.curve.len() - 1 && lower == #[trigger] settings.curve[i] && upper
                        == settings.curve[i + 1]
            },
            Segment::Level { duty_percent } => {
                ||| ceiling_milli_c <= settings.curve[0].temperature_milli_c && duty_percent
                    == settings.curve[0].duty_percent
                ||| ceiling_milli_c > settings.curve.last().temperature_milli_c && duty_percent
                    == MAX_DUTY_PERCENT
            },
        },
{
    if ceiling_milli_c > settings.curve[0].temperature_milli_c {
        lemma_slope(settings.curve, ceiling_milli_c);
    }
}

/// The policy with its slew budget as an exact number of parts, of which there
/// are `scale` in a percent.
pub struct Paced {
    pub state: PolicyState,
    pub budget: int,
}

impl Paced {
    /// Whether less than a duty step is left of the budget, unless the target is
    /// reached and the budget will be dropped.
    pub open spec fn well_paced(self, scale: int) -> bool {
        &&& self.state.well_formed()
        &&& 0 <= self.budget
        &&& self.budget < self.state.settings.duty_step_percent * scale || self.state.commanded
            == self.state.target
    }
}

/// How many whole duty steps a budget is good for.
pub open spec fn whole_steps(budget: int, step_percent: u8, scale: int) -> u8 {
    let steps = budget / (step_percent * scale);
    if steps > u8::MAX {
        u8::MAX
    } else {
        steps as u8
    }
}

/// What is left of a budget when the curve has asked for a duty: nothing where
/// that changed the target.
pub open spec fn kept_budget(budget: int, drop_budget: bool) -> int {
    if drop_budget {
        0
    } else {
        budget
    }
}

/// The policy after a whole update: a temperature, the duty that the curve asks
/// for, and the time since the last update in parts of a second, of which there
/// are `scale`.
pub open spec fn paced(
    before: Paced,
    temperature_milli_c: i32,
    floor_percent: i64,
    ceiling_percent: i64,
    nearest_steps: i64,
    elapsed: int,
    scale: int,
) -> Paced {
    let (sampled, first) = transition(before.state, PolicyEvent::Sample { temperature_milli_c });
    let (aimed, second) = transition(
        sampled,
        PolicyEvent::Desired { floor_percent, ceiling_percent, nearest_steps },
    );
    if first is Emergency {
        Paced { state: sampled, budget: 0 }
    } else {
        match second {
            PolicyAction::Accrue { drop_budget, percent_per_second, step_percent } => {
                let grown = kept_budget(before.budget, drop_budget) + percent_per_second * elapsed;
                let available_steps = whole_steps(grown, step_percent, scale);
                let (state, third) = transition(aimed, PolicyEvent::Budget { available_steps });
                Paced { state, budget: grown - third->spent_percent * scale }
            },
            _ => Paced { state: aimed, budget: 0 },
        }
    }
}

/// Whether the budget is to grow, and these steps fit what is kept of it and
/// what it grows by.
pub open spec fn steps_fit(
    action: PolicyAction,
    available_steps: u8,
    budget: int,
    elapsed: int,
    scale: int,
) -> bool {
    match action {
        PolicyAction::Accrue { drop_budget, percent_per_second, step_percent } => available_steps * step_percent
            * scale <= kept_budget(budget, drop_budget) + percent_per_second * elapsed,
        _ => false,
    }
}

proof fn lemma_move_fits(moved: int, steps: int, step: int, scale: int, kept: int, gain: int)
    by (nonlinear_arith)
    requires
        0 <= moved <= steps * step,
        steps * step * scale <= kept + gain,
        kept < step * scale,
        0 <= gain,
        0 <= steps,
        0 < step,
        0 < scale,
    ensures
        moved * scale <= gain + step * scale,
        gain == 0 ==> moved == 0,
{
    assert(moved * scale <= steps * step * scale);
    if gain == 0 && steps >= 1 {
        assert(steps * step * scale >= step * scale);
    }
}

/// A move is paid for: where the steps that are taken fit the budget that was
/// kept and what it grew by, the duty moves by no more than the ramp rate
/// allows in the time, and one step. Without time nothing moves.
pub proof fn law_move_is_paid_for(
    state: PolicyState,
    floor_percent: i64,
    ceiling_percent: i64,
    nearest_steps: i64,
    available_steps: u8,
    budget: int,
    elapsed: int,
    scale: int,
)
    requires
        (Paced { state, budget }).well_paced(scale),
        0 <= elapsed,
        0 < scale,
        steps_fit(
            transition(state, (PolicyEvent::Desired { floor_percent, ceiling_percent, nearest_steps })).1,
            available_steps,
            budget,
            elapsed,
            scale,
        ),
    ensures
        ({
            let aimed = transition(
                state,
                PolicyEvent::Desired { floor_percent, ceiling_percent, nearest_steps },
            ).0;
            let next = transition(aimed, PolicyEvent::Budget { available_steps }).0;
            let step = state.settings.duty_step_percent;
            &&& next.commanded > state.commanded ==> (next.commanded - state.commanded) * scale
                <= state.settings.ramp_up_percent_per_second * elapsed + step * scale
            &&& next.commanded < state.commanded ==> (state.commanded - next.commanded) * scale
                <= state.settings.ramp_down_percent_per_second * elapsed + step * scale
            &&& elapsed == 0 ==> next.commanded == state.commanded
        }),
{
    let event = PolicyEvent::Desired { floor_percent, ceiling_percent, nearest_steps };
    let (aimed, action) = transition(state, event);
    let next = transition(aimed, PolicyEvent::Budget { available_steps }).0;
    law_duties_stay_in_range(state, event);
    law_command_moves_towards_the_target(aimed, available_steps);
    let moved = if next.commanded > state.commanded {
        next.commanded - state.commanded
    } else {
        state.commanded - next.commanded
    };
    if let PolicyAction::Accrue { drop_budget, percent_per_second, step_percent } = action {
        let kept = kept_budget(budget, drop_budget);
        assert(0 < step_percent * scale) by (nonlinear_arith)
            requires
                0 < step_percent,
                0 < scale,
        ;
        assert(0 <= percent_per_second * elapsed) by (nonlinear_arith)
            requires
                0 <= percent_per_second,
                0 <= elapsed,
        ;
        assert(elapsed == 0 ==> percent_per_second * elapsed == 0) by (nonlinear_arith);
        lemma_move_fits(
            moved,
            available_steps as int,
            step_percent as int,
            scale,
            kept,
            percent_per_second * elapsed,
        );
    }
}

proof fn lemma_whole_steps(budget: int, step: u8, scale: int)
    requires
        0 <= budget,
        0 < step,
        0 < scale,
    ensures
        whole_steps(budget, step, scale) * step * scale <= budget,
        whole_steps(budget, step, scale) < u8::MAX ==> budget < (whole_steps(budget, step, scale) + 1) * step
            * scale,
{
    let size = step * scale;
    let steps = budget / size;
    let taken = whole_steps(budget, step, scale) as int;
    assert(size > 0) by (nonlinear_arith)
        requires
            size == step * scale,
            0 < step,
            0 < scale,
    ;
    assert(steps * size <= budget < (steps + 1) * size && 0 <= steps) by (nonlinear_arith)
        requires
            steps == budget / size,
            size > 0,
            0 <= budget,
    ;
    assert(taken * size <= steps * size) by (nonlinear_arith)
        requires
            taken <= steps,
            size > 0,
    ;
    assert(taken * step * scale == taken * size && (taken + 1) * step * scale == (taken + 1) * size)
        by (nonlinear_arith)
        requires
            size == step * scale,
    ;
}

/// What a move leaves of the budget is less than a step, or the target is
/// reached.
proof fn lemma_left_budget(aimed: PolicyState, grown: int, scale: int)
    requires
        aimed.well_formed(),
        0 <= grown,
        0 < scale,
    ensures
        ({
            let available_steps = whole_steps(grown, aimed.settings.duty_step_percent, scale);
            let (state, action) = transition(aimed, PolicyEvent::Budget { available_steps });
            Paced { state, budget: grown - action->spent_percent * scale }.well_paced(scale)
        }),
{
    let step = aimed.settings.duty_step_percent;
    let available_steps = whole_steps(grown, step, scale);
    let (state, action) = transition(aimed, PolicyEvent::Budget { available_steps });
    let spent = action->spent_percent as int;
    let allowed = available_steps * step;
    law_duties_stay_in_range(aimed, PolicyEvent::Budget { available_steps });
    law_command_moves_towards_the_target(aimed, available_steps);
    lemma_whole_steps(grown, step, scale);
    assert(0 <= spent * scale <= allowed * scale) by (nonlinear_arith)
        requires
            0 <= spent <= allowed,
            0 < scale,
    ;
    if state.commanded != state.target {
        assert(spent == allowed);
        assert(available_steps < u8::MAX) by {
            assert(available_steps == u8::MAX ==> allowed >= 255) by (nonlinear_arith)
                requires
                    allowed == available_steps * step,
                    step >= 1,
            ;
        }
        assert((available_steps + 1) * step * scale == allowed * scale + step * scale) by (nonlinear_arith)
            requires
                allowed == available_steps * step,
        ;
    }
}

/// A policy that starts at its target with no budget is well paced, and every
/// update keeps it so.
pub proof fn law_pace_is_kept(
    before: Paced,
    temperature_milli_c: i32,
    floor_percent: i64,
    ceiling_percent: i64,
    nearest_steps: i64,
    elapsed: int,
    scale: int,
)
    requires
        0 <= elapsed,
        0 < scale,
    ensures
        before.state.well_formed() && before.state.commanded == before.state.target && before.budget == 0
            ==> before.well_paced(scale),
        before.well_paced(scale) ==> paced(
            before,
            temperature_milli_c,
            floor_percent,
            ceiling_percent,
            nearest_steps,
            elapsed,
            scale,
        ).well_paced(scale),
{
    if before.well_paced(scale) {
        let sample = PolicyEvent::Sample { temperature_milli_c };
        let (sampled, first) = transition(before.state, sample);
        let desired = PolicyEvent::Desired { floor_percent, ceiling_percent, nearest_steps };
        let (aimed, second) = transition(sampled, desired);
        law_duties_stay_in_range(before.state, sample);
        law_duties_stay_in_range(sampled, desired);
        let step = before.state.settings.duty_step_percent;
        assert(0 < step * scale) by (nonlinear_arith)
            requires
                0 < step,
                0 < scale,
        ;
        if let PolicyAction::Accrue { drop_budget, percent_per_second, step_percent } = second {
            let grown = kept_budget(before.budget, drop_budget) + percent_per_second * elapsed;
            assert(0 <= percent_per_second * elapsed) by (nonlinear_arith)
                requires
                    0 <= percent_per_second,
                    0 <= elapsed,
            ;
            lemma_left_budget(aimed, grown, scale);
        }
    }
}

/// Over a whole update below the emergency temperature the commanded duty moves
/// by no more than the ramp rate allows in the time, and one step. Without time
/// it does not move.
pub proof fn law_ramp_is_bounded(
    before: Paced,
    temperature_milli_c: i32,
    floor_percent: i64,
    ceiling_percent: i64,
    nearest_steps: i64,
    elapsed: int,
    scale: int,
)
    requires
        before.well_paced(scale),
        temperature_milli_c < before.state.settings.emergency_temperature_milli_c,
        0 <= elapsed,
        0 < scale,
    ensures
        ({
            let after = paced(
                before,
                temperature_milli_c,
                floor_percent,
                ceiling_percent,
                nearest_steps,
                elapsed,
                scale,
            );
            let settings = before.state.settings;
            let was = before.state.commanded;
            let now = after.state.commanded;
            &&& now > was ==> (now - was) * scale <= settings.ramp_up_percent_per_second * elapsed
                + settings.duty_step_percent * scale
            &&& now < was ==> (was - now) * scale <= settings.ramp_down_percent_per_second * elapsed
                + settings.duty_step_percent * scale
            &&& elapsed == 0 ==> now == was
        }),
{
    let sample = PolicyEvent::Sample { temperature_milli_c };
    let sampled = transition(before.state, sample).0;
    let desired = PolicyEvent::Desired { floor_percent, ceiling_percent, nearest_steps };
    let second = transition(sampled, desired).1;
    law_duties_stay_in_range(before.state, sample);
    if let PolicyAction::Accrue { drop_budget, percent_per_second, step_percent } = second {
        let grown = kept_budget(before.budget, drop_budget) + percent_per_second * elapsed;
        assert(0 <= percent_per_second * elapsed) by (nonlinear_arith)
            requires
                0 <= percent_per_second,
                0 <= elapsed,
        ;
        lemma_whole_steps(grown, step_percent, scale);
        law_move_is_paid_for(
            sampled,
            floor_percent,
            ceiling_percent,
            nearest_steps,
            whole_steps(grown, step_percent, scale),
            before.budget,
            elapsed,
            scale,
        );
    }
}

/// The least and the greatest duty on a segment.
pub open spec fn duty_range(segment: Segment) -> (u8, u8) {
    match segment {
        Segment::Level { duty_percent } => (duty_percent, duty_percent),
        Segment::Slope { lower, upper } => (lower.duty_percent, upper.duty_percent),
    }
}

/// Two temperatures fall on one segment, or the warmer one falls on a segment
/// whose duties are all at least those of the cooler one. All duties lie
/// between that of the first point and full duty.
pub proof fn law_curve_rises(settings: PolicySettings, cooler_milli_c: int, warmer_milli_c: int)
    requires
        settings.valid(),
        cooler_milli_c <= warmer_milli_c,
    ensures
        ({
            let cooler = segment_at(settings.curve, cooler_milli_c);
            let warmer = segment_at(settings.curve, warmer_milli_c);
            &&& cooler == warmer || duty_range(cooler).1 <= duty_range(warmer).0
            &&& duty_range(cooler).0 <= duty_range(warmer).0
            &&& duty_range(cooler).1 <= duty_range(warmer).1
            &&& settings.curve[0].duty_percent <= duty_range(cooler).0 <= duty_range(cooler).1
            &&& duty_range(warmer).1 <= MAX_DUTY_PERCENT
        }),
{
    let curve = settings.curve;
    law_curve_covers_every_temperature(settings, cooler_milli_c);
    law_curve_covers_every_temperature(settings, warmer_milli_c);
    let cooler = segment_at(curve, cooler_milli_c);
    let warmer = segment_at(curve, warmer_milli_c);
    let last = curve.len() - 1;
    assert(curve[0].temperature_milli_c < curve[last].temperature_milli_c);
    if let Segment::Slope { lower, upper } = cooler {
        let i = choose|i: int| 0 <= i < curve.len() - 1 && lower == #[trigger] curve[i] && upper == curve[i + 1];
        lemma_in_duty_order(settings, 0, i);
        lemma_in_duty_order(settings, i, i + 1);
        lemma_in_duty_order(settings, i + 1, last);
        if let Segment::Slope { lower: warm_lower, upper: warm_upper } = warmer {
            let j = choose|j: int|
                0 <= j < curve.len() - 1 && warm_lower == #[trigger] curve[j] && warm_upper == curve[j + 1];
            lemma_in_duty_order(settings, j + 1, last);
            if j < i {
                lemma_in_temperature_order(settings, j + 1, i);
            } else if i < j {
                lemma_in_duty_order(settings, i + 1, j);
                lemma_in_duty_order(settings, j, j + 1);
            }
        }
    } else if let Segment::Slope { lower: warm_lower, upper: warm_upper } = warmer {
        let j = choose|j: int|
            0 <= j < curve.len() - 1 && warm_lower == #[trigger] curve[j] && warm_upper == curve[j + 1];
        lemma_in_duty_order(settings, 0, j);
        lemma_in_duty_order(settings, j, j + 1);
        lemma_in_duty_order(settings, j + 1, last);
        lemma_in_temperature_order(settings, j + 1, last);
    } else {
        lemma_in_duty_order(settings, 0, last);
    }
}

proof fn lemma_in_duty_order(settings: PolicySettings, i: int, j: int)
    requires
        settings.valid(),
        0 <= i <= j < settings.curve.len(),
    ensures
        settings.curve[i].duty_percent <= settings.curve[j].duty_percent <= MAX_DUTY_PERCENT,
{
}

proof fn lemma_in_temperature_order(settings: PolicySettings, i: int, j: int)
    requires
        settings.valid(),
        0 <= i <= j < settings.curve.len(),
    ensures
        settings.curve[i].temperature_milli_c <= settings.curve[j].temperature_milli_c,
{
}

/// At the temperature of a point the curve asks for the duty of that point: it
/// is the upper end of the segment, or the level before the first point.
pub proof fn law_curve_goes_through_its_points(settings: PolicySettings, i: int)
    requires
        settings.valid(),
        0 <= i < settings.curve.len(),
    ensures
        segment_at(settings.curve, settings.curve[i].temperature_milli_c as int) == if i == 0 {
            Segment::Level { duty_percent: settings.curve[0].duty_percent }
        } else {
            Segment::Slope { lower: settings.curve[i - 1], upper: settings.curve[i] }
        },
{
    let curve = settings.curve;
    let milli_c = curve[i].temperature_milli_c as int;
    if i > 0 {
        lemma_in_temperature_order(settings, 0, i);
        assert(curve[0].temperature_milli_c < curve[i].temperature_milli_c);
        law_curve_covers_every_temperature(settings, milli_c);
        lemma_in_temperature_order(settings, i, curve.len() - 1);
        if let Segment::Slope { lower, upper } = segment_at(curve, milli_c) {
            let j = choose|j: int|
                0 <= j < curve.len() - 1 && lower == #[trigger] curve[j] && upper == curve[j + 1];
            if j + 1 < i {
                assert(curve[j + 1].temperature_milli_c < curve[i].temperature_milli_c);
            } else if j >= i {
                lemma_in_temperature_order(settings, i, j);
            }
        }
    }
}

/// The least whole number not below `value` parts, of which there are `scale`
/// in a thousandth of a degree.
pub open spec fn ceiling_of(value: int, scale: int) -> int {
    (value + scale - 1) / scale
}

/// The exact duty at a temperature in parts of a thousandth of a degree, of
/// which there are `scale`: a numerator and a denominator.
pub open spec fn exact_duty(curve: Seq<CurvePoint>, temperature: int, scale: int) -> (int, int) {
    match segment_at(curve, ceiling_of(temperature, scale)) {
        Segment::Level { duty_percent } => (duty_percent as int, 1),
        Segment::Slope { lower, upper } => {
            let span = (upper.temperature_milli_c - lower.temperature_milli_c) * scale;
            let along = temperature - lower.temperature_milli_c * scale;
            (lower.duty_percent * span + along * (upper.duty_percent - lower.duty_percent), span)
        },
    }
}

proof fn lemma_ceiling(value: int, scale: int, bound: int)
    requires
        0 < scale,
    ensures
        bound < ceiling_of(value, scale) ==> bound * scale < value,
        ceiling_of(value, scale) <= bound ==> value <= bound * scale,
{
    let c = ceiling_of(value, scale);
    assert((c - 1) * scale < value <= c * scale) by (nonlinear_arith)
        requires
            c == (value + scale - 1) / scale,
            0 < scale,
    ;
    assert(bound < c ==> bound * scale <= (c - 1) * scale) by (nonlinear_arith)
        requires
            0 < scale,
    ;
    assert(c <= bound ==> c * scale <= bound * scale) by (nonlinear_arith)
        requires
            0 < scale,
    ;
}

proof fn lemma_ceilings_in_order(a: int, b: int, scale: int)
    requires
        0 < scale,
        a <= b,
    ensures
        ceiling_of(a, scale) <= ceiling_of(b, scale),
{
    lemma_ceiling(b, scale, ceiling_of(b, scale));
    lemma_ceiling(a, scale, ceiling_of(b, scale));
}

/// The exact duty lies in the range of its segment.
proof fn lemma_duty_in_range(settings: PolicySettings, temperature: int, scale: int)
    requires
        settings.valid(),
        0 < scale,
    ensures
        ({
            let (duty, parts) = exact_duty(settings.curve, temperature, scale);
            let (least, most) = duty_range(segment_at(settings.curve, ceiling_of(temperature, scale)));
            &&& 0 < parts
            &&& least * parts <= duty <= most * parts
        }),
{
    let c = ceiling_of(temperature, scale);
    law_curve_covers_every_temperature(settings, c);
    if let Segment::Slope { lower, upper } = segment_at(settings.curve, c) {
        let low = lower.temperature_milli_c as int;
        let high = upper.temperature_milli_c as int;
        let span = (high - low) * scale;
        let along = temperature - low * scale;
        let rise = upper.duty_percent - lower.duty_percent;
        lemma_ceiling(temperature, scale, low);
        lemma_ceiling(temperature, scale, high);
        assert(0 < span && 0 <= along <= span) by (nonlinear_arith)
            requires
                low < high,
                0 < scale,
                span == (high - low) * scale,
                along == temperature - low * scale,
                low * scale < temperature <= high * scale,
        ;
        assert(0 <= along * rise <= span * rise) by (nonlinear_arith)
            requires
                0 <= along <= span,
                0 <= rise,
        ;
        assert(upper.duty_percent * span == lower.duty_percent * span + span * rise) by (nonlinear_arith)
            requires
                rise == upper.duty_percent - lower.duty_percent,
        ;
    }
}

proof fn lemma_fractions_in_order(a: int, a_parts: int, most: int, least: int, b: int, b_parts: int)
    by (nonlinear_arith)
    requires
        0 < a_parts,
        0 < b_parts,
        a <= most * a_parts,
        most <= least,
        least * b_parts <= b,
    ensures
        a * b_parts <= b * a_parts,
{
    assert(a * b_parts <= most * a_parts * b_parts);
    assert(most * (a_parts * b_parts) <= least * (a_parts * b_parts));
    assert(least * b_parts * a_parts <= b * a_parts);
}

/// A warmer temperature never asks for a lower duty, and every duty lies
/// between that of the first point and full duty.
pub proof fn law_warmer_never_asks_for_less(settings: PolicySettings, cooler: int, warmer: int, scale: int)
    requires
        settings.valid(),
        cooler <= warmer,
        0 < scale,
    ensures
        ({
            let (cool_duty, cool_parts) = exact_duty(settings.curve, cooler, scale);
            let (warm_duty, warm_parts) = exact_duty(settings.curve, warmer, scale);
            &&& 0 < cool_parts && 0 < warm_parts
            &&& cool_duty * warm_parts <= warm_duty * cool_parts
            &&& settings.curve[0].duty_percent * cool_parts <= cool_duty
            &&& warm_duty <= MAX_DUTY_PERCENT * warm_parts
        }),
{
    let curve = settings.curve;
    let cool_segment = segment_at(curve, ceiling_of(cooler, scale));
    let warm_segment = segment_at(curve, ceiling_of(warmer, scale));
    let (cool_duty, cool_parts) = exact_duty(curve, cooler, scale);
    let (warm_duty, warm_parts) = exact_duty(curve, warmer, scale);
    let first = curve[0].duty_percent as int;
    lemma_ceilings_in_order(cooler, warmer, scale);
    law_curve_rises(settings, ceiling_of(cooler, scale), ceiling_of(warmer, scale));
    lemma_duty_in_range(settings, cooler, scale);
    lemma_duty_in_range(settings, warmer, scale);
    let (cool_least, cool_most) = duty_range(cool_segment);
    let (warm_least, warm_most) = duty_range(warm_segment);
    assert(first * cool_parts <= cool_least * cool_parts) by (nonlinear_arith)
        requires
            first <= cool_least,
            0 < cool_parts,
    ;
    assert(warm_most * warm_parts <= MAX_DUTY_PERCENT * warm_parts) by (nonlinear_arith)
        requires
            warm_most <= MAX_DUTY_PERCENT,
            0 < warm_parts,
    ;
    if cool_segment == warm_segment {
        if let Segment::Slope { lower, upper } = cool_segment {
            let rise = upper.duty_percent - lower.duty_percent;
            let base = lower.temperature_milli_c * scale;
            law_curve_covers_every_temperature(settings, ceiling_of(cooler, scale));
            assert((cooler - base) * rise <= (warmer - base) * rise) by (nonlinear_arith)
                requires
                    cooler <= warmer,
                    0 <= rise,
            ;
            assert(cool_duty * warm_parts <= warm_duty * cool_parts) by (nonlinear_arith)
                requires
                    cool_duty <= warm_duty,
                    cool_parts == warm_parts,
                    0 < cool_parts,
            ;
        }
    } else {
        lemma_fractions_in_order(
            cool_duty,
            cool_parts,
            cool_most as int,
            warm_least as int,
            warm_duty,
            warm_parts,
        );
    }
}

/// At the temperature of a point the exact duty is that of the point.
pub proof fn law_points_are_exact(settings: PolicySettings, i: int, scale: int)
    requires
        settings.valid(),
        0 <= i < settings.curve.len(),
        0 < scale,
    ensures
        ({
            let point = settings.curve[i];
            let (duty, parts) = exact_duty(settings.curve, point.temperature_milli_c * scale, scale);
            &&& 0 < parts
            &&& duty == point.duty_percent * parts
        }),
{
    let point = settings.curve[i];
    let milli_c = point.temperature_milli_c as int;
    lemma_duty_in_range(settings, milli_c * scale, scale);
    assert(ceiling_of(milli_c * scale, scale) == milli_c) by (nonlinear_arith)
        requires
            0 < scale,
            ceiling_of(milli_c * scale, scale) == (milli_c * scale + scale - 1) / scale,
    ;
    law_curve_goes_through_its_points(settings, i);
    if i > 0 {
        let lower = settings.curve[i - 1];
        let low = lower.temperature_milli_c as int;
        let least = lower.duty_percent as int;
        let most = point.duty_percent as int;
        assert(least * ((milli_c - low) * scale) + (milli_c * scale - low * scale) * (most - least) == most * ((
        milli_c - low) * scale)) by (nonlinear_arith);
    }
}

/// The settings are taken exactly where the curve has two points or more, rises
/// in temperature and does not fall in duty, stays within 0 to 120 degrees and
/// 20 to 100 percent, and ends in full duty no later than at the emergency
/// temperature, and the other settings are in range. The first of them that is
/// wrong is told.
pub proof fn law_settings_are_checked_in_order(settings: PolicySettings)
    ensures
        ({
            let curve = settings.curve;
            let curve_is_right = {
                &&& curve.len() >= 2
                &&& forall|i: int, j: int|
                    0 <= i < curve.len() && j == i + 1 && j < curve.len() ==> (
                    #[trigger] curve[i]).temperature_milli_c < (#[trigger] curve[j]).temperature_milli_c
                        && curve[i].duty_percent <= curve[j].duty_percent
                &&& forall|i: int|
                    0 <= i < curve.len() ==> 0 <= (#[trigger] curve[i]).temperature_milli_c <= 120_000 && 20
                        <= curve[i].duty_percent <= 100
                &&& curve[curve.len() - 1].duty_percent == 100
                &&& curve[curve.len() - 1].temperature_milli_c <= settings.emergency_temperature_milli_c
            };
            let smoothing_is_right = settings.smoothing_seconds <= 60;
            let step_is_right = 1 <= settings.duty_step_percent <= 20;
            let band_is_right = settings.duty_hysteresis_percent <= 20;
            let ramps_are_right = 1 <= settings.ramp_up_percent_per_second <= 100 && 1
                <= settings.ramp_down_percent_per_second <= 100;
            let emergency_is_right = 50_000 <= settings.emergency_temperature_milli_c <= 90_000;
            match settings.checked() {
                Ok(()) => curve_is_right && smoothing_is_right && step_is_right && band_is_right
                    && ramps_are_right && emergency_is_right,
                Err(PolicyConfigError::InvalidCurve) => !curve_is_right,
                Err(PolicyConfigError::InvalidSmoothing) => curve_is_right && !smoothing_is_right,
                Err(PolicyConfigError::InvalidDutyStep) => curve_is_right && smoothing_is_right
                    && !step_is_right,
                Err(PolicyConfigError::InvalidHysteresis) => curve_is_right && smoothing_is_right
                    && step_is_right && !band_is_right,
                Err(PolicyConfigError::InvalidRamp) => curve_is_right && smoothing_is_right && step_is_right
                    && band_is_right && !ramps_are_right,
                Err(PolicyConfigError::InvalidEmergencyTemperature) => curve_is_right && smoothing_is_right
                    && step_is_right && band_is_right && ramps_are_right && !emergency_is_right,
            }
        }),
{
    let curve = settings.curve;
    if forall|i: int, j: int|
        0 <= i < curve.len() && j == i + 1 && j < curve.len() ==> (#[trigger] curve[i]).temperature_milli_c < (
        #[trigger] curve[j]).temperature_milli_c && curve[i].duty_percent <= curve[j].duty_percent {
        assert forall|i: int, j: int| 0 <= i < j < curve.len() implies (
        #[trigger] curve[i]).temperature_milli_c < (#[trigger] curve[j]).temperature_milli_c
            && curve[i].duty_percent <= curve[j].duty_percent by {
            lemma_rises_throughout(curve, i, j);
        }
    }
}

proof fn lemma_rises_throughout(curve: Seq<CurvePoint>, i: int, j: int)
    requires
        0 <= i < j < curve.len(),
        forall|a: int, b: int|
            0 <= a < curve.len() && b == a + 1 && b < curve.len() ==> (
            #[trigger] curve[a]).temperature_milli_c < (#[trigger] curve[b]).temperature_milli_c
                && curve[a].duty_percent <= curve[b].duty_percent,
    ensures
        curve[i].temperature_milli_c < curve[j].temperature_milli_c,
        curve[i].duty_percent <= curve[j].duty_percent,
    decreases j - i,
{
    let k = j - 1;
    assert(curve[k].temperature_milli_c < curve[j].temperature_milli_c && curve[k].duty_percent
        <= curve[j].duty_percent);
    if i < k {
        lemma_rises_throughout(curve, i, k);
    }
}

/// What a measured temperature leads to. At the emergency temperature and above,
/// and only there, full duty is the target and is commanded. Below it both stay
/// as they are, and the first temperature is taken as it is, as is every one
/// where nothing is to be smoothed.
pub proof fn law_sample_is_taken(state: PolicyState, temperature_milli_c: i32)
    ensures
        ({
            let (next, action) = transition(state, PolicyEvent::Sample { temperature_milli_c });
            &&& next.settings == state.settings
            &&& if temperature_milli_c >= state.settings.emergency_temperature_milli_c {
                action == PolicyAction::Emergency && next.sampled && next.target == 100 && next.commanded == 100
            } else {
                &&& next.target == state.target && next.commanded == state.commanded && next.sampled
                &&& if state.sampled && state.settings.smoothing_seconds >= 1 {
                    action == PolicyAction::Blend { smoothing_seconds: state.settings.smoothing_seconds }
                } else {
                    action == PolicyAction::TakeSample
                }
            }
        }),
{
}

/// A smoothed temperature is looked up on the curve: up to the first point it
/// gets the first duty, above the last point the last duty, and in between the
/// two neighbouring points that it lies between. Nothing else changes.
pub proof fn law_temperature_is_looked_up(state: PolicyState, ceiling_milli_c: i64)
    requires
        state.well_formed(),
    ensures
        ({
            let curve = state.settings.curve;
            let last = curve[curve.len() - 1];
            let (next, action) = transition(state, PolicyEvent::Smoothed { ceiling_milli_c });
            &&& next == state
            &&& action is Interpolate
            &&& action->Interpolate_step_percent == state.settings.duty_step_percent
            &&& ceiling_milli_c <= curve[0].temperature_milli_c ==> action->segment == (Segment::Level {
                duty_percent: curve[0].duty_percent,
            })
            &&& ceiling_milli_c > last.temperature_milli_c ==> action->segment == (Segment::Level {
                duty_percent: last.duty_percent,
            })
            &&& forall|i: int, j: int|
                0 <= i < curve.len() && j == i + 1 && j < curve.len() && (
                #[trigger] curve[i]).temperature_milli_c < ceiling_milli_c <= (
                #[trigger] curve[j]).temperature_milli_c ==> action->segment == (Segment::Slope {
                    lower: curve[i],
                    upper: curve[j],
                })
        }),
{
    let curve = state.settings.curve;
    let c = ceiling_milli_c as int;
    law_curve_covers_every_temperature(state.settings, c);
    let last = curve.len() - 1;
    assert(curve[0].temperature_milli_c < curve[last].temperature_milli_c);
    assert forall|i: int, j: int|
        0 <= i < curve.len() && j == i + 1 && j < curve.len() && (#[trigger] curve[i]).temperature_milli_c < c <= (
        #[trigger] curve[j]).temperature_milli_c implies segment_at(curve, c) == (Segment::Slope {
        lower: curve[i],
        upper: curve[j],
    }) by {
        lemma_in_temperature_order(state.settings, 0, i);
        lemma_in_temperature_order(state.settings, j, last);
        if let Segment::Slope { lower, upper } = segment_at(curve, c) {
            let k = choose|k: int| 0 <= k < curve.len() - 1 && lower == #[trigger] curve[k] && upper == curve[k + 1];
            if k < i {
                lemma_in_temperature_order(state.settings, k + 1, i);
            } else if i < k {
                lemma_in_temperature_order(state.settings, i + 1, k);
            }
        }
    }
    if c > curve[last].temperature_milli_c {
        if let Segment::Slope { lower, upper } = segment_at(curve, c) {
            let k = choose|k: int| 0 <= k < curve.len() - 1 && lower == #[trigger] curve[k] && upper == curve[k + 1];
            lemma_in_temperature_order(state.settings, k + 1, last);
        }
    }
}

/// What the duty that the curve asks for does to the target. Within the band
/// the target stays. Outside it the target is the nearest whole number of steps
/// where that lies between 20 and 100 percent, and otherwise the nearer of these
/// two. The commanded duty and the rest stay as they are.
pub proof fn law_target_is_the_nearest_step(
    state: PolicyState,
    floor_percent: i64,
    ceiling_percent: i64,
    nearest_steps: i64,
)
    ensures
        ({
            let next = transition(
                state,
                PolicyEvent::Desired { floor_percent, ceiling_percent, nearest_steps },
            ).0;
            let band = state.settings.duty_hysteresis_percent;
            let asked = nearest_steps * state.settings.duty_step_percent;
            &&& next.settings == state.settings && next.sampled == state.sampled && next.commanded
                == state.commanded
            &&& if floor_percent >= state.target + band || ceiling_percent <= state.target - band {
                &&& 20 <= next.target <= 100
                &&& 20 <= asked <= 100 ==> next.target == asked
                &&& next.target == 20 <==> asked <= 20
                &&& next.target == 100 <==> asked >= 100
            } else {
                next.target == state.target
            }
        }),
{
}

/// A new target is within half a step of the duty that was asked for, where that
/// lies between 20 and 100 percent. The duty is `asked` parts, of which there
/// are `parts` in a percent.
pub proof fn law_new_target_is_near_the_asked_duty(
    state: PolicyState,
    floor_percent: i64,
    ceiling_percent: i64,
    nearest_steps: i64,
    asked: int,
    parts: int,
)
    requires
        0 < parts,
        floor_percent >= state.target + state.settings.duty_hysteresis_percent || ceiling_percent
            <= state.target - state.settings.duty_hysteresis_percent,
        20 * parts <= asked <= 100 * parts,
        -(state.settings.duty_step_percent * parts) <= 2 * (nearest_steps * state.settings.duty_step_percent
            * parts - asked) <= state.settings.duty_step_percent * parts,
    ensures
        ({
            let target = transition(
                state,
                PolicyEvent::Desired { floor_percent, ceiling_percent, nearest_steps },
            ).0.target;
            -(state.settings.duty_step_percent * parts) <= 2 * (target * parts - asked)
                <= state.settings.duty_step_percent * parts
        }),
{
    law_target_is_the_nearest_step(state, floor_percent, ceiling_percent, nearest_steps);
    let target = transition(
        state,
        PolicyEvent::Desired { floor_percent, ceiling_percent, nearest_steps },
    ).0.target as int;
    let product = nearest_steps * state.settings.duty_step_percent;
    assert(target == 20 && product <= 20 ==> product * parts <= target * parts <= asked) by (nonlinear_arith)
        requires
            0 < parts,
            20 * parts <= asked,
    ;
    assert(target == 100 && product >= 100 ==> asked <= target * parts <= product * parts) by (nonlinear_arith)
        requires
            0 < parts,
            asked <= 100 * parts,
    ;
}

/// Once the curve has asked for a duty, a commanded duty that is the target is
/// held. Otherwise the budget grows at the rate of the direction in which the
/// target lies, and is dropped where the target has changed.
pub proof fn law_ramp_follows_the_direction(
    state: PolicyState,
    floor_percent: i64,
    ceiling_percent: i64,
    nearest_steps: i64,
)
    ensures
        ({
            let (next, action) = transition(
                state,
                PolicyEvent::Desired { floor_percent, ceiling_percent, nearest_steps },
            );
            let settings = state.settings;
            &&& next.target == state.commanded ==> action == (PolicyAction::Hold {
                duty_percent: state.commanded,
            })
            &&& next.target > state.commanded ==> action == (PolicyAction::Accrue {
                drop_budget: next.target != state.target,
                percent_per_second: settings.ramp_up_percent_per_second,
                step_percent: settings.duty_step_percent,
            })
            &&& next.target < state.commanded ==> action == (PolicyAction::Accrue {
                drop_budget: next.target != state.target,
                percent_per_second: settings.ramp_down_percent_per_second,
                step_percent: settings.duty_step_percent,
            })
        }),
{
}

/// The commanded duty takes all the steps that the budget is good for, towards
/// the target, and stops there. What it moved by is spent, and the rest stays as
/// it is.
pub proof fn law_budget_is_used_up(state: PolicyState, available_steps: u8)
    requires
        state.well_formed(),
    ensures
        ({
            let (next, action) = transition(state, PolicyEvent::Budget { available_steps });
            let allowed = available_steps * state.settings.duty_step_percent;
            &&& next.settings == state.settings && next.sampled == state.sampled && next.target == state.target
            &&& state.target >= state.commanded ==> {
                &&& allowed >= state.target - state.commanded ==> next.commanded == state.target
                &&& allowed < state.target - state.commanded ==> next.commanded == state.commanded + allowed
                &&& action == (PolicyAction::Command {
                    duty_percent: next.commanded,
                    spent_percent: (next.commanded - state.commanded) as u8,
                })
            }
            &&& state.target <= state.commanded ==> {
                &&& allowed >= state.commanded - state.target ==> next.commanded == state.target
                &&& allowed < state.commanded - state.target ==> next.commanded == state.commanded - allowed
                &&& action == (PolicyAction::Command {
                    duty_percent: next.commanded,
                    spent_percent: (state.commanded - next.commanded) as u8,
                })
            }
        }),
{
    assert(0 <= available_steps * state.settings.duty_step_percent) by (nonlinear_arith)
        requires
            0 <= available_steps,
            0 <= state.settings.duty_step_percent,
    ;
}

/// A curve is read point by point: the fields between the commas give one point
/// each, made of the temperature before the colon, rounded, and the duty behind
/// it. White space round a field, a temperature or a duty does not count.
pub proof fn law_curve_is_read_point_by_point(
    fields: Seq<Seq<char>>,
    reading: spec_fn(Seq<char>) -> Option<MilliCelsius>,
    i: int,
    front: Seq<char>,
    temperature: Seq<char>,
    behind_temperature: Seq<char>,
    before_duty: Seq<char>,
    duty: Seq<char>,
    behind: Seq<char>,
)
    requires
        fields.len() > 0,
        forall|k: int| 0 <= k < fields.len() ==> !(#[trigger] fields[k]).contains(','),
        0 <= i < fields.len(),
        text::is_blank(front) && text::is_blank(behind_temperature) && text::is_blank(before_duty)
            && text::is_blank(behind),
        !temperature.contains(':'),
        fields[i] == (front + temperature + behind_temperature) + seq![':'] + (before_duty + duty + behind),
    ensures
        ({
            let milli_c = reading(text::trimmed(temperature));
            let percent = numbers::unsigned_number(text::trimmed(duty), 255);
            match curve_in(text::joined(fields, ','), reading) {
                Some(curve) => {
                    &&& curve.len() == fields.len()
                    &&& milli_c is Some && percent is Some
                    &&& curve[i].temperature_milli_c == milli_c->0.nearest
                    &&& curve[i].duty_percent == percent->0
                },
                None => fields.len() == 1 ==> {
                    ||| milli_c is None
                    ||| percent is None
                    ||| milli_c->0.nearest < -0x8000_0000
                    ||| milli_c->0.nearest > 0x7fff_ffff
                },
            }
        }),
{
    let left = front + temperature + behind_temperature;
    let right = before_duty + duty + behind;
    text::law_pieces_are_what_was_joined(fields, ',');
    text::lemma_trimmed_around(left, ':', right);
    text::lemma_trimmed_padded(front, temperature, behind_temperature);
    text::lemma_trimmed_padded(before_duty, duty, behind);
    text::lemma_trimmed_again(left);
    text::lemma_trimmed_again(right);
    let start = text::trim_start(left);
    assert(!left.contains(':')) by {
        assert forall|k: int| 0 <= k < left.len() implies left[k] != ':' by {
            if k < front.len() {
                assert(left[k] == front[k]);
                assert(text::is_white_space(front[k]));
            } else if k < front.len() + temperature.len() {
                assert(left[k] == temperature[k - front.len()]);
                assert(temperature.contains(temperature[k - front.len()]));
            } else {
                let j = k - front.len() - temperature.len();
                assert(left[k] == behind_temperature[j]);
                assert(text::is_white_space(behind_temperature[j]));
            }
        }
    }
    assert(!start.contains(':'));
    text::lemma_pieces_step(start, ':', text::trim_end(right));
    let point = curve_point(fields[i], reading);
    assert(curve_in(text::joined(fields, ','), reading) is Some ==> point is Some);
}

/// A curve of more fields is the curves of its parts in a row, and is read
/// exactly where they are.
pub proof fn law_curves_are_read_in_a_row(
    front: Seq<Seq<char>>,
    behind: Seq<Seq<char>>,
    reading: spec_fn(Seq<char>) -> Option<MilliCelsius>,
)
    requires
        front.len() > 0,
        behind.len() > 0,
        forall|k: int| 0 <= k < front.len() ==> !(#[trigger] front[k]).contains(','),
        forall|k: int| 0 <= k < behind.len() ==> !(#[trigger] behind[k]).contains(','),
    ensures
        curve_in(text::joined(front + behind, ','), reading) == match (
            curve_in(text::joined(front, ','), reading),
            curve_in(text::joined(behind, ','), reading),
        ) {
            (Some(first), Some(second)) => Some(first + second),
            _ => None,
        },
{
    let all = front + behind;
    assert forall|k: int| 0 <= k < all.len() implies !(#[trigger] all[k]).contains(',') by {
        if k < front.len() {
            assert(all[k] == front[k]);
        } else {
            assert(all[k] == behind[k - front.len()]);
        }
    }
    text::law_pieces_are_what_was_joined(all, ',');
    text::law_pieces_are_what_was_joined(front, ',');
    text::law_pieces_are_what_was_joined(behind, ',');
    let first = curve_in(text::joined(front, ','), reading);
    let second = curve_in(text::joined(behind, ','), reading);
    let whole = curve_in(text::joined(all, ','), reading);
    if first is Some && second is Some {
        assert forall|k: int| 0 <= k < all.len() implies curve_point(#[trigger] all[k], reading) is Some by {
            if k < front.len() {
                assert(all[k] == front[k]);
            } else {
                assert(all[k] == behind[k - front.len()]);
            }
        }
        assert(whole->0 =~= first->0 + second->0);
    } else if first is None {
        let k = choose|k: int| 0 <= k < front.len() && curve_point(#[trigger] front[k], reading) is None;
        assert(all[k] == front[k]);
    } else {
        let k = choose|k: int| 0 <= k < behind.len() && curve_point(#[trigger] behind[k], reading) is None;
        assert(all[front.len() + k] == behind[k]);
    }
}

/// A policy begins at full duty, and takes the first temperature as it is unless
/// it is an emergency.
pub proof fn law_policy_begins_at_full_duty(settings: PolicySettings, temperature_milli_c: i32)
    ensures
        ({
            let state = first_state(settings);
            let (next, action) = transition(state, PolicyEvent::Sample { temperature_milli_c });
            &&& state.settings == settings
            &&& state.target == 100 && state.commanded == 100
            &&& next.target == 100 && next.commanded == 100 && next.sampled
            &&& action == if temperature_milli_c >= settings.emergency_temperature_milli_c {
                PolicyAction::Emergency
            } else {
                PolicyAction::TakeSample
            }
        }),
{
}

} // verus!
