use std::time::Duration;

use laptop_cooler::policy::{
    parse_curve, CurvePoint, FanPolicy, FanPolicyConfig, MilliCelsius, PolicyAction,
    PolicyConfigError, PolicyEvent, Segment,
};

fn read_milli_c(value: &str) -> Option<MilliCelsius> {
    let celsius = value.parse::<f64>().ok()?;
    if !celsius.is_finite() {
        return None;
    }
    let milli_c = celsius * 1_000.0;
    Some(MilliCelsius {
        floor: milli_c.floor() as i64,
        nearest: milli_c.round() as i64,
        ceiling: milli_c.ceil() as i64,
    })
}

struct Driver {
    policy: FanPolicy,
    smoothed_milli_c: f64,
    budget_percent: f64,
}

impl Driver {
    fn new(config: FanPolicyConfig) -> Result<Self, PolicyConfigError> {
        Ok(Driver {
            policy: FanPolicy::new(config)?,
            smoothed_milli_c: 0.0,
            budget_percent: 0.0,
        })
    }

    fn update(&mut self, temperature_milli_c: i32, elapsed: Duration) -> u8 {
        let raw = f64::from(temperature_milli_c);
        let seconds = elapsed.as_secs_f64();
        let mut event = PolicyEvent::Sample {
            temperature_milli_c,
        };
        loop {
            event = match self.policy.update(event) {
                PolicyAction::Emergency => {
                    self.smoothed_milli_c = raw;
                    self.budget_percent = 0.0;
                    return 100;
                }
                PolicyAction::TakeSample => {
                    self.smoothed_milli_c = raw;
                    self.smoothed()
                }
                PolicyAction::Blend { smoothing_seconds } => {
                    let weight = seconds / (f64::from(smoothing_seconds) + seconds);
                    self.smoothed_milli_c += weight * (raw - self.smoothed_milli_c);
                    self.smoothed()
                }
                PolicyAction::Interpolate {
                    segment,
                    step_percent,
                } => {
                    let desired = match segment {
                        Segment::Level { duty_percent } => f64::from(duty_percent),
                        Segment::Slope { lower, upper } => {
                            let span =
                                f64::from(upper.temperature_milli_c - lower.temperature_milli_c);
                            let position = (self.smoothed_milli_c
                                - f64::from(lower.temperature_milli_c))
                                / span;
                            f64::from(lower.duty_percent)
                                + position * f64::from(upper.duty_percent - lower.duty_percent)
                        }
                    };
                    PolicyEvent::Desired {
                        floor_percent: desired.floor() as i64,
                        ceiling_percent: desired.ceil() as i64,
                        nearest_steps: (desired / f64::from(step_percent)).round() as i64,
                    }
                }
                PolicyAction::Hold { duty_percent } => {
                    self.budget_percent = 0.0;
                    return duty_percent;
                }
                PolicyAction::Accrue {
                    drop_budget,
                    percent_per_second,
                    step_percent,
                } => {
                    if drop_budget {
                        self.budget_percent = 0.0;
                    }
                    self.budget_percent += f64::from(percent_per_second) * seconds;
                    PolicyEvent::Budget {
                        available_steps: (self.budget_percent / f64::from(step_percent)).floor()
                            as u8,
                    }
                }
                PolicyAction::Command {
                    duty_percent,
                    spent_percent,
                } => {
                    self.budget_percent -= f64::from(spent_percent);
                    return duty_percent;
                }
            };
        }
    }

    fn smoothed(&self) -> PolicyEvent {
        PolicyEvent::Smoothed {
            ceiling_milli_c: self.smoothed_milli_c.ceil() as i64,
        }
    }
}

#[test]
fn holds_small_fluctuations_after_reaching_a_quantized_target() {
    let mut policy = Driver::new(FanPolicyConfig {
        smoothing_seconds: 0,
        ramp_down_percent_per_second: 100,
        ..FanPolicyConfig::default()
    })
    .unwrap();

    assert_eq!(policy.update(60_000, Duration::from_secs(1)), 50);
    assert_eq!(policy.update(60_500, Duration::from_secs(1)), 50);
    assert_eq!(policy.update(59_500, Duration::from_secs(1)), 50);
}

#[test]
fn ramps_up_faster_than_down() {
    let mut policy = Driver::new(FanPolicyConfig {
        smoothing_seconds: 0,
        ramp_down_percent_per_second: 100,
        ..FanPolicyConfig::default()
    })
    .unwrap();
    assert_eq!(policy.update(50_000, Duration::from_secs(1)), 35);
    assert_eq!(policy.update(75_000, Duration::from_secs(1)), 45);
    assert_eq!(policy.update(75_000, Duration::from_secs(1)), 55);
}

#[test]
fn emergency_temperature_bypasses_smoothing_and_slew() {
    let mut policy = Driver::new(FanPolicyConfig::default()).unwrap();
    policy.update(50_000, Duration::from_secs(30));
    assert!(policy.update(50_000, Duration::from_secs(1)) < 100);
    assert_eq!(policy.update(80_000, Duration::from_millis(250)), 100);
}

#[test]
fn rejects_non_monotonic_curve() {
    let mut config = FanPolicyConfig::default();
    config.curve = parse_curve("50:50,40:70,80:100", &read_milli_c).unwrap();
    assert_eq!(config.validate(), Err(PolicyConfigError::InvalidCurve));
}

#[test]
fn default_curve_is_the_written_one() {
    let written = parse_curve("45:25,55:40,65:60,75:80,80:100", &read_milli_c).unwrap();
    let config = FanPolicyConfig::default();
    assert_eq!(config.curve, written);
    assert_eq!(config.smoothing_seconds, 5);
    assert_eq!(config.duty_step_percent, 5);
    assert_eq!(config.duty_hysteresis_percent, 5);
    assert_eq!(config.ramp_up_percent_per_second, 10);
    assert_eq!(config.ramp_down_percent_per_second, 2);
    assert_eq!(config.emergency_temperature_milli_c, 80_000);
    assert_eq!(config.validate(), Ok(()));
    assert_eq!(config.clone(), config);
}

#[test]
fn curve_fields_are_trimmed_and_rounded() {
    assert_eq!(
        parse_curve(" 45.0004 : 25 ,1e1:+7", &read_milli_c),
        Ok(vec![
            CurvePoint { temperature_milli_c: 45_000, duty_percent: 25 },
            CurvePoint { temperature_milli_c: 10_000, duty_percent: 7 },
        ])
    );
    assert_eq!(
        parse_curve("-0.0006:0", &read_milli_c),
        Ok(vec![CurvePoint { temperature_milli_c: -1, duty_percent: 0 }])
    );
    assert_eq!(
        parse_curve("2147483.6474:1", &read_milli_c),
        Ok(vec![CurvePoint { temperature_milli_c: i32::MAX, duty_percent: 1 }])
    );
}

#[test]
fn curve_fields_that_are_no_points_are_refused() {
    for value in [
        "", "45", "45:", ":25", "45:256", "45:-1", "x:25", "inf:25", "NaN:25", "45:25,", "45:25:30",
        "2147483.648:25", "-2147484:25", "1e300:25",
    ] {
        assert_eq!(
            parse_curve(value, &read_milli_c),
            Err(PolicyConfigError::InvalidCurve),
            "{value}"
        );
    }
}

fn with_curve(points: &[(i32, u8)]) -> FanPolicyConfig {
    let mut config = FanPolicyConfig::default();
    config.curve = Vec::new();
    for point in points {
        config.curve.push(CurvePoint {
            temperature_milli_c: point.0,
            duty_percent: point.1,
        });
    }
    config
}

#[test]
fn each_setting_has_its_error() {
    let curve = Err(PolicyConfigError::InvalidCurve);
    assert_eq!(with_curve(&[]).validate(), curve);
    assert_eq!(with_curve(&[(80_000, 100)]).validate(), curve);
    assert_eq!(with_curve(&[(0, 20), (80_000, 100)]).validate(), Ok(()));
    assert_eq!(with_curve(&[(-1, 20), (80_000, 100)]).validate(), curve);
    assert_eq!(with_curve(&[(0, 19), (80_000, 100)]).validate(), curve);
    assert_eq!(with_curve(&[(0, 20), (80_001, 100)]).validate(), curve);
    assert_eq!(with_curve(&[(0, 20), (80_000, 99)]).validate(), curve);
    assert_eq!(with_curve(&[(0, 20), (80_000, 101)]).validate(), curve);
    assert_eq!(with_curve(&[(0, 20), (0, 30), (80_000, 100)]).validate(), curve);
    assert_eq!(with_curve(&[(0, 30), (1, 20), (80_000, 100)]).validate(), curve);
    assert_eq!(with_curve(&[(0, 30), (1, 30), (80_000, 100)]).validate(), Ok(()));

    let mut config = FanPolicyConfig::default();
    config.smoothing_seconds = 61;
    assert_eq!(config.validate(), Err(PolicyConfigError::InvalidSmoothing));
    config.smoothing_seconds = 60;
    config.duty_step_percent = 0;
    assert_eq!(config.validate(), Err(PolicyConfigError::InvalidDutyStep));
    config.duty_step_percent = 21;
    assert_eq!(config.validate(), Err(PolicyConfigError::InvalidDutyStep));
    config.duty_step_percent = 20;
    config.duty_hysteresis_percent = 21;
    assert_eq!(config.validate(), Err(PolicyConfigError::InvalidHysteresis));
    config.duty_hysteresis_percent = 0;
    config.ramp_up_percent_per_second = 0;
    assert_eq!(config.validate(), Err(PolicyConfigError::InvalidRamp));
    config.ramp_up_percent_per_second = 100;
    config.ramp_down_percent_per_second = 101;
    assert_eq!(config.validate(), Err(PolicyConfigError::InvalidRamp));
    config.ramp_down_percent_per_second = 1;
    config.emergency_temperature_milli_c = 90_001;
    assert_eq!(
        config.validate(),
        Err(PolicyConfigError::InvalidEmergencyTemperature)
    );
    config.emergency_temperature_milli_c = 90_000;
    assert_eq!(config.validate(), Ok(()));
    let mut cool = with_curve(&[(0, 20), (40_000, 100)]);
    cool.emergency_temperature_milli_c = 49_999;
    assert_eq!(
        cool.validate(),
        Err(PolicyConfigError::InvalidEmergencyTemperature)
    );
    assert!(matches!(
        FanPolicy::new(cool),
        Err(PolicyConfigError::InvalidEmergencyTemperature)
    ));
}

#[test]
fn policy_error_messages() {
    assert_eq!(
        PolicyConfigError::InvalidCurve.message(),
        "curve must contain increasing temperature:duty points and end at 100% no later than the emergency temperature"
    );
    assert_eq!(
        PolicyConfigError::InvalidSmoothing.message(),
        "smoothing_seconds must be between 0 and 60"
    );
    assert_eq!(
        PolicyConfigError::InvalidDutyStep.message(),
        "duty_step_percent must be between 1 and 20"
    );
    assert_eq!(
        PolicyConfigError::InvalidHysteresis.message(),
        "duty_hysteresis_percent must be between 0 and 20"
    );
    assert_eq!(
        PolicyConfigError::InvalidRamp.message(),
        "ramp rates must be between 1 and 100 percent per second"
    );
    assert_eq!(
        PolicyConfigError::InvalidEmergencyTemperature.message(),
        "emergency_temperature_c must be between 50 and 90"
    );
}

#[test]
fn policy_goes_from_event_to_action() {
    let mut policy = FanPolicy::new(FanPolicyConfig::default()).unwrap();
    let sample = PolicyEvent::Sample { temperature_milli_c: 60_000 };
    assert_eq!(policy.update(sample), PolicyAction::TakeSample);
    assert_eq!(
        policy.update(PolicyEvent::Smoothed { ceiling_milli_c: 60_000 }),
        PolicyAction::Interpolate {
            segment: Segment::Slope {
                lower: CurvePoint { temperature_milli_c: 55_000, duty_percent: 40 },
                upper: CurvePoint { temperature_milli_c: 65_000, duty_percent: 60 },
            },
            step_percent: 5,
        }
    );
    assert_eq!(
        policy.update(PolicyEvent::Desired {
            floor_percent: 50,
            ceiling_percent: 50,
            nearest_steps: 10,
        }),
        PolicyAction::Accrue { drop_budget: true, percent_per_second: 2, step_percent: 5 }
    );
    assert_eq!(
        policy.update(PolicyEvent::Budget { available_steps: 0 }),
        PolicyAction::Command { duty_percent: 100, spent_percent: 0 }
    );
    assert_eq!(
        policy.update(PolicyEvent::Budget { available_steps: 2 }),
        PolicyAction::Command { duty_percent: 90, spent_percent: 10 }
    );
    assert_eq!(policy.update(sample), PolicyAction::Blend { smoothing_seconds: 5 });
    // Inside the band the target stays at 50, and so does the ramp.
    assert_eq!(
        policy.update(PolicyEvent::Desired {
            floor_percent: 54,
            ceiling_percent: 55,
            nearest_steps: 11,
        }),
        PolicyAction::Accrue { drop_budget: false, percent_per_second: 2, step_percent: 5 }
    );
    // More than enough budget reaches the target and does not pass it.
    assert_eq!(
        policy.update(PolicyEvent::Budget { available_steps: 255 }),
        PolicyAction::Command { duty_percent: 50, spent_percent: 40 }
    );
    assert_eq!(
        policy.update(PolicyEvent::Desired {
            floor_percent: 50,
            ceiling_percent: 51,
            nearest_steps: 10,
        }),
        PolicyAction::Hold { duty_percent: 50 }
    );
    assert_eq!(
        policy.update(PolicyEvent::Desired {
            floor_percent: 55,
            ceiling_percent: 56,
            nearest_steps: 11,
        }),
        PolicyAction::Accrue { drop_budget: true, percent_per_second: 10, step_percent: 5 }
    );
    assert_eq!(
        policy.update(PolicyEvent::Sample { temperature_milli_c: 80_000 }),
        PolicyAction::Emergency
    );
    assert_eq!(
        policy.update(PolicyEvent::Budget { available_steps: 9 }),
        PolicyAction::Command { duty_percent: 100, spent_percent: 0 }
    );
}

#[test]
fn curve_is_level_at_its_ends() {
    let mut policy = FanPolicy::new(FanPolicyConfig::default()).unwrap();
    assert_eq!(
        policy.update(PolicyEvent::Smoothed { ceiling_milli_c: 45_000 }),
        PolicyAction::Interpolate {
            segment: Segment::Level { duty_percent: 25 },
            step_percent: 5,
        }
    );
    assert_eq!(
        policy.update(PolicyEvent::Smoothed { ceiling_milli_c: 80_001 }),
        PolicyAction::Interpolate {
            segment: Segment::Level { duty_percent: 100 },
            step_percent: 5,
        }
    );
    assert_eq!(
        policy.update(PolicyEvent::Smoothed { ceiling_milli_c: 80_000 }),
        PolicyAction::Interpolate {
            segment: Segment::Slope {
                lower: CurvePoint { temperature_milli_c: 75_000, duty_percent: 80 },
                upper: CurvePoint { temperature_milli_c: 80_000, duty_percent: 100 },
            },
            step_percent: 5,
        }
    );
}

#[test]
fn quantized_duties_stay_in_range() {
    let mut policy = FanPolicy::new(FanPolicyConfig::default()).unwrap();
    policy.update(PolicyEvent::Desired {
        floor_percent: 0,
        ceiling_percent: 0,
        nearest_steps: i64::MIN,
    });
    assert_eq!(
        policy.update(PolicyEvent::Budget { available_steps: 100 }),
        PolicyAction::Command { duty_percent: 20, spent_percent: 80 }
    );
    policy.update(PolicyEvent::Desired {
        floor_percent: 1000,
        ceiling_percent: 1000,
        nearest_steps: i64::MAX,
    });
    assert_eq!(
        policy.update(PolicyEvent::Budget { available_steps: 3 }),
        PolicyAction::Command { duty_percent: 35, spent_percent: 15 }
    );
    policy.update(PolicyEvent::Desired {
        floor_percent: 48,
        ceiling_percent: 48,
        nearest_steps: 9,
    });
    assert_eq!(
        policy.update(PolicyEvent::Budget { available_steps: 100 }),
        PolicyAction::Command { duty_percent: 45, spent_percent: 10 }
    );
}

#[test]
fn duty_moves_no_faster_than_the_ramp() {
    let config = FanPolicyConfig {
        smoothing_seconds: 0,
        ..FanPolicyConfig::default()
    };
    let mut policy = Driver::new(config).unwrap();
    let mut before = 100_u8;
    let temperatures = [45_000, 79_000, 50_000, 50_000, 75_000, 60_000, 62_000, 45_000];
    for round in 0..200_usize {
        let millis = [0_u64, 130, 250, 1_000, 2_700][round % 5];
        let temperature = temperatures[(round / 7) % temperatures.len()];
        let duty = policy.update(temperature, Duration::from_millis(millis));
        let rate = if duty > before { 10 } else { 2 };
        let moved = u64::from(duty.abs_diff(before));
        assert!(moved * 1_000 <= rate * millis + 5_000, "{before} {duty} {millis}");
        assert!(millis > 0 || duty == before);
        before = duty;
    }
}

#[test]
fn warmer_temperatures_fall_on_higher_segments() {
    let mut policy = FanPolicy::new(FanPolicyConfig::default()).unwrap();
    let mut last = (25_u8, 25_u8);
    for ceiling_milli_c in (40_000_i64..=85_000).step_by(500) {
        let range = match policy.update(PolicyEvent::Smoothed { ceiling_milli_c }) {
            PolicyAction::Interpolate { segment: Segment::Level { duty_percent }, .. } => {
                (duty_percent, duty_percent)
            }
            PolicyAction::Interpolate { segment: Segment::Slope { lower, upper }, .. } => {
                (lower.duty_percent, upper.duty_percent)
            }
            other => panic!("unexpected action: {other:?}"),
        };
        assert!(range == last || last.1 <= range.0);
        last = range;
    }
    assert_eq!(last, (100, 100));
}
