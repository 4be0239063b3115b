use hx711::{Gain, InvalidGain, HX711};

#[test]
fn gain_128_takes_one_pulse() {
    assert_eq!(Gain::from_factor(128), Ok(Gain::X128));
    assert_eq!(Gain::X128.pulses(), 1);
    assert_eq!(Gain::X128.factor(), 128);
}

#[test]
fn gain_64_takes_two_pulses() {
    assert_eq!(Gain::from_factor(64), Ok(Gain::X64));
    assert_eq!(Gain::X64.pulses(), 2);
    assert_eq!(Gain::X64.factor(), 64);
}

#[test]
fn gain_32_takes_three_pulses() {
    assert_eq!(Gain::from_factor(32), Ok(Gain::X32));
    assert_eq!(Gain::X32.pulses(), 3);
    assert_eq!(Gain::X32.factor(), 32);
}

#[test]
fn other_factors_are_no_gain() {
    for factor in [0u32, 1, 2, 3, 16, 31, 33, 63, 65, 127, 129, 256, u32::MAX] {
        assert_eq!(Gain::from_factor(factor), Err(InvalidGain { factor }));
    }
}

#[test]
fn only_three_factors_are_gains() {
    let mut accepted = Vec::new();
    for factor in 0u32..1024 {
        if Gain::from_factor(factor).is_ok() {
            accepted.push(factor);
        }
    }
    assert_eq!(accepted, vec![32, 64, 128]);
}

#[test]
fn driver_with_a_valid_gain_is_made() {
    for (factor, gain) in [(128u32, Gain::X128), (64, Gain::X64), (32, Gain::X32)] {
        let driver = HX711::new(factor).unwrap();
        assert_eq!(driver.gain(), gain);
        assert_eq!(driver.get_offset(), 0);
        assert_eq!(driver.get_last(), 0);
        assert!(driver.is_idle());
    }
}

#[test]
fn driver_with_an_invalid_gain_is_refused() {
    for factor in [0u32, 1, 100, 127, 255, 4096] {
        match HX711::new(factor) {
            Ok(_) => panic!("a gain of {} was taken", factor),
            Err(refused) => assert_eq!(refused, InvalidGain { factor }),
        }
    }
}
