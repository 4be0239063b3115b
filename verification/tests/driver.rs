use hx711::{Command, Gain, Level, HX711, PULSE_WIDTH_US};

/// A converter at the other end of the lines. While it has a conversion
/// for the host it holds the data line low; each rising clock edge then puts
/// the next bit on the data line, most significant first, and the pulses
/// after the 24th tell it the gain for the next conversion.
struct Converter {
    field: u32,
    busy_polls: u32,
    clock: Level,
    data: Level,
    rises: u32,
    held_us: u32,
    done: Vec<Command>,
}

impl Converter {
    fn ready_with(field: u32) -> Converter {
        Converter::ready_after(0, field)
    }

    fn ready_after(busy_polls: u32, field: u32) -> Converter {
        Converter {
            field,
            busy_polls,
            clock: Level::Low,
            data: if busy_polls == 0 { Level::Low } else { Level::High },
            rises: 0,
            held_us: 0,
            done: Vec::new(),
        }
    }

    fn never_ready() -> Converter {
        Converter::ready_after(u32::MAX, 0)
    }

    fn perform(&mut self, command: Command) -> Level {
        self.done.push(command);
        match command {
            Command::ClockHigh => {
                assert_eq!(self.clock, Level::Low);
                self.clock = Level::High;
                self.rises += 1;
                self.data = if self.rises <= 24 {
                    Level::from_bit((self.field >> (24 - self.rises)) & 1 == 1)
                } else {
                    Level::High
                };
                Level::Low
            }
            Command::ClockLow => {
                assert_eq!(self.clock, Level::High);
                self.clock = Level::Low;
                Level::Low
            }
            Command::Hold => {
                self.held_us += PULSE_WIDTH_US;
                Level::Low
            }
            Command::Sample => {
                let seen = self.data;
                if self.rises == 0 && self.busy_polls > 0 {
                    self.busy_polls -= 1;
                    if self.busy_polls == 0 {
                        self.data = Level::Low;
                    }
                }
                seen
            }
        }
    }
}

/// Does what the driver asks for until it is idle, at most `limit` commands.
fn run(driver: &mut HX711, converter: &mut Converter, limit: usize) -> usize {
    let mut count = 0;
    while let Some(command) = driver.command() {
        if count == limit {
            break;
        }
        let level = converter.perform(command);
        driver.advance(level);
        count += 1;
    }
    count
}

fn tare_on(driver: &mut HX711, field: u32) {
    assert!(driver.tare());
    let mut converter = Converter::ready_with(field);
    run(driver, &mut converter, 1000);
    assert!(driver.is_idle());
}

fn read_on(driver: &mut HX711, field: u32) {
    assert!(driver.read());
    let mut converter = Converter::ready_with(field);
    run(driver, &mut converter, 1000);
    assert!(driver.is_idle());
}

#[test]
fn ready_means_data_line_low() {
    let driver = HX711::new(128).unwrap();
    assert!(driver.is_ready(Level::Low));
    assert!(!driver.is_ready(Level::High));
}

#[test]
fn idle_driver_asks_for_nothing() {
    let mut driver = HX711::with_gain(Gain::X128);
    assert!(driver.is_idle());
    assert_eq!(driver.command(), None);
    driver.advance(Level::Low);
    driver.advance(Level::High);
    assert!(driver.is_idle());
    assert_eq!(driver.get_last(), 0);
    assert_eq!(driver.get_offset(), 0);
}

#[test]
fn read_looks_at_the_data_line_first() {
    let mut driver = HX711::with_gain(Gain::X128);
    assert!(driver.read());
    assert!(!driver.is_idle());
    assert_eq!(driver.command(), Some(Command::Sample));
}

#[test]
fn read_of_one_with_gain_128() {
    let mut driver = HX711::new(128).unwrap();
    let mut converter = Converter::ready_with(0x00_0001);
    assert!(driver.read());
    let count = run(&mut driver, &mut converter, 1000);
    assert_eq!(count, 1 + 124);
    assert_eq!(converter.rises, 25);
    assert_eq!(converter.clock, Level::Low);
    assert_eq!(driver.get_last(), 1);
    assert_eq!(driver.get_offset(), 0);
}

#[test]
fn read_sends_the_pulses_of_the_gain() {
    for (factor, pulses) in [(128u32, 25u32), (64, 26), (32, 27)] {
        let mut driver = HX711::new(factor).unwrap();
        let mut converter = Converter::ready_with(0x12_3456);
        assert!(driver.read());
        let count = run(&mut driver, &mut converter, 1000);
        assert_eq!(converter.rises, pulses);
        assert_eq!(count as u32, 1 + 24 * 5 + (pulses - 24) * 4);
        assert_eq!(converter.held_us, 2 * pulses * PULSE_WIDTH_US);
        assert_eq!(driver.get_last(), 0x12_3456);
    }
}

#[test]
fn read_of_all_ones_is_minus_one() {
    for factor in [128u32, 64, 32] {
        let mut driver = HX711::new(factor).unwrap();
        read_on(&mut driver, 0xFF_FFFF);
        assert_eq!(driver.get_offset(), 0);
        assert_eq!(driver.get_last(), -1);
    }
}

#[test]
fn read_is_sample_less_offset() {
    let mut driver = HX711::new(64).unwrap();
    tare_on(&mut driver, 1000);
    assert_eq!(driver.get_offset(), 1000);
    read_on(&mut driver, 250);
    assert_eq!(driver.get_last(), -750);
    read_on(&mut driver, 0xFF_FFFF);
    assert_eq!(driver.get_last(), -1001);
    read_on(&mut driver, 0x7F_FFFF);
    assert_eq!(driver.get_last(), 8_388_607 - 1000);
    assert_eq!(driver.get_offset(), 1000);
}

#[test]
fn read_with_extreme_offset_and_sample() {
    let mut driver = HX711::new(128).unwrap();
    tare_on(&mut driver, 0x80_0000);
    assert_eq!(driver.get_offset(), -8_388_608);
    read_on(&mut driver, 0x7F_FFFF);
    assert_eq!(driver.get_last(), 16_777_215);

    tare_on(&mut driver, 0x7F_FFFF);
    assert_eq!(driver.get_offset(), 8_388_607);
    read_on(&mut driver, 0x80_0000);
    assert_eq!(driver.get_last(), -16_777_215);
}

#[test]
fn read_when_not_ready_changes_nothing() {
    let mut driver = HX711::new(128).unwrap();
    tare_on(&mut driver, 7);
    read_on(&mut driver, 10);
    assert_eq!(driver.get_last(), 3);

    let mut converter = Converter::never_ready();
    assert!(driver.read());
    let count = run(&mut driver, &mut converter, 1000);
    assert_eq!(count, 1);
    assert_eq!(converter.done, vec![Command::Sample]);
    assert_eq!(converter.rises, 0);
    assert!(driver.is_idle());
    assert_eq!(driver.get_last(), 3);
    assert_eq!(driver.get_offset(), 7);
}

#[test]
fn tare_stores_the_sample_as_offset() {
    let mut driver = HX711::new(128).unwrap();
    tare_on(&mut driver, 0x00_0400);
    assert_eq!(driver.get_offset(), 1024);
    assert_eq!(driver.get_last(), 1024);
}

#[test]
fn tare_reads_with_an_offset_of_zero() {
    let mut driver = HX711::new(128).unwrap();
    tare_on(&mut driver, 500);
    tare_on(&mut driver, 800);
    assert_eq!(driver.get_offset(), 800);
    assert_eq!(driver.get_last(), 800);
}

#[test]
fn tare_of_a_negative_sample() {
    let mut driver = HX711::new(32).unwrap();
    tare_on(&mut driver, 0xFF_FF00);
    assert_eq!(driver.get_offset(), -256);
    read_on(&mut driver, 0xFF_FF00);
    assert_eq!(driver.get_last(), 0);
    read_on(&mut driver, 0);
    assert_eq!(driver.get_last(), 256);
}

#[test]
fn tare_waits_until_the_converter_is_ready() {
    let mut driver = HX711::new(128).unwrap();
    let mut converter = Converter::ready_after(5, 42);
    assert!(driver.tare());
    let count = run(&mut driver, &mut converter, 1000);
    assert_eq!(count, 5 + 1 + 124);
    assert!(converter.done[..6].iter().all(|&c| c == Command::Sample));
    assert_eq!(converter.done[6], Command::ClockHigh);
    assert_eq!(driver.get_offset(), 42);
}

#[test]
fn tare_goes_on_waiting_while_the_converter_is_busy() {
    let mut driver = HX711::new(128).unwrap();
    let mut converter = Converter::never_ready();
    assert!(driver.tare());
    let count = run(&mut driver, &mut converter, 500);
    assert_eq!(count, 500);
    assert!(converter.done.iter().all(|&c| c == Command::Sample));
    assert!(!driver.is_idle());
    assert_eq!(driver.command(), Some(Command::Sample));
    assert_eq!(driver.get_offset(), 0);
    assert_eq!(driver.get_last(), 0);
}

#[test]
fn tare_then_read_of_the_same_value_is_zero() {
    for field in [0u32, 1, 5, 0x7F_FFFF, 0x80_0000, 0xFF_FFFF, 0x12_3456, 0xA5_A5A5] {
        for factor in [128u32, 64, 32] {
            let mut driver = HX711::new(factor).unwrap();
            tare_on(&mut driver, field);
            read_on(&mut driver, field);
            assert_eq!(driver.get_last(), 0);
        }
    }
}

#[test]
fn tare_on_one_then_read_of_five_is_four() {
    let mut driver = HX711::new(128).unwrap();
    let mut converter = Converter::ready_with(0x00_0001);
    assert!(driver.tare());
    run(&mut driver, &mut converter, 1000);
    assert_eq!(driver.get_offset(), 1);

    let mut converter = Converter::ready_with(0x00_0005);
    assert!(driver.read());
    run(&mut driver, &mut converter, 1000);
    assert_eq!(driver.get_last(), 4);
}

#[test]
fn latest_reading_is_never_torn() {
    let mut driver = HX711::new(128).unwrap();
    tare_on(&mut driver, 100);
    read_on(&mut driver, 0x2A_AAAA);
    let before = driver.get_last();
    assert_eq!(before, 0x2A_AAAA - 100);

    let mut converter = Converter::ready_with(0x55_5555);
    assert!(driver.read());
    let mut steps = 0;
    while let Some(command) = driver.command() {
        assert_eq!(driver.get_last(), before);
        assert_eq!(driver.get_offset(), 100);
        let level = converter.perform(command);
        driver.advance(level);
        steps += 1;
    }
    assert_eq!(steps, 125);
    assert_eq!(driver.get_last(), 0x55_5555 - 100);
    assert_eq!(driver.get_offset(), 100);
}

#[test]
fn offset_is_untouched_until_a_tare_completes() {
    let mut driver = HX711::new(64).unwrap();
    tare_on(&mut driver, 300);
    read_on(&mut driver, 350);

    let mut converter = Converter::ready_with(900);
    assert!(driver.tare());
    let mut steps = 0;
    while let Some(command) = driver.command() {
        assert_eq!(driver.get_offset(), 300);
        assert_eq!(driver.get_last(), 50);
        let level = converter.perform(command);
        driver.advance(level);
        steps += 1;
    }
    assert_eq!(steps, 1 + 128);
    assert_eq!(driver.get_offset(), 900);
    assert_eq!(driver.get_last(), 900);
}

#[test]
fn busy_driver_takes_no_other_job() {
    let mut driver = HX711::new(128).unwrap();
    let mut converter = Converter::ready_with(77);
    assert!(driver.read());
    run(&mut driver, &mut converter, 40);
    assert!(!driver.is_idle());
    let pending = driver.command();

    assert!(!driver.tare());
    assert!(!driver.read());
    assert_eq!(driver.command(), pending);

    run(&mut driver, &mut converter, 1000);
    assert!(driver.is_idle());
    assert_eq!(converter.rises, 25);
    assert_eq!(driver.get_last(), 77);
    assert_eq!(driver.get_offset(), 0);
}

#[test]
fn levels_reported_for_other_commands_do_not_count() {
    let mut driver = HX711::new(128).unwrap();
    let mut converter = Converter::ready_with(0x00_0005);
    assert!(driver.read());
    while let Some(command) = driver.command() {
        let seen = converter.perform(command);
        let level = match command {
            Command::Sample => seen,
            _ => Level::High,
        };
        driver.advance(level);
    }
    assert_eq!(driver.get_last(), 5);
}

#[test]
fn readings_follow_one_another() {
    let mut driver = HX711::new(128).unwrap();
    tare_on(&mut driver, 10);
    for field in [10u32, 11, 9, 0xFF_FFFF, 0, 0x40_0000] {
        read_on(&mut driver, field);
        let sample = if field < 0x80_0000 {
            field as i32
        } else {
            field as i32 - 0x100_0000
        };
        assert_eq!(driver.get_last(), sample - 10);
    }
}
