//! The two-wire serial protocol: what is asked of the clock and data lines,
//! and in which order, to clock one conversion out of the converter.

use crate::gain::Gain;
use crate::level::Level;
use crate::sample::SAMPLE_BITS;
use vstd::arithmetic::div_mod::lemma_fundamental_div_mod_converse;
use vstd::prelude::*;

verus! {

/// One thing to do on the lines. Whoever owns the lines does it and, for
/// `Sample`, reports the level it saw.
#[derive(Clone, Copy, Debug, PartialEq, Eq, Structural)]
pub enum Command {
    /// Drive the clock line high.
    ClockHigh,
    /// Drive the clock line low.
    ClockLow,
    /// Busy-wait for `PULSE_WIDTH_US` microseconds.
    Hold,
    /// Read the data line.
    Sample,
}

/// How long the clock line is held at each level, in microseconds.
pub const PULSE_WIDTH_US: u32 = 1;

/// Number of commands that clock one data bit out.
pub const DATA_PULSE_LEN: u8 = 5;

/// Number of commands in one gain-select pulse.
pub const GAIN_PULSE_LEN: u8 = 4;

/// Number of commands that clock all data bits out.
pub const DATA_TRAIN_LEN: u8 = 120;

/// The clock pulse that reads one data bit: the line is sampled while the
/// clock is high, after the clock has been held there.
pub open spec fn data_pulse() -> Seq<Command> {
    seq![Command::ClockHigh, Command::Hold, Command::Sample, Command::ClockLow, Command::Hold]
}

/// A clock pulse after the data bits: the data line is not looked at.
pub open spec fn gain_pulse() -> Seq<Command> {
    seq![Command::ClockHigh, Command::Hold, Command::ClockLow, Command::Hold]
}

/// `count` repetitions of `pulse`.
pub open spec fn train(pulse: Seq<Command>, count: nat) -> Seq<Command>
    decreases count,
{
    if count == 0 {
        Seq::empty()
    } else {
        train(pulse, (count - 1) as nat) + pulse
    }
}

/// Everything that one exchange does on the lines: 24 data pulses, then as
/// many gain-select pulses as the gain calls for.
pub open spec fn script(gain: Gain) -> Seq<Command> {
    train(data_pulse(), SAMPLE_BITS as nat) + train(gain_pulse(), gain.pulses() as nat)
}

/// How often the data line is read by `commands`.
pub open spec fn samples_in(commands: Seq<Command>) -> nat
    decreases commands.len(),
{
    if commands.len() == 0 {
        0
    } else {
        samples_in(commands.drop_last()) + if commands.last() == Command::Sample {
            1nat
        } else {
            0nat
        }
    }
}

/// How often the clock line is driven high by `commands`.
pub open spec fn rising_edges_in(commands: Seq<Command>) -> nat
    decreases commands.len(),
{
    if commands.len() == 0 {
        0
    } else {
        rising_edges_in(commands.drop_last()) + if commands.last() == Command::ClockHigh {
            1nat
        } else {
            0nat
        }
    }
}

/// The level of the clock line once `commands` are done, when it was low
/// before them.
pub open spec fn clock_after(commands: Seq<Command>) -> Level
    decreases commands.len(),
{
    if commands.len() == 0 {
        Level::Low
    } else {
        match commands.last() {
            Command::ClockHigh => Level::High,
            Command::ClockLow => Level::Low,
            _ => clock_after(commands.drop_last()),
        }
    }
}

/// How many data bits have been read once the first `position` commands of
/// a script are done.
pub open spec fn samples_before(position: nat) -> nat {
    if position >= DATA_TRAIN_LEN {
        SAMPLE_BITS as nat
    } else {
        position / (DATA_PULSE_LEN as nat) + if position % (DATA_PULSE_LEN as nat) > 2 {
            1nat
        } else {
            0nat
        }
    }
}

/// A train of `count` pulses has `count` times the length of one pulse, and
/// its command at `index` is the pulse's command at `index` modulo that
/// length.
pub proof fn lemma_train(pulse: Seq<Command>, count: nat, index: int)
    requires
        pulse.len() > 0,
    ensures
        train(pulse, count).len() == count * pulse.len(),
        0 <= index < count * pulse.len() ==> train(pulse, count)[index] == pulse[index % (
        pulse.len() as int)],
    decreases count,
{
    let width = pulse.len() as int;
    if count == 0 {
        assert(count * pulse.len() == 0) by (nonlinear_arith)
            requires
                count == 0,
        ;
    } else {
        let before = (count - 1) as nat;
        lemma_train(pulse, before, index);
        assert(before * pulse.len() + pulse.len() == count * pulse.len()) by (nonlinear_arith)
            requires
                before + 1 == count,
        ;
        if before * pulse.len() <= index < count * pulse.len() {
            lemma_fundamental_div_mod_converse(
                index,
                width,
                before as int,
                index - before * pulse.len(),
            );
        }
    }
}

/// The layout of a script: its length, and its command at every index.
pub proof fn lemma_script_layout(gain: Gain)
    ensures
        script(gain).len() == DATA_TRAIN_LEN + GAIN_PULSE_LEN * gain.pulses(),
        forall|index: int|
            0 <= index < DATA_TRAIN_LEN ==> #[trigger] script(gain)[index] == data_pulse()[index
                % (DATA_PULSE_LEN as int)],
        forall|index: int|
            DATA_TRAIN_LEN <= index < script(gain).len() ==> #[trigger] script(gain)[index]
                == gain_pulse()[(index - DATA_TRAIN_LEN) % (GAIN_PULSE_LEN as int)],
{
    lemma_train(data_pulse(), SAMPLE_BITS as nat, 0);
    lemma_train(gain_pulse(), gain.pulses() as nat, 0);
    assert forall|index: int| 0 <= index < DATA_TRAIN_LEN implies #[trigger] script(gain)[index]
        == data_pulse()[index % (DATA_PULSE_LEN as int)] by {
        lemma_train(data_pulse(), SAMPLE_BITS as nat, index);
    }
    assert forall|index: int|
        DATA_TRAIN_LEN <= index < script(gain).len() implies #[trigger] script(gain)[index]
        == gain_pulse()[(index - DATA_TRAIN_LEN) % (GAIN_PULSE_LEN as int)] by {
        lemma_train(gain_pulse(), gain.pulses() as nat, index - DATA_TRAIN_LEN);
    }
}

/// Doing one more command of a script reads the data line once more exactly
/// when that command is `Sample`.
proof fn lemma_counts_step(commands: Seq<Command>, position: int)
    requires
        0 <= position < commands.len(),
    ensures
        samples_in(commands.take(position + 1)) == samples_in(commands.take(position)) + if
            commands[position] == Command::Sample {
            1nat
        } else {
            0nat
        },
        rising_edges_in(commands.take(position + 1)) == rising_edges_in(commands.take(position))
            + if commands[position] == Command::ClockHigh {
            1nat
        } else {
            0nat
        },
        clock_after(commands.take(position + 1)) == match commands[position] {
            Command::ClockHigh => Level::High,
            Command::ClockLow => Level::Low,
            _ => clock_after(commands.take(position)),
        },
{
    let longer = commands.take(position + 1);
    assert(longer.drop_last() =~= commands.take(position));
    assert(longer.last() == commands[position]);
}

/// After the first `position` commands of a script the data line has been
/// read `samples_before(position)` times, the clock has risen once for each
/// pulse begun, and the clock is high exactly inside a pulse's first half.
pub proof fn lemma_script_progress(gain: Gain, position: nat)
    requires
        position <= script(gain).len(),
    ensures
        samples_in(script(gain).take(position as int)) == samples_before(position),
        position <= DATA_TRAIN_LEN ==> rising_edges_in(script(gain).take(position as int)) == (
        position + 4) / 5,
        position >= DATA_TRAIN_LEN ==> rising_edges_in(script(gain).take(position as int))
            == SAMPLE_BITS + (position - DATA_TRAIN_LEN + 3) / 4,
        position < DATA_TRAIN_LEN ==> (clock_after(script(gain).take(position as int))
            == Level::High <==> 1 <= position % 5 <= 3),
        position >= DATA_TRAIN_LEN ==> (clock_after(script(gain).take(position as int))
            == Level::High <==> 1 <= (position - DATA_TRAIN_LEN) % 4 <= 2),
    decreases position,
{
    lemma_script_layout(gain);
    if position == 0 {
        assert(script(gain).take(0) =~= Seq::empty());
    } else {
        let before = (position - 1) as nat;
        lemma_script_progress(gain, before);
        lemma_counts_step(script(gain), before as int);
        if before < DATA_TRAIN_LEN {
            assert(script(gain)[before as int] == data_pulse()[before as int % 5]);
        } else {
            assert(script(gain)[before as int] == gain_pulse()[(before - DATA_TRAIN_LEN) % 4]);
        }
    }
}

/// Whether a clock edge at `index` of `commands` is followed by a hold.
pub open spec fn edge_is_held(commands: Seq<Command>, index: int) -> bool {
    commands[index] == Command::ClockHigh || commands[index] == Command::ClockLow ==> index + 1
        < commands.len() && commands[index + 1] == Command::Hold
}

/// Whether a read of the data line at `index` of `commands` comes after a
/// hold and while the clock is high.
pub open spec fn sample_is_timed(commands: Seq<Command>, index: int) -> bool {
    commands[index] == Command::Sample ==> index >= 1 && commands[index - 1] == Command::Hold
        && clock_after(commands.take(index)) == Level::High
}

/// Every clock edge of a script is held, and every read of the data line is
/// timed.
pub proof fn lemma_script_timing(gain: Gain, index: int)
    requires
        0 <= index < script(gain).len(),
    ensures
        edge_is_held(script(gain), index),
        sample_is_timed(script(gain), index),
{
    let whole = script(gain);
    lemma_script_layout(gain);
    lemma_script_progress(gain, index as nat);
    if index < DATA_TRAIN_LEN {
        assert(whole[index] == data_pulse()[index % 5]);
        if index % 5 == 2 {
            assert(whole[index - 1] == data_pulse()[(index - 1) % 5]);
        }
        if index % 5 == 0 || index % 5 == 3 {
            assert(whole[index + 1] == data_pulse()[(index + 1) % 5]);
        }
    } else {
        let offset = index - DATA_TRAIN_LEN;
        assert(whole[index] == gain_pulse()[offset % 4]);
        if offset % 4 == 0 || offset % 4 == 2 {
            assert(whole[index + 1] == gain_pulse()[(index + 1 - DATA_TRAIN_LEN) % 4]);
        }
    }
}

/// What a whole script does on the lines: it reads the data line 24 times,
/// it raises the clock once for each data bit and once for each gain-select
/// pulse, and it leaves the clock low.
pub proof fn lemma_script_shape(gain: Gain)
    ensures
        script(gain).len() == DATA_TRAIN_LEN + GAIN_PULSE_LEN * gain.pulses(),
        samples_in(script(gain)) == SAMPLE_BITS,
        rising_edges_in(script(gain)) == SAMPLE_BITS + gain.pulses(),
        clock_after(script(gain)) == Level::Low,
{
    let whole = script(gain);
    lemma_script_layout(gain);
    lemma_script_progress(gain, whole.len());
    assert(whole.take(whole.len() as int) =~= whole);
}

} // verus!
