//! One exchange with the converter as a state machine: it says what to do
//! next on the lines, takes what the data line showed, and ends with the
//! 24-bit field of one conversion. It never touches a line itself.

use crate::gain::Gain;
use crate::level::Level;
use crate::sample::{
    decode, field_of, lemma_field_of_levels_of, lemma_levels_of_len, lemma_levels_of_shift,
    lemma_sample_range, levels_of, shift_in, sign_extend, FIELD_LIMIT, SAMPLE_BITS, SIGN_BIT,
};
use crate::wire::{
    lemma_script_layout, lemma_script_progress, samples_before, samples_in, script, Command,
    DATA_PULSE_LEN, DATA_TRAIN_LEN, GAIN_PULSE_LEN,
};
use vstd::arithmetic::power2::{lemma2_to64, lemma_pow2_strictly_increases, lemma_pow2_unfold, pow2};
use vstd::prelude::*;

verus! {

/// What an exchange is, told without its representation: the gain it selects,
/// how many commands of the script are done, and the levels that the data
/// line showed at the reads so far, in order.
#[verifier::ext_equal]
pub struct ExchangeView {
    pub gain: Gain,
    pub position: nat,
    pub sampled: Seq<Level>,
}

impl ExchangeView {
    /// An exchange of which nothing is done yet.
    pub open spec fn begin(gain: Gain) -> ExchangeView {
        ExchangeView { gain, position: 0, sampled: Seq::empty() }
    }

    /// Whether every command of the script is done.
    pub open spec fn is_complete(self) -> bool {
        self.position >= script(self.gain).len()
    }

    /// The command to do next, if any is left.
    pub open spec fn pending(self) -> Option<Command> {
        if self.is_complete() {
            None
        } else {
            Some(script(self.gain)[self.position as int])
        }
    }

    /// The exchange once the pending command is done. `level` is what the
    /// data line showed; it counts only where the command was `Sample`. A
    /// complete exchange stays as it is.
    pub open spec fn advance(self, level: Level) -> ExchangeView {
        match self.pending() {
            None => self,
            Some(Command::Sample) => ExchangeView {
                position: self.position + 1,
                sampled: self.sampled.push(level),
                ..self
            },
            Some(_) => ExchangeView { position: self.position + 1, ..self },
        }
    }

    /// The exchange once all that is left of the script is done, where the
    /// read number `k` of the exchange is answered by `levels[k]` (and by a
    /// low level where `levels` has no such entry).
    pub open spec fn finish(self, levels: Seq<Level>) -> ExchangeView
        decreases script(self.gain).len() - self.position,
    {
        if self.is_complete() {
            self
        } else {
            let level = if self.sampled.len() < levels.len() {
                levels[self.sampled.len() as int]
            } else {
                Level::Low
            };
            self.advance(level).finish(levels)
        }
    }

    /// What holds of every exchange that `begin` and `advance` can reach: the
    /// position lies within the script, and there is one sampled level for
    /// each `Sample` among the commands done.
    pub open spec fn well_formed(self) -> bool {
        &&& self.position <= script(self.gain).len()
        &&& self.sampled.len() == samples_in(script(self.gain).take(self.position as int))
    }

    /// The field that the sampled levels spell, most significant bit first.
    pub open spec fn field(self) -> nat {
        field_of(self.sampled)
    }

    /// The signed sample that the field stands for.
    pub open spec fn sample(self) -> int {
        sign_extend(self.field() as int)
    }
}

/// A fresh exchange is well formed and has its whole script before it.
pub proof fn lemma_begin_well_formed(gain: Gain)
    ensures
        ExchangeView::begin(gain).well_formed(),
        !ExchangeView::begin(gain).is_complete(),
{
    assert(script(gain).take(0) =~= Seq::empty());
    lemma_script_layout(gain);
}

/// `advance` keeps an exchange well formed and selecting the same gain; it
/// does one command where one is left, and none where none is.
pub proof fn lemma_advance_well_formed(exchange: ExchangeView, level: Level)
    requires
        exchange.well_formed(),
    ensures
        exchange.advance(level).well_formed(),
        exchange.advance(level).gain == exchange.gain,
        exchange.advance(level).position == if exchange.is_complete() {
            exchange.position
        } else {
            exchange.position + 1
        },
{
    if !exchange.is_complete() {
        lemma_script_progress(exchange.gain, exchange.position);
        lemma_script_progress(exchange.gain, exchange.position + 1);
        lemma_script_layout(exchange.gain);
    }
}

/// A well-formed exchange has read at most 24 levels, and all 24 once it is
/// complete; its field then fits 24 bits and its sample 24 signed bits.
pub proof fn lemma_sampled(exchange: ExchangeView)
    requires
        exchange.well_formed(),
    ensures
        exchange.sampled.len() == samples_before(exchange.position),
        exchange.sampled.len() <= SAMPLE_BITS,
        exchange.is_complete() ==> exchange.sampled.len() == SAMPLE_BITS,
        exchange.field() < FIELD_LIMIT,
        -(SIGN_BIT as int) <= exchange.sample() < SIGN_BIT,
{
    lemma_script_progress(exchange.gain, exchange.position);
    lemma_script_layout(exchange.gain);
    lemma_sample_range(exchange.sampled);
}

/// An exchange that goes on to its end with its reads answered by `levels`
/// ends complete, having sampled exactly `levels`: its field is the number
/// that those 24 levels spell.
pub proof fn lemma_finish(exchange: ExchangeView, levels: Seq<Level>)
    requires
        exchange.well_formed(),
        levels.len() == SAMPLE_BITS,
        exchange.sampled == levels.take(exchange.sampled.len() as int),
    ensures
        exchange.finish(levels).gain == exchange.gain,
        exchange.finish(levels).is_complete(),
        exchange.finish(levels).well_formed(),
        exchange.finish(levels).sampled == levels,
        exchange.finish(levels).field() == field_of(levels),
    decreases script(exchange.gain).len() - exchange.position,
{
    lemma_sampled(exchange);
    if exchange.is_complete() {
        assert(levels.take(levels.len() as int) =~= levels);
    } else {
        let taken = exchange.sampled.len() as int;
        let level = if taken < levels.len() {
            levels[taken]
        } else {
            Level::Low
        };
        let next = exchange.advance(level);
        lemma_advance_well_formed(exchange, level);
        lemma_sampled(next);
        if next.sampled.len() > taken {
            assert(next.sampled =~= levels.take(taken + 1));
        }
        lemma_finish(next, levels);
    }
}

/// One exchange with the converter. It holds how far the script has got
/// and the bits read so far.
#[derive(Clone, Copy, Debug)]
pub struct Exchange {
    gain: Gain,
    position: u8,
    field: u32,
}

impl View for Exchange {
    type V = ExchangeView;

    closed spec fn view(&self) -> ExchangeView {
        ExchangeView {
            gain: self.gain,
            position: self.position as nat,
            sampled: levels_of(self.field as nat, samples_before(self.position as nat)),
        }
    }
}

impl Exchange {
    #[verifier::type_invariant]
    closed spec fn inv(&self) -> bool {
        &&& self.position <= DATA_TRAIN_LEN + GAIN_PULSE_LEN * self.gain.pulses()
        &&& self.field < pow2(samples_before(self.position as nat))
    }

    /// What the invariant means for the view.
    proof fn lemma_view(&self)
        requires
            self.inv(),
        ensures
            self@.well_formed(),
            self@.field() == self.field,
            self@.sampled.len() == samples_before(self.position as nat),
    {
        let count = samples_before(self.position as nat);
        lemma_script_layout(self.gain);
        lemma_script_progress(self.gain, self.position as nat);
        lemma_levels_of_len(self.field as nat, count);
        lemma_field_of_levels_of(self.field as nat, count);
    }

    /// Starts an exchange that selects `gain` for the next conversion.
    pub fn begin(gain: Gain) -> (exchange: Exchange)
        ensures
            exchange@ == ExchangeView::begin(gain),
            exchange@.well_formed(),
    {
        proof {
            lemma2_to64();
            lemma_begin_well_formed(gain);
        }
        Exchange { gain, position: 0, field: 0 }
    }

    /// The gain that this exchange selects.
    pub fn gain(&self) -> (gain: Gain)
        ensures
            gain == self@.gain,
            self@.well_formed(),
    {
        proof {
            use_type_invariant(self);
            self.lemma_view();
        }
        self.gain
    }

    /// The command to do next on the lines, or `None` once the exchange is
    /// complete.
    pub fn command(&self) -> (next: Option<Command>)
        ensures
            next == self@.pending(),
            self@.well_formed(),
    {
        proof {
            use_type_invariant(self);
            self.lemma_view();
            lemma_script_layout(self.gain);
        }
        let position = self.position;
        if position < DATA_TRAIN_LEN {
            let phase = position % DATA_PULSE_LEN;
            if phase == 0 {
                Some(Command::ClockHigh)
            } else if phase == 2 {
                Some(Command::Sample)
            } else if phase == 3 {
                Some(Command::ClockLow)
            } else {
                Some(Command::Hold)
            }
        } else if position < DATA_TRAIN_LEN + GAIN_PULSE_LEN * self.gain.pulses() {
            let phase = (position - DATA_TRAIN_LEN) % GAIN_PULSE_LEN;
            if phase == 0 {
                Some(Command::ClockHigh)
            } else if phase == 2 {
                Some(Command::ClockLow)
            } else {
                Some(Command::Hold)
            }
        } else {
            None
        }
    }

    /// Takes note that the pending command is done. `level` is what the data
    /// line showed, and counts only where the command was `Sample`: it is
    /// then shifted into the field as its new lowest bit. On a complete
    /// exchange nothing changes.
    pub fn advance(&mut self, level: Level)
        ensures
            final(self)@ == old(self)@.advance(level),
            final(self)@.well_formed(),
    {
        proof {
            use_type_invariant(&*self);
            self.lemma_view();
            lemma_script_layout(self.gain);
            lemma2_to64();
        }
        let ghost count = samples_before(self.position as nat);
        match self.command() {
            None => {},
            Some(Command::Sample) => {
                proof {
                    if count < 23 {
                        lemma_pow2_strictly_increases(count, 23);
                    }
                    lemma_pow2_unfold(count + 1);
                    lemma_levels_of_shift(self.field as nat, count, level);
                }
                let field = shift_in(self.field, level);
                *self = Exchange { gain: self.gain, position: self.position + 1, field };
            },
            Some(_) => {
                *self = Exchange { gain: self.gain, position: self.position + 1, field: self.field };
            },
        }
        proof {
            self.lemma_view();
        }
    }

    /// Whether every command of the script is done.
    pub fn is_complete(&self) -> (complete: bool)
        ensures
            complete == self@.is_complete(),
            self@.well_formed(),
    {
        proof {
            use_type_invariant(self);
            self.lemma_view();
            lemma_script_layout(self.gain);
        }
        self.position >= DATA_TRAIN_LEN + GAIN_PULSE_LEN * self.gain.pulses()
    }

    /// The 24-bit field that the exchange read, once it is complete: the
    /// number that the sampled levels spell, most significant bit first.
    pub fn field(&self) -> (field: Option<u32>)
        ensures
            field is Some <==> self@.is_complete(),
            field matches Some(bits) ==> bits == self@.field() && bits < FIELD_LIMIT,
            self@.well_formed(),
    {
        proof {
            use_type_invariant(self);
            self.lemma_view();
            lemma_sampled(self@);
        }
        if self.is_complete() {
            Some(self.field)
        } else {
            None
        }
    }

    /// The signed sample that the exchange read, once it is complete: its
    /// field, sign-extended from 24 bits.
    pub fn sample(&self) -> (sample: Option<i32>)
        ensures
            sample is Some <==> self@.is_complete(),
            sample matches Some(value) ==> value == self@.sample() && -(SIGN_BIT as int) <= value
                < SIGN_BIT,
            self@.well_formed(),
    {
        proof {
            use_type_invariant(self);
            self.lemma_view();
        }
        match self.field() {
            Some(bits) => Some(decode(bits)),
            None => None,
        }
    }
}

} // verus!
