//! The driver: the configured gain, the zero offset, the latest reading, and
//! the job in hand. It decides what is done on the lines and what a finished
//! exchange changes; the lines themselves stay with whoever owns them, who
//! does each command that the driver asks for and tells it what the data line
//! showed.

use crate::exchange::{
    lemma_advance_well_formed, lemma_begin_well_formed, lemma_sampled, Exchange, ExchangeView,
};
use crate::gain::{is_gain_factor, Gain, InvalidGain};
use crate::level::Level;
use crate::sample::{
    field_of, lemma_sample_range, sign_extend, FIELD_LIMIT, SAMPLE_BITS, SIGN_BIT,
};
use crate::wire::{script, Command};
use vstd::prelude::*;

verus! {

/// What a finished exchange is for.
#[derive(Clone, Copy, Debug, PartialEq, Eq, Structural)]
pub enum Task {
    /// Its sample, less the offset, becomes the latest reading.
    Read,
    /// Its sample becomes the offset.
    Tare,
}

/// The job that a driver has in hand, told without its representation.
#[verifier::ext_equal]
pub enum JobView {
    /// Nothing is going on.
    Idle,
    /// The data line is to be looked at, to learn whether the converter is
    /// ready.
    AwaitingReady(Task),
    /// An exchange is under way.
    Clocking(Task, ExchangeView),
}

/// What a driver is, told without its representation.
#[verifier::ext_equal]
pub struct DriverView {
    /// The gain that every exchange of this driver selects.
    pub gain: Gain,
    /// The reading that counts as zero.
    pub offset: int,
    /// The latest reading, less the offset that held when it was taken.
    pub last_value: int,
    /// The job in hand.
    pub job: JobView,
}

impl DriverView {
    /// A driver that has read nothing yet: offset and latest reading are 0.
    pub open spec fn fresh(gain: Gain) -> DriverView {
        DriverView { gain, offset: 0, last_value: 0, job: JobView::Idle }
    }

    /// Whether the converter has a conversion to clock out: it says so by
    /// pulling the data line low.
    pub open spec fn ready(data: Level) -> bool {
        data == Level::Low
    }

    /// Whether no job is in hand.
    pub open spec fn is_idle(self) -> bool {
        self.job is Idle
    }

    /// The driver after it was asked to take on `task`. An idle driver takes
    /// it on, and first wants to know whether the converter is ready. A busy
    /// driver goes on with the job in hand: an exchange is never cut short.
    pub open spec fn start(self, task: Task) -> DriverView {
        if self.is_idle() {
            DriverView { job: JobView::AwaitingReady(task), ..self }
        } else {
            self
        }
    }

    /// The command to do next on the lines, if a job is in hand.
    pub open spec fn pending(self) -> Option<Command> {
        match self.job {
            JobView::Idle => None,
            JobView::AwaitingReady(_) => Some(Command::Sample),
            JobView::Clocking(_, exchange) => exchange.pending(),
        }
    }

    /// The idle driver after an exchange for `task` has given `sample`. A
    /// read stores the sample less the offset as the latest reading. A tare
    /// reads the sample as with an offset of zero and then stores it as the
    /// offset.
    pub open spec fn commit(self, task: Task, sample: int) -> DriverView {
        match task {
            Task::Read => DriverView {
                last_value: sample - self.offset,
                job: JobView::Idle,
                ..self
            },
            Task::Tare => DriverView {
                offset: sample,
                last_value: sample,
                job: JobView::Idle,
                ..self
            },
        }
    }

    /// The driver once the pending command is done, where `level` is what
    /// the data line showed (it counts only where the command was `Sample`).
    ///
    /// A driver that awaits readiness starts an exchange when the line is
    /// low. When it is high, a read is given up and a tare looks again. A
    /// driver that is clocking moves its exchange on by one command, and
    /// commits the sample with the command that completes the script.
    pub open spec fn advance(self, level: Level) -> DriverView {
        match self.job {
            JobView::Idle => self,
            JobView::AwaitingReady(task) => if Self::ready(level) {
                DriverView { job: JobView::Clocking(task, ExchangeView::begin(self.gain)), ..self }
            } else {
                match task {
                    Task::Read => DriverView { job: JobView::Idle, ..self },
                    Task::Tare => self,
                }
            },
            JobView::Clocking(task, exchange) => {
                let moved = exchange.advance(level);
                if moved.is_complete() {
                    self.commit(task, moved.sample())
                } else {
                    DriverView { job: JobView::Clocking(task, moved), ..self }
                }
            },
        }
    }

    /// An upper bound on the commands still to do when the converter is
    /// ready at once.
    pub open spec fn remaining(self) -> nat {
        match self.job {
            JobView::Idle => 0,
            JobView::AwaitingReady(_) => script(self.gain).len() + 1,
            JobView::Clocking(_, exchange) => (script(exchange.gain).len()
                - exchange.position) as nat,
        }
    }

    /// The driver once the job in hand is done, where the converter is ready
    /// at once and the read number `k` of the exchange is answered by
    /// `levels[k]` (and by a low level where `levels` has no such entry).
    pub open spec fn drive(self, levels: Seq<Level>) -> DriverView
        decreases self.remaining(),
    {
        match self.job {
            JobView::Idle => self,
            JobView::AwaitingReady(_) => self.advance(Level::Low).drive(levels),
            JobView::Clocking(_, exchange) => if exchange.is_complete() {
                self
            } else {
                let level = if exchange.sampled.len() < levels.len() {
                    levels[exchange.sampled.len() as int]
                } else {
                    Level::Low
                };
                self.advance(level).drive(levels)
            },
        }
    }

    /// What holds of every driver that `fresh`, `start` and `advance` can
    /// reach: the offset fits 24 signed bits, the latest reading is the
    /// difference of two such numbers, and an exchange under way is well
    /// formed, selects the driver's gain and has commands left.
    pub open spec fn well_formed(self) -> bool {
        &&& -(SIGN_BIT as int) <= self.offset < SIGN_BIT
        &&& -(FIELD_LIMIT as int) < self.last_value < FIELD_LIMIT
        &&& self.job matches JobView::Clocking(_, exchange) ==> exchange.well_formed()
            && !exchange.is_complete() && exchange.gain == self.gain
    }
}

/// A fresh driver is well formed.
pub proof fn lemma_fresh_is_well_formed(gain: Gain)
    ensures
        DriverView::fresh(gain).well_formed(),
        DriverView::fresh(gain).is_idle(),
{
}

/// `start` and `advance` keep a driver well formed and at its gain.
pub proof fn lemma_steps_keep_well_formed(driver: DriverView, task: Task, level: Level)
    requires
        driver.well_formed(),
    ensures
        driver.start(task).well_formed(),
        driver.start(task).gain == driver.gain,
        driver.advance(level).well_formed(),
        driver.advance(level).gain == driver.gain,
{
    lemma_begin_well_formed(driver.gain);
    if let JobView::Clocking(_, exchange) = driver.job {
        lemma_advance_well_formed(exchange, level);
        lemma_sampled(exchange.advance(level));
    }
}

/// No reading is ever torn. A command that does not complete the script
/// leaves offset and latest reading as they were, whatever the data line
/// showed. The command that completes it commits a sample made of the 24
/// levels of that one exchange, most significant bit first.
pub proof fn lemma_reading_is_of_one_whole_exchange(driver: DriverView, level: Level)
    requires
        driver.well_formed(),
    ensures
        match driver.job {
            JobView::Clocking(task, exchange) if exchange.advance(level).is_complete() => {
                &&& exchange.advance(level).sampled.len() == SAMPLE_BITS
                &&& driver.advance(level) == driver.commit(
                    task,
                    sign_extend(field_of(exchange.advance(level).sampled) as int),
                )
            },
            _ => {
                &&& driver.advance(level).offset == driver.offset
                &&& driver.advance(level).last_value == driver.last_value
            },
        },
        driver.advance(level).offset != driver.offset ==> driver.job matches JobView::Clocking(
            Task::Tare,
            _,
        ),
{
    if let JobView::Clocking(_, exchange) = driver.job {
        lemma_advance_well_formed(exchange, level);
        lemma_sampled(exchange.advance(level));
    }
}

/// No job holds the driver for ever, but a tare that waits for the
/// converter. Every command done brings the job in hand nearer its end, which
/// is never further off than one look at the data line and one script; only
/// a tare that finds the converter not ready stays where it is.
pub proof fn lemma_every_command_is_progress(driver: DriverView, level: Level)
    requires
        driver.well_formed(),
        !driver.is_idle(),
        !(driver.job == JobView::AwaitingReady(Task::Tare) && !DriverView::ready(level)),
    ensures
        driver.advance(level).remaining() < driver.remaining(),
        driver.remaining() <= script(driver.gain).len() + 1,
        driver.advance(level).remaining() == 0 <==> driver.advance(level).is_idle(),
{
    lemma_begin_well_formed(driver.gain);
    if let JobView::Clocking(_, exchange) = driver.job {
        lemma_advance_well_formed(exchange, level);
    }
}

/// How a job starts. A busy driver takes on no other job. An idle one first
/// asks for the data line. A read that finds the converter not ready changes
/// nothing at all. A tare that finds it not ready goes on looking.
pub proof fn lemma_start_of_a_job(driver: DriverView, task: Task)
    ensures
        !driver.is_idle() ==> driver.start(task) == driver,
        driver.is_idle() ==> driver.start(task).pending() == Some(Command::Sample),
        driver.is_idle() ==> driver.start(Task::Read).advance(Level::High) == driver,
        driver.is_idle() ==> driver.start(Task::Tare).advance(Level::High) == driver.start(
            Task::Tare,
        ),
{
}

/// A job that finds the converter ready and then sees `levels` on the data
/// line, bit by bit, ends with the sample that the 24 levels spell in two's
/// complement committed, and the driver idle.
pub proof fn lemma_drive(driver: DriverView, levels: Seq<Level>)
    requires
        driver.well_formed(),
        levels.len() == SAMPLE_BITS,
        driver.job matches JobView::Clocking(_, exchange) ==> exchange.sampled == levels.take(
            exchange.sampled.len() as int,
        ),
    ensures
        driver.drive(levels) == match driver.job {
            JobView::Idle => driver,
            JobView::AwaitingReady(task) => driver.commit(
                task,
                sign_extend(field_of(levels) as int),
            ),
            JobView::Clocking(task, _) => driver.commit(
                task,
                sign_extend(field_of(levels) as int),
            ),
        },
        driver.drive(levels).well_formed(),
        driver.drive(levels).is_idle(),
    decreases driver.remaining(),
{
    lemma_sample_range(levels);
    match driver.job {
        JobView::Idle => {},
        JobView::AwaitingReady(task) => {
            let begun = driver.advance(Level::Low);
            lemma_begin_well_formed(driver.gain);
            assert(ExchangeView::begin(driver.gain).sampled =~= levels.take(0));
            lemma_drive(begun, levels);
        },
        JobView::Clocking(task, exchange) => {
            let taken = exchange.sampled.len() as int;
            lemma_sampled(exchange);
            let level = if taken < levels.len() {
                levels[taken]
            } else {
                Level::Low
            };
            let moved = exchange.advance(level);
            lemma_advance_well_formed(exchange, level);
            lemma_sampled(moved);
            if moved.sampled.len() > taken {
                assert(moved.sampled =~= levels.take(taken + 1));
            }
            if moved.is_complete() {
                assert(levels.take(levels.len() as int) =~= levels);
                assert(moved.sampled == levels);
                assert(driver.advance(level).drive(levels) == driver.advance(level));
            } else {
                lemma_drive(driver.advance(level), levels);
            }
        },
    }
}

/// After a read, the latest reading is the sample of that exchange less the
/// offset, and the offset is as it was.
pub proof fn lemma_read_is_sample_less_offset(driver: DriverView, levels: Seq<Level>)
    requires
        driver.well_formed(),
        driver.is_idle(),
        levels.len() == SAMPLE_BITS,
    ensures
        driver.start(Task::Read).drive(levels).last_value == sign_extend(field_of(levels) as int)
            - driver.offset,
        driver.start(Task::Read).drive(levels).offset == driver.offset,
        driver.start(Task::Read).drive(levels).is_idle(),
{
    lemma_drive(driver.start(Task::Read), levels);
}

/// A read that follows a tare on the same raw value gives zero: the offset
/// cancels the baseline exactly.
pub proof fn lemma_tare_then_read_is_zero(driver: DriverView, levels: Seq<Level>)
    requires
        driver.well_formed(),
        driver.is_idle(),
        levels.len() == SAMPLE_BITS,
    ensures
        driver.start(Task::Tare).drive(levels).offset == sign_extend(field_of(levels) as int),
        driver.start(Task::Tare).drive(levels).start(Task::Read).drive(levels).last_value == 0,
{
    let tared = driver.start(Task::Tare).drive(levels);
    lemma_drive(driver.start(Task::Tare), levels);
    lemma_drive(tared.start(Task::Read), levels);
}

/// The job in hand.
#[derive(Clone, Copy, Debug)]
enum Job {
    Idle,
    AwaitingReady(Task),
    Clocking(Task, Exchange),
}

/// The driver of one HX711 converter.
#[derive(Clone, Copy, Debug)]
pub struct HX711 {
    gain: Gain,
    offset: i32,
    last_value: i32,
    job: Job,
}

impl View for HX711 {
    type V = DriverView;

    closed spec fn view(&self) -> DriverView {
        DriverView {
            gain: self.gain,
            offset: self.offset as int,
            last_value: self.last_value as int,
            job: match self.job {
                Job::Idle => JobView::Idle,
                Job::AwaitingReady(task) => JobView::AwaitingReady(task),
                Job::Clocking(task, exchange) => JobView::Clocking(task, exchange@),
            },
        }
    }
}

impl HX711 {
    #[verifier::type_invariant]
    closed spec fn inv(&self) -> bool {
        self@.well_formed()
    }

    /// A driver for the gain with the given factor, idle, with offset and
    /// latest reading at zero. A factor other than 128, 64 or 32 is refused.
    pub fn new(gain: u32) -> (driver: Result<HX711, InvalidGain>)
        ensures
            driver is Ok <==> is_gain_factor(gain),
            driver matches Ok(made) ==> made@.gain.factor() == gain && made@ == DriverView::fresh(
                made@.gain,
            ),
            driver matches Ok(made) ==> made@.well_formed(),
            driver matches Err(refused) ==> refused.factor == gain,
    {
        match Gain::from_factor(gain) {
            Ok(gain) => Ok(HX711::with_gain(gain)),
            Err(refused) => Err(refused),
        }
    }

    /// A driver for `gain`, idle, with offset and latest reading at zero.
    pub fn with_gain(gain: Gain) -> (driver: HX711)
        ensures
            driver@ == DriverView::fresh(gain),
            driver@.well_formed(),
    {
        HX711 { gain, offset: 0, last_value: 0, job: Job::Idle }
    }

    /// The gain that every exchange of this driver selects.
    pub fn gain(&self) -> (gain: Gain)
        ensures
            gain == self@.gain,
            self@.well_formed(),
    {
        proof {
            use_type_invariant(self);
        }
        self.gain
    }

    /// The reading that counts as zero: 0 until the first tare.
    pub fn get_offset(&self) -> (offset: i32)
        ensures
            offset == self@.offset,
            self@.well_formed(),
    {
        proof {
            use_type_invariant(self);
        }
        self.offset
    }

    /// The latest reading, less the offset that held when it was taken. While
    /// an exchange is under way this is still the reading before it.
    pub fn get_last(&self) -> (last: i32)
        ensures
            last == self@.last_value,
            self@.well_formed(),
    {
        proof {
            use_type_invariant(self);
        }
        self.last_value
    }

    /// Whether the converter is ready, given the level seen on the data line:
    /// it is when the line is low.
    pub fn is_ready(&self, data: Level) -> (ready: bool)
        ensures
            ready == DriverView::ready(data),
    {
        match data {
            Level::Low => true,
            Level::High => false,
        }
    }

    /// Whether no job is in hand.
    pub fn is_idle(&self) -> (idle: bool)
        ensures
            idle == self@.is_idle(),
            self@.well_formed(),
    {
        proof {
            use_type_invariant(self);
        }
        match self.job {
            Job::Idle => true,
            _ => false,
        }
    }

    /// Asks for one reading. An idle driver takes the job on: it will look
    /// at the data line once, clock the conversion out if the converter is
    /// ready, and give up if it is not. A busy driver goes on with the job
    /// in hand. Returns whether the job was taken on.
    pub fn read(&mut self) -> (taken: bool)
        ensures
            final(self)@ == old(self)@.start(Task::Read),
            taken == old(self)@.is_idle(),
            final(self)@.well_formed(),
    {
        self.start(Task::Read)
    }

    /// Asks for a new zero. An idle driver takes the job on: it will look at
    /// the data line until the converter is ready, clock the conversion out
    /// and store its sample as the offset. A busy driver goes on with the
    /// job in hand. Returns whether the job was taken on.
    pub fn tare(&mut self) -> (taken: bool)
        ensures
            final(self)@ == old(self)@.start(Task::Tare),
            taken == old(self)@.is_idle(),
            final(self)@.well_formed(),
    {
        self.start(Task::Tare)
    }

    fn start(&mut self, task: Task) -> (taken: bool)
        ensures
            final(self)@ == old(self)@.start(task),
            taken == old(self)@.is_idle(),
            final(self)@.well_formed(),
    {
        proof {
            use_type_invariant(&*self);
        }
        if self.is_idle() {
            self.job = Job::AwaitingReady(task);
            true
        } else {
            false
        }
    }

    /// The command to do next on the lines, or `None` when the driver is
    /// idle.
    pub fn command(&self) -> (next: Option<Command>)
        ensures
            next == self@.pending(),
            next is None <==> self@.is_idle(),
            self@.well_formed(),
    {
        proof {
            use_type_invariant(self);
        }
        match self.job {
            Job::Idle => None,
            Job::AwaitingReady(_) => Some(Command::Sample),
            Job::Clocking(_, exchange) => exchange.command(),
        }
    }

    /// Takes note that the pending command is done, where `level` is what
    /// the data line showed (it counts only where the command was `Sample`).
    /// Offset and latest reading change with the command that completes an
    /// exchange, and with no other.
    pub fn advance(&mut self, level: Level)
        ensures
            final(self)@ == old(self)@.advance(level),
            final(self)@.well_formed(),
    {
        proof {
            use_type_invariant(&*self);
            lemma_steps_keep_well_formed(self@, Task::Read, level);
            lemma_begin_well_formed(self.gain);
        }
        match self.job {
            Job::Idle => {},
            Job::AwaitingReady(task) => {
                if self.is_ready(level) {
                    self.job = Job::Clocking(task, Exchange::begin(self.gain));
                } else {
                    match task {
                        Task::Read => {
                            self.job = Job::Idle;
                        },
                        Task::Tare => {},
                    }
                }
            },
            Job::Clocking(task, exchange) => {
                let mut moved = exchange;
                moved.advance(level);
                match moved.sample() {
                    Some(sample) => {
                        match task {
                            Task::Read => {
                                *self =
                                HX711 {
                                    gain: self.gain,
                                    offset: self.offset,
                                    last_value: sample - self.offset,
                                    job: Job::Idle,
                                };
                            },
                            Task::Tare => {
                                *self =
                                HX711 {
                                    gain: self.gain,
                                    offset: sample,
                                    last_value: sample,
                                    job: Job::Idle,
                                };
                            },
                        }
                    },
                    None => {
                        self.job = Job::Clocking(task, moved);
                    },
                }
            },
        }
    }
}

} // verus!
