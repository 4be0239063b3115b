//! Driver logic for the HX711 24-bit load-cell converter.
//!
//! The converter is read over two lines, a clock that the host drives and a
//! data line that the converter drives. This crate decides what happens on
//! those lines and what the bits mean, and touches no hardware: the driver
//! names the next command, the owner of the lines does it and reports what
//! the data line showed.

pub mod driver;
pub mod exchange;
pub mod gain;
pub mod level;
pub mod sample;
pub mod wire;

pub use driver::{Task, HX711};
pub use exchange::Exchange;
pub use gain::{Gain, InvalidGain};
pub use level::Level;
pub use wire::{Command, PULSE_WIDTH_US};
