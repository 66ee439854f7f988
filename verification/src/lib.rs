//! The engine of a falling-glyph terminal rain that doubles as a RAM and CPU
//! monitor.
//!
//! [`rain`] moves the drops and collects the cells to be painted, [`colour`] gives
//! each its colour, [`screen`] paints them and the [`overlay`] into a terminal
//! buffer, [`stats`] computes the percentages, [`sensor`] finds the processor's
//! temperature and [`frame`] holds the decisions of the loop. Fractions are
//! [`single`]-precision numbers, computed on their bits.
pub mod cell_laws;
pub mod colour;
pub mod draw;
pub mod frame;
pub mod overlay;
pub mod rain;
pub mod rain_laws;
pub mod rounding;
pub mod screen;
pub mod sensor;
pub mod single;
pub mod single_laws;
pub mod stats;
pub mod step_laws;
