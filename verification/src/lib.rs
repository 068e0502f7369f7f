//! Evolution of a bounded integer trait across a grid of demes.
//!
//! Every generation each deme breeds two offspring per parent, a small share
//! of the offspring moves to an adjacent cell, and each deme is then cut back
//! to its carrying capacity. All decisions are verified; the random draws that
//! drive them come in through a single trusted sampler.

pub mod deme;
pub mod entry;
pub mod exchange;
pub mod grid;
pub mod list;
pub mod migration;
pub mod order;
pub mod params;
pub mod population;
pub mod rng;

pub use deme::Deme;
pub use entry::DemeEntry;
pub use population::Population;
pub use params::{clamp, CARRY_SIZE, MAX_RU, MIN_RU};
