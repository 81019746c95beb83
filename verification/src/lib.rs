//! Compares two sources of the same shred stream: which source delivers a
//! shred first, and by how much.

pub mod arrivals;
pub mod binary64;
pub mod format;
pub mod history;
pub mod laws;
pub mod lines;
pub mod losses;
pub mod percentiles;
pub mod processor;
pub mod report;
pub mod rounding;
pub mod saved;
pub mod shred;
pub mod sort;
pub mod state;
pub mod stats;
pub mod text;
