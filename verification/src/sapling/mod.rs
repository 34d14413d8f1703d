//! Entities of the Sapling shielded protocol.

pub mod sapling_sent_output;

pub use sapling_sent_output::SaplingSentOutput;
