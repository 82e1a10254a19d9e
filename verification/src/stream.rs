//! Producers of events.

pub mod binary_reader;
pub mod cycle;
pub mod format;
pub mod meaning;
pub mod walk;
