//! Flattens nested zip archives into one ordered list of payload files and
//! repacks that list into zip archives of bounded size.

pub mod classify;
pub mod zipio;
pub mod payload;
pub mod extract;
pub mod sources;
pub mod partition;
pub mod naming;
pub mod pack;
pub mod laws;
