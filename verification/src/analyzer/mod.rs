//! Finding out what kind of data a block holds.
pub mod classifier;
pub mod entropy;
pub mod spread;
