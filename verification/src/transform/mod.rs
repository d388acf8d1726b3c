//! Reversible transforms that make data easier to model.
pub mod fingerprint;
pub mod mining;
pub mod order;
pub mod primitives;
pub mod search;
pub mod textdict;
