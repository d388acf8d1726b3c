//! Byte-level statistical models.
pub mod match_model;
pub mod order_n;
pub mod run_model;
