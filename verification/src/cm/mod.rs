//! The context-mixing engine.
pub mod apm;
pub mod bank;
pub mod coder;
pub mod contexts;
pub mod control;
pub mod counters;
pub mod framing;
pub mod hash;
pub mod leaning;
pub mod learning;
pub mod levels;
pub mod logistic;
pub mod markup;
pub mod matcher;
pub mod mixer;
pub mod paged;
pub mod parallel;
pub mod predictor;
pub mod segment;
pub mod sizing;
pub mod sse;
pub mod states;
pub mod thrift;

pub use crate::cm::control::Control;
pub use crate::cm::framing::{decode, decode_framed, encode, encode_framed, SEG_SIZE};
pub use crate::cm::levels::{decode_with_control, encode_with_control};
pub use crate::cm::predictor::Predictor;
