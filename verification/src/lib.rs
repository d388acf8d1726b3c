//! CPGC: a verified context-mixing compressor.
pub mod analyzer;
pub mod ans;
pub mod archive;
pub mod bitstream;
pub mod browse;
pub mod bytes;
pub mod calendar;
pub mod checksum;
pub mod cm;
pub mod codec;
pub mod economy;
pub mod names;
pub mod predictor;
pub mod selection;
pub mod shell;
pub mod transform;
