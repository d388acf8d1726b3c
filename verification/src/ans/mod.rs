//! Range asymmetric numeral systems: an entropy coder for bytes.
pub mod decode;
pub mod encode;
pub mod table;
