//! Archive files.
pub mod create;
pub mod extract;
pub mod format;
pub mod solid;
