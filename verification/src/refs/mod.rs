//! References that are stored as files.
pub mod loose;
