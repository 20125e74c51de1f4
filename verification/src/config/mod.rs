//! Configuration files in the format of git: parsed into events, looked up by section,
//! subsection and key, changed, and written back byte for byte.
pub mod access;
pub mod events;
pub mod file;
pub mod grammar;
pub mod lookup;
pub mod mutate;
pub mod parser;
pub mod section;
pub mod values;
