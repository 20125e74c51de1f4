//! Object selection for packs, pack traversal, and supporting git utilities.
pub mod config;
pub mod count;
pub mod decode;
pub mod describe;
pub mod dir;
pub mod find;
pub mod interrupt;
pub mod object;
pub mod parallel;
pub mod path;
pub mod refs;
pub mod seen;
pub mod transport;
pub mod traverse;
