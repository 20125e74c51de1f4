//! Walking all entries of a pack by its index: every entry is decoded, checked and
//! handed on, while the checksums of pack and index are verified.
pub mod reduce;
pub mod types;
pub mod verify;
pub mod with_lookup;
