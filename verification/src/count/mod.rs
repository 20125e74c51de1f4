//! Counting the objects that make up a pack: from starting ids, through an expansion
//! policy, to one entry per object.
pub mod expand;
pub mod model;
pub mod objects;
pub mod reach;
pub mod reduce;
pub mod types;
pub mod util;
