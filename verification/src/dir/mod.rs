//! The entries that a walk through a directory of a git worktree sees.
pub mod entry;
pub mod walk;
