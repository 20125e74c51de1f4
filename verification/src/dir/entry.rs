//! One entry of a directory, borrowed or owned.
use vstd::prelude::*;
use std::path::{Path, PathBuf};
use crate::path::{as_path, owned_path, to_path_buf};

verus! {

/// What an entry is on disk.
#[derive(Debug, Clone, Copy, PartialEq, Eq, Hash, Ord, PartialOrd, Structural)]
pub enum Mode {
    /// A blob, executable or not.
    Blob,
    /// A symbolic link.
    Symlink,
    /// A directory that is untracked or ignored with all it holds.
    Directory,
    /// A directory that holds a `.git` folder.
    Repository,
}

/// What git knows of an entry.
#[derive(Debug, Clone, Copy, PartialEq, Eq, Hash, Ord, PartialOrd, Structural)]
pub enum Kind {
    /// The entry is not in the index.
    Untracked,
}

/// An entry whose path is borrowed.
#[derive(Debug, Clone, Copy, PartialEq, Eq, Hash, Ord, PartialOrd)]
pub struct EntryRef<'a> {
    /// The path of the entry, which starts with the root of the walk.
    pub path: &'a Path,
    /// What git knows of the entry.
    pub kind: Kind,
    /// What the entry is on disk.
    pub mode: Mode,
}

/// An entry that owns its path.
#[derive(Debug, Clone, PartialEq, Eq, Hash, Ord, PartialOrd)]
pub struct Entry {
    /// The path of the entry, which starts with the root of the walk.
    pub path: PathBuf,
    /// What git knows of the entry.
    pub kind: Kind,
    /// What the entry is on disk.
    pub mode: Mode,
}

impl EntryRef<'_> {
    /// The same entry with a path of its own.
    pub fn to_owned(&self) -> (entry: Entry)
        ensures
            entry.path == owned_path(self.path),
            entry.kind == self.kind,
            entry.mode == self.mode,
    {
        Entry { path: to_path_buf(self.path), kind: self.kind, mode: self.mode }
    }
}

impl Entry {
    /// The same entry with its path borrowed.
    pub fn to_ref(&self) -> (entry: EntryRef<'_>)
        ensures
            owned_path(entry.path) == self.path,
            entry.kind == self.kind,
            entry.mode == self.mode,
    {
        EntryRef { path: as_path(&self.path), kind: self.kind, mode: self.mode }
    }
}

} // verus!
