//! A store of references below a git directory, and the references in it.
use vstd::prelude::*;
use std::path::PathBuf;
use crate::object::ObjectId;

verus! {

/// The two kinds of references.
#[derive(Debug, Clone, Copy, PartialEq, Eq, Hash, Ord, PartialOrd, Structural)]
pub enum Kind {
    /// The reference names an object.
    Peeled,
    /// The reference names another reference.
    Symbolic,
}

/// The full name of a reference, like `refs/heads/main`.
#[derive(Debug, Clone, PartialEq, Eq, Hash, Ord, PartialOrd)]
pub struct FullName(pub Vec<u8>);

/// What a reference points to.
#[derive(Debug, Clone, PartialEq, Eq, Hash, Ord, PartialOrd)]
pub enum Target {
    /// An object.
    Peeled(ObjectId),
    /// Another reference, by its full name.
    Symbolic(FullName),
}

impl Target {
    /// The kind of reference that has this target.
    pub fn kind(&self) -> (kind: Kind)
        ensures
            kind == (match self {
                Target::Peeled(_) => Kind::Peeled,
                Target::Symbolic(_) => Kind::Symbolic,
            }),
    {
        match self {
            Target::Peeled(_) => Kind::Peeled,
            Target::Symbolic(_) => Kind::Symbolic,
        }
    }
}

/// Whether changes of references are logged.
#[derive(Debug, Clone, Copy, PartialEq, Eq, Hash, Ord, PartialOrd, Structural)]
pub enum WriteReflog {
    /// Log as git does.
    Normal,
    /// Do not log.
    Disable,
}

impl Default for WriteReflog {
    fn default() -> (mode: WriteReflog)
        ensures
            mode == WriteReflog::Normal,
    {
        WriteReflog::Normal
    }
}

/// A store of references below a git directory.
#[derive(Debug, Clone, PartialEq, Eq, Hash, Ord, PartialOrd)]
pub struct Store {
    /// The git directory, which holds the folder `refs`.
    pub base: PathBuf,
    /// Whether changes of references are logged.
    pub write_reflog: WriteReflog,
}

impl Store {
    /// The store at the git directory `git_dir`.
    pub fn at(git_dir: PathBuf, write_reflog: WriteReflog) -> (store: Store)
        ensures
            store.base == git_dir,
            store.write_reflog == write_reflog,
    {
        Store { base: git_dir, write_reflog }
    }

    /// The store at the git directory `path`, which logs as git does.
    pub fn from(path: PathBuf) -> (store: Store)
        ensures
            store.base == path,
            store.write_reflog == WriteReflog::Normal,
    {
        Store::at(path, WriteReflog::Normal)
    }
}

/// A reference that is stored in a file.
#[derive(Debug, PartialOrd, PartialEq, Ord, Eq, Hash, Clone)]
pub struct Reference<'a> {
    /// The store that holds the reference.
    pub parent: &'a Store,
    /// The name by which the store knows the reference.
    pub name: FullName,
    /// What the reference points to.
    pub target: Target,
}

impl<'a> Reference<'a> {
    /// The kind of the reference.
    pub fn kind(&self) -> (kind: Kind)
        ensures
            kind == (match self.target {
                Target::Peeled(_) => Kind::Peeled,
                Target::Symbolic(_) => Kind::Symbolic,
            }),
    {
        self.target.kind()
    }
}

} // verus!
