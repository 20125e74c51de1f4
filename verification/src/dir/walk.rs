//! What a walk takes and gives, and what it decides by names alone.
use vstd::prelude::*;
use std::path::{Path, PathBuf};
use crate::config::section::{eq_bytes, eq_ignore_case, same_name};

verus! {

/// How to walk.
#[derive(Debug, Clone, Copy, PartialEq, Eq, Hash, Ord, PartialOrd, Structural)]
pub struct Options {
    /// Whether the file system stores names as decomposed Unicode, so that they have to
    /// be composed again before use.
    pub precompose_unicode: bool,
    /// Whether the file system takes `A` and `a` for the same name.
    pub ignore_case: bool,
}

/// What a walk did.
#[derive(Debug, Clone, Copy, Ord, PartialOrd, Eq, PartialEq, Structural)]
pub struct Outcome {
    /// The number of directories that were read.
    pub read_dir_calls: usize,
    /// The number of entries that were handed out.
    pub returned_entries: usize,
    /// The number of entries that were seen, before any was left out.
    pub seen_entries: usize,
}

/// Why a walk failed.
#[derive(Debug)]
pub enum Error {
    /// The root of the walk holds relative components and cannot be normalised.
    NormalizeRoot { root: PathBuf },
    /// The root of the walk does not lie in the worktree.
    RootNotInWorktree { root: PathBuf, worktree_root: PathBuf },
    /// A component of the root of the walk is a symbolic link. The first component
    /// below the worktree has the index 0.
    SymlinkInRoot { root: PathBuf, worktree_root: PathBuf, component_index: usize },
    /// The metadata of a component of the root could not be read.
    SymlinkMetadata { path: PathBuf },
}

/// What the caller answers to an entry.
#[derive(Debug, Copy, Clone, PartialEq, Eq, Structural)]
pub enum Action {
    /// Go on.
    Continue,
    /// Stop the walk.
    Cancel,
}

/// What is left of `path` without the components of `base` at its start, if it starts
/// with them.
pub uninterp spec fn without_prefix(path: &Path, base: &Path) -> Option<PathBuf>;

/// The path without its `..` components, each of which takes the component before it
/// away, if there is one for each. A relative path of which nothing is left is `.`.
pub uninterp spec fn normalized(path: PathBuf) -> Option<PathBuf>;

/// `std::path::Path::strip_prefix`: the rest of `path` after `base`, or nothing where
/// `path` does not start with `base`.
#[verifier::external_body]
fn strip_prefix(path: &Path, base: &Path) -> (rest: Option<PathBuf>)
    ensures
        rest == without_prefix(path, base),
{
    path.strip_prefix(base).ok().map(|rest| rest.to_owned())
}

/// `gix_path::normalize` against an empty current directory: the path without its `..`
/// components, or nothing where one of them has no component before it to take away.
#[verifier::external_body]
fn normalize(path: PathBuf) -> (clean: Option<PathBuf>)
    ensures
        clean == normalized(path),
{
    gix_path::normalize(path.into(), Path::new("")).map(|clean| clean.into_owned())
}

/// What the root of a walk is relative to the worktree.
pub open spec fn relative_root(worktree_root: &Path, root: &Path) -> Option<PathBuf> {
    match without_prefix(root, worktree_root) {
        Some(relative) => normalized(relative),
        None => None,
    }
}

/// The root of a walk relative to the worktree, without `..` components. A root that
/// does not lie in the worktree, or that cannot be normalised, is an error.
pub fn worktree_relative_root(worktree_root: &Path, root: &Path) -> (relative: Result<
    PathBuf,
    Error,
>)
    ensures
        match relative {
            Ok(path) => relative_root(worktree_root, root) == Some(path),
            Err(Error::RootNotInWorktree { root: r, worktree_root: w }) => without_prefix(
                root,
                worktree_root,
            ) is None && r == crate::path::owned_path(root) && w == crate::path::owned_path(
                worktree_root,
            ),
            Err(Error::NormalizeRoot { root: r }) => without_prefix(root, worktree_root)
                is Some && relative_root(worktree_root, root) is None && r
                == crate::path::owned_path(root),
            Err(_) => false,
        },
{
    let relative = match strip_prefix(root, worktree_root) {
        Some(relative) => relative,
        None => {
            return Err(
                Error::RootNotInWorktree {
                    worktree_root: crate::path::to_path_buf(worktree_root),
                    root: crate::path::to_path_buf(root),
                },
            );
        },
    };
    match normalize(relative) {
        Some(clean) => Ok(clean),
        None => Err(Error::NormalizeRoot { root: crate::path::to_path_buf(root) }),
    }
}

/// Compares two names, with or without regard to the case of ASCII letters.
pub fn is_eq(lhs: &[u8], rhs: &[u8], ignore_case: bool) -> (same: bool)
    ensures
        same == (if ignore_case {
            same_name(lhs@, rhs@)
        } else {
            lhs@ == rhs@
        }),
{
    if ignore_case {
        eq_ignore_case(lhs, rhs)
    } else {
        eq_bytes(lhs, rhs)
    }
}

/// The name `.git`.
pub open spec fn dot_git() -> Seq<u8> {
    seq![0x2eu8, 0x67, 0x69, 0x74]
}

/// Whether the file name of `rela_path`, which starts at `filename_start_idx`, is
/// `.git`. A path with that name is never classified.
pub fn names_dot_git(rela_path: &[u8], filename_start_idx: usize, ignore_case: bool) -> (yes: bool)
    requires
        filename_start_idx <= rela_path@.len(),
    ensures
        yes == (if ignore_case {
            same_name(rela_path@.subrange(filename_start_idx as int, rela_path@.len() as int), dot_git())
        } else {
            rela_path@.subrange(filename_start_idx as int, rela_path@.len() as int) == dot_git()
        }),
{
    let name: [u8; 4] = [0x2e, 0x67, 0x69, 0x74];
    assert(name@ =~= dot_git());
    is_eq(
        vstd::slice::slice_subrange(rela_path, filename_start_idx, rela_path.len()),
        name.as_slice(),
        ignore_case,
    )
}

/// What follows from looking at the component `component_index` of the root of a walk:
/// a component that is a symbolic link ends the walk with its index.
pub fn check_root_component(
    is_symlink: bool,
    component_index: usize,
    root: PathBuf,
    worktree_root: PathBuf,
) -> (checked: Result<(), Error>)
    ensures
        is_symlink ==> (checked matches Err(
            Error::SymlinkInRoot { root: r, worktree_root: w, component_index: i },
        ) && r == root && w == worktree_root && i == component_index),
        !is_symlink ==> checked is Ok,
{
    if is_symlink {
        Err(Error::SymlinkInRoot { root, worktree_root, component_index })
    } else {
        Ok(())
    }
}

} // verus!
