use gitkit::dir::entry::{Entry, EntryRef, Kind, Mode};
use gitkit::dir::walk::{
    check_root_component, is_eq, names_dot_git, worktree_relative_root, Action, Error, Options,
    Outcome,
};
use gitkit::object::ObjectId;
use gitkit::refs::loose::{FullName, Reference, Store, Target, WriteReflog};
use std::path::{Path, PathBuf};

#[test]
fn entries_keep_their_fields() {
    let borrowed = EntryRef { path: Path::new("root/file"), kind: Kind::Untracked, mode: Mode::Symlink };
    let owned = borrowed.to_owned();
    assert_eq!(owned, Entry { path: PathBuf::from("root/file"), kind: Kind::Untracked, mode: Mode::Symlink });
    assert_eq!(owned.to_ref(), borrowed);
    let dir = Entry { path: PathBuf::from("root/dir"), kind: Kind::Untracked, mode: Mode::Directory };
    assert_eq!(dir.to_ref().to_owned(), dir);
}

#[test]
fn names_are_compared_with_or_without_case() {
    assert!(is_eq(b".git", b".git", false));
    assert!(!is_eq(b".GIT", b".git", false));
    assert!(is_eq(b".GIT", b".git", true));
    assert!(!is_eq(b".gi", b".git", true));
    assert!(names_dot_git(b"a/.git", 2, false));
    assert!(!names_dot_git(b"a/.Git", 2, false));
    assert!(names_dot_git(b"a/.Git", 2, true));
    assert!(!names_dot_git(b"a/.git", 1, true));
    assert!(!names_dot_git(b"a/.git", 6, true));
    assert!(names_dot_git(b".git", 0, false));
}

#[test]
fn a_symlink_in_the_root_ends_the_walk() {
    let root = PathBuf::from("w/hide/breakout");
    let worktree = PathBuf::from("w");
    assert!(check_root_component(false, 0, root.clone(), worktree.clone()).is_ok());
    let err = check_root_component(true, 1, root.clone(), worktree.clone()).unwrap_err();
    assert!(matches!(err, Error::SymlinkInRoot { component_index, root: r, worktree_root: w } if component_index == 1 && r == root && w == worktree));
}

#[test]
fn walk_values() {
    let options = Options { precompose_unicode: false, ignore_case: true };
    assert_eq!(options, options.clone());
    assert_eq!(
        Outcome { read_dir_calls: 1, returned_entries: 2, seen_entries: 3 },
        Outcome { read_dir_calls: 1, returned_entries: 2, seen_entries: 3 }
    );
    assert_ne!(Action::Continue, Action::Cancel);
}

#[test]
fn references_have_the_kind_of_their_target() {
    let store = Store::at(PathBuf::from("/repo/.git"), WriteReflog::Disable);
    assert_eq!(store.base, PathBuf::from("/repo/.git"));
    assert_eq!(store.write_reflog, WriteReflog::Disable);
    let default = Store::from(PathBuf::from(".git"));
    assert_eq!(default, Store { base: PathBuf::from(".git"), write_reflog: WriteReflog::Normal });
    assert_eq!(WriteReflog::default(), WriteReflog::Normal);
    let peeled = Reference {
        parent: &store,
        name: FullName(b"refs/heads/main".to_vec()),
        target: Target::Peeled(ObjectId { bytes: [1; 20] }),
    };
    assert_eq!(peeled.kind(), gitkit::refs::loose::Kind::Peeled);
    let symbolic = Reference {
        parent: &store,
        name: FullName(b"HEAD".to_vec()),
        target: Target::Symbolic(FullName(b"refs/heads/main".to_vec())),
    };
    assert_eq!(symbolic.kind(), gitkit::refs::loose::Kind::Symbolic);
    assert_eq!(symbolic.target.kind(), gitkit::refs::loose::Kind::Symbolic);
}

#[test]
fn the_root_of_a_walk_has_to_lie_in_the_worktree() {
    assert_eq!(
        worktree_relative_root(Path::new("w"), Path::new("w/hide/../hide/breakout")).unwrap(),
        PathBuf::from("hide/breakout")
    );
    assert_eq!(worktree_relative_root(Path::new("w"), Path::new("w")).unwrap(), PathBuf::from(""));
    assert!(matches!(
        worktree_relative_root(Path::new("unrelated-worktree"), Path::new("traversal")),
        Err(Error::RootNotInWorktree { root, worktree_root })
            if root == PathBuf::from("traversal") && worktree_root == PathBuf::from("unrelated-worktree")
    ));
    assert!(matches!(
        worktree_relative_root(Path::new("w"), Path::new("w/../../elsewhere")),
        Err(Error::NormalizeRoot { root }) if root == PathBuf::from("w/../../elsewhere")
    ));
}

#[test]
fn root_may_not_lead_through_symlinks() {
    for (name, intermediate, expected) in [
        ("immediate-breakout-symlink", "", 0),
        ("breakout-symlink", "hide", 1),
        ("breakout-symlink", "hide/../hide", 1),
    ] {
        let worktree = PathBuf::from(name);
        let root = worktree.join(intermediate).join("breakout");
        let relative = worktree_relative_root(&worktree, &root).unwrap();
        let last = relative.components().count() - 1;
        // In each of these worktrees `breakout` is the symbolic link.
        for (index, _) in relative.components().enumerate() {
            let checked = check_root_component(index == last, index, root.clone(), worktree.clone());
            if index < last {
                assert!(checked.is_ok());
            } else {
                let err = checked.unwrap_err();
                assert!(
                    matches!(err, Error::SymlinkInRoot { component_index, .. } if component_index == expected),
                    "{name} should have component {expected}"
                );
            }
        }
    }
}

#[test]
fn root_must_be_in_worktree() {
    let err = worktree_relative_root(Path::new("unrelated-worktree"), Path::new("traversal")).unwrap_err();
    assert!(matches!(err, Error::RootNotInWorktree { .. }));
}
