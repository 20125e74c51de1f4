use gitkit::path::{
    from_byte_slice, from_byte_slice_or_panic_on_windows, from_byte_vec,
    from_byte_vec_or_panic_on_windows, from_bytes, from_bytes_or_panic_on_windows, into_bytes,
    into_bytes_or_panic_on_windows, replace, to_native_separators, to_unix_separators,
    to_unix_separators_on_windows, to_windows_separators,
    to_windows_separators_on_windows_or_panic, with_native_separators,
    with_unix_separators_where, Utf8Error,
};
use std::path::{Path, PathBuf};

#[test]
fn bytes_become_paths_and_paths_bytes() {
    assert_eq!(from_byte_slice(b"a/b"), Ok(Path::new("a/b")));
    assert_eq!(from_byte_vec(b"a/b".to_vec()), Ok(PathBuf::from("a/b")));
    assert_eq!(from_bytes(b"dir/\xc3\xa4".to_vec()), Ok(PathBuf::from("dir/ä")));
    assert_eq!(from_bytes_or_panic_on_windows(b"x".to_vec()), PathBuf::from("x"));
    assert_eq!(from_byte_vec_or_panic_on_windows(b"x/y".to_vec()), PathBuf::from("x/y"));
    assert_eq!(from_byte_slice_or_panic_on_windows(b"x/y"), Path::new("x/y"));
    assert_eq!(into_bytes(PathBuf::from("a/b")), Ok(b"a/b".to_vec()));
    assert_eq!(into_bytes_or_panic_on_windows(PathBuf::from("dir/ä")), b"dir/\xc3\xa4".to_vec());
    assert_eq!(into_bytes(from_byte_vec(b"round/trip".to_vec()).unwrap()), Ok(b"round/trip".to_vec()));
    assert_eq!(into_bytes(PathBuf::new()), Ok(Vec::new()));
}

#[test]
fn the_error_says_what_went_wrong() {
    assert_eq!(Utf8Error.message(), "Could not convert to UTF8 or from UTF8 due to ill-formed input");
}

#[test]
fn separators_are_replaced() {
    assert_eq!(replace(b"a.b.c".to_vec(), b'.', b'-'), b"a-b-c".to_vec());
    assert_eq!(replace(b"abc".to_vec(), b'.', b'-'), b"abc".to_vec());
    assert_eq!(replace(Vec::new(), b'.', b'-'), Vec::<u8>::new());
    assert_eq!(to_unix_separators(b"a\\b/c\\".to_vec()), b"a/b/c/".to_vec());
    assert_eq!(to_windows_separators(b"a\\b/c/".to_vec()), b"a\\b\\c\\".to_vec());
    assert_eq!(with_native_separators(b"a\\b/c".to_vec(), true), b"a\\b\\c".to_vec());
    assert_eq!(with_native_separators(b"a\\b/c".to_vec(), false), b"a/b/c".to_vec());
    assert_eq!(with_unix_separators_where(b"a\\b/c".to_vec(), true), b"a/b/c".to_vec());
    assert_eq!(with_unix_separators_where(b"a\\b/c".to_vec(), false), b"a\\b/c".to_vec());
}

#[test]
fn separators_of_this_platform() {
    let backslashes = std::path::is_separator('\\');
    assert_eq!(to_native_separators(b"a\\b/c".to_vec()), with_native_separators(b"a\\b/c".to_vec(), backslashes));
    assert_eq!(
        to_unix_separators_on_windows(b"a\\b/c".to_vec()),
        with_unix_separators_where(b"a\\b/c".to_vec(), backslashes)
    );
    let expected = if backslashes { PathBuf::from("a\\b") } else { PathBuf::from("a/b") };
    assert_eq!(to_windows_separators_on_windows_or_panic(b"a/b".to_vec()), expected);
}
