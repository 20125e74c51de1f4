//! Conversions between paths and bytes, and between path separators.
use vstd::prelude::*;
use vstd::utf8::valid_utf8;
use std::path::{Path, PathBuf};
use bstr::{ByteSlice, ByteVec};

verus! {

#[verifier::external_type_specification]
#[verifier::external_body]
pub struct ExPathBuf(std::path::PathBuf);

#[verifier::external_type_specification]
#[verifier::external_body]
pub struct ExPath(std::path::Path);

/// `Clone` of `std::path::PathBuf`: the copy equals the path.
pub assume_specification[ <std::path::PathBuf as Clone>::clone ](
    path: &std::path::PathBuf,
) -> (copy: std::path::PathBuf)
    ensures
        copy == *path,
;

/// The bytes of a path: the path itself where the platform keeps paths as bytes, else
/// its UTF-8 encoding where it has one.
pub uninterp spec fn path_bytes(path: PathBuf) -> Seq<u8>;

/// Whether the bytes of a path can be had: always where the platform keeps paths as
/// bytes, else where the path is well-formed Unicode.
pub uninterp spec fn has_bytes(path: PathBuf) -> bool;

/// The owned path that equals a borrowed one.
pub uninterp spec fn owned_path(path: &Path) -> PathBuf;

/// The separator of path components on Unix.
pub const SLASH: u8 = 0x2f;

/// The separator of path components on Windows.
pub const BACKSLASH: u8 = 0x5c;

/// The error of conversions from or to bytes that met ill-formed UTF-8.
#[derive(Clone, Copy, Debug, PartialEq, Eq, Structural)]
pub struct Utf8Error;

impl Utf8Error {
    /// What went wrong, in words.
    pub fn message(&self) -> (text: &'static str)
        ensures
            text@ == "Could not convert to UTF8 or from UTF8 due to ill-formed input"@,
    {
        "Could not convert to UTF8 or from UTF8 due to ill-formed input"
    }
}

/// `bstr::ByteVec::from_path_buf`: the bytes of the path, or nothing where they cannot
/// be had.
#[verifier::external_body]
fn path_to_bytes(path: PathBuf) -> (bytes: Option<Vec<u8>>)
    ensures
        bytes is Some <==> has_bytes(path),
        bytes matches Some(b) ==> b@ == path_bytes(path),
{
    Vec::from_path_buf(path).ok()
}

/// `bstr::ByteVec::into_path_buf`: the path with the given bytes. It is there at least
/// where the bytes are valid UTF-8, and its bytes can be had again.
#[verifier::external_body]
fn bytes_to_path(input: Vec<u8>) -> (path: Option<PathBuf>)
    ensures
        valid_utf8(input@) ==> path is Some,
        path matches Some(p) ==> path_bytes(p) == input@ && has_bytes(p),
{
    input.into_path_buf().ok()
}

/// `bstr::ByteSlice::to_path`: the borrowed path with the given bytes. It is there at
/// least where the bytes are valid UTF-8, and its bytes can be had again.
#[verifier::external_body]
fn slice_to_path(input: &[u8]) -> (path: Option<&Path>)
    ensures
        valid_utf8(input@) ==> path is Some,
        path matches Some(p) ==> path_bytes(owned_path(p)) == input@ && has_bytes(owned_path(p)),
{
    input.to_path().ok()
}

/// `std::path::Path::to_path_buf`: the owned path that equals `path`.
#[verifier::external_body]
pub(crate) fn to_path_buf(path: &Path) -> (owned: PathBuf)
    ensures
        owned == owned_path(path),
{
    path.to_path_buf()
}

/// `std::path::PathBuf::as_path`: the path borrowed.
#[verifier::external_body]
pub(crate) fn as_path(path: &PathBuf) -> (borrowed: &Path)
    ensures
        owned_path(borrowed) == *path,
{
    path.as_path()
}

/// `std::path::is_separator` of a backslash: whether the platform separates path
/// components by backslashes too, as Windows does. It depends on the platform alone.
#[verifier::external_body]
fn backslash_separates() -> bool {
    std::path::is_separator('\\')
}

/// Converts `path` into its bytes: the raw bytes where the platform keeps paths as
/// bytes, else its UTF-8 encoding, which fails on ill-formed Unicode.
pub fn into_bytes(path: PathBuf) -> (bytes: Result<Vec<u8>, Utf8Error>)
    ensures
        bytes is Ok <==> has_bytes(path),
        bytes matches Ok(b) ==> b@ == path_bytes(path),
{
    match path_to_bytes(path) {
        Some(bytes) => Ok(bytes),
        None => Err(Utf8Error),
    }
}

/// Like [`into_bytes`], for paths whose bytes can be had.
pub fn into_bytes_or_panic_on_windows(path: PathBuf) -> (bytes: Vec<u8>)
    requires
        has_bytes(path),
    ensures
        bytes@ == path_bytes(path),
{
    match path_to_bytes(path) {
        Some(bytes) => bytes,
        None => vstd::pervasive::unreached(),
    }
}

/// Makes a borrowed path of `input`. Bytes that are valid UTF-8 give a path on every
/// platform; other bytes do where the platform keeps paths as bytes.
pub fn from_byte_slice(input: &[u8]) -> (path: Result<&Path, Utf8Error>)
    ensures
        valid_utf8(input@) ==> path is Ok,
        path matches Ok(p) ==> path_bytes(owned_path(p)) == input@ && has_bytes(owned_path(p)),
{
    match slice_to_path(input) {
        Some(path) => Ok(path),
        None => Err(Utf8Error),
    }
}

/// Makes an owned path of `input`. Bytes that are valid UTF-8 give a path on every
/// platform; other bytes do where the platform keeps paths as bytes.
pub fn from_byte_vec(input: Vec<u8>) -> (path: Result<PathBuf, Utf8Error>)
    ensures
        valid_utf8(input@) ==> path is Ok,
        path matches Ok(p) ==> path_bytes(p) == input@ && has_bytes(p),
{
    match bytes_to_path(input) {
        Some(path) => Ok(path),
        None => Err(Utf8Error),
    }
}

/// Like [`from_byte_vec`].
pub fn from_bytes(input: Vec<u8>) -> (path: Result<PathBuf, Utf8Error>)
    ensures
        valid_utf8(input@) ==> path is Ok,
        path matches Ok(p) ==> path_bytes(p) == input@ && has_bytes(p),
{
    from_byte_vec(input)
}

/// Like [`from_bytes`], for bytes that give a path on every platform.
pub fn from_bytes_or_panic_on_windows(input: Vec<u8>) -> (path: PathBuf)
    requires
        valid_utf8(input@),
    ensures
        path_bytes(path) == input@,
        has_bytes(path),
{
    from_byte_vec_or_panic_on_windows(input)
}

/// Like [`from_byte_vec`], for bytes that give a path on every platform.
pub fn from_byte_vec_or_panic_on_windows(input: Vec<u8>) -> (path: PathBuf)
    requires
        valid_utf8(input@),
    ensures
        path_bytes(path) == input@,
        has_bytes(path),
{
    match bytes_to_path(input) {
        Some(path) => path,
        None => vstd::pervasive::unreached(),
    }
}

/// Like [`from_byte_slice`], for bytes that give a path on every platform.
pub fn from_byte_slice_or_panic_on_windows(input: &[u8]) -> (path: &Path)
    requires
        valid_utf8(input@),
    ensures
        path_bytes(owned_path(path)) == input@,
        has_bytes(owned_path(path)),
{
    match slice_to_path(input) {
        Some(path) => path,
        None => vstd::pervasive::unreached(),
    }
}

/// The bytes of `path` with every occurrence of `find` replaced by `with`.
pub open spec fn replaced(path: Seq<u8>, find: u8, with: u8) -> Seq<u8> {
    Seq::new(path.len(), |i: int| if path[i] == find { with } else { path[i] })
}

/// Replaces every `find` byte in `path` by `with`.
pub fn replace(path: Vec<u8>, find: u8, with: u8) -> (out: Vec<u8>)
    ensures
        out@ == replaced(path@, find, with),
{
    let mut path = path;
    let ghost orig = path@;
    let mut i: usize = 0;
    while i < path.len()
        invariant
            i <= path.len(),
            path.len() == orig.len(),
            forall|j: int| 0 <= j < i ==> path@[j] == replaced(orig, find, with)[j],
            forall|j: int| i <= j < path.len() ==> path@[j] == orig[j],
        decreases path.len() - i,
    {
        if path[i] == find {
            path.set(i, with);
        }
        i += 1;
    }
    assert(path@ =~= replaced(orig, find, with));
    path
}

/// Replaces backslashes by slashes.
pub fn to_unix_separators(path: Vec<u8>) -> (out: Vec<u8>)
    ensures
        out@ == replaced(path@, 0x5c, 0x2f),
{
    replace(path, BACKSLASH, SLASH)
}

/// Replaces slashes by backslashes.
pub fn to_windows_separators(path: Vec<u8>) -> (out: Vec<u8>)
    ensures
        out@ == replaced(path@, 0x2f, 0x5c),
{
    replace(path, SLASH, BACKSLASH)
}

/// What [`to_native_separators`] gives on a platform that does or does not separate by
/// backslashes.
pub open spec fn native_separators(path: Seq<u8>, backslashes: bool) -> Seq<u8> {
    if backslashes {
        replaced(path, 0x2f, 0x5c)
    } else {
        replaced(path, 0x5c, 0x2f)
    }
}

/// The path with the separators of a platform that does or does not separate by
/// backslashes.
pub fn with_native_separators(path: Vec<u8>, backslashes: bool) -> (out: Vec<u8>)
    ensures
        out@ == native_separators(path@, backslashes),
{
    if backslashes {
        to_windows_separators(path)
    } else {
        to_unix_separators(path)
    }
}

/// Makes the path use the separator of the platform it runs on.
pub fn to_native_separators(path: Vec<u8>) -> (out: Vec<u8>)
    ensures
        out@ == native_separators(path@, true) || out@ == native_separators(path@, false),
{
    with_native_separators(path, backslash_separates())
}

/// What [`to_unix_separators_on_windows`] gives on a platform that does or does not
/// separate by backslashes.
pub open spec fn unix_separators_where(path: Seq<u8>, backslashes: bool) -> Seq<u8> {
    if backslashes {
        replaced(path, 0x5c, 0x2f)
    } else {
        path
    }
}

/// The path with slashes for backslashes on a platform that separates by backslashes,
/// and unchanged on any other.
pub fn with_unix_separators_where(path: Vec<u8>, backslashes: bool) -> (out: Vec<u8>)
    ensures
        out@ == unix_separators_where(path@, backslashes),
{
    if backslashes {
        to_unix_separators(path)
    } else {
        path
    }
}

/// Replaces backslashes by slashes, but only on Windows.
pub fn to_unix_separators_on_windows(path: Vec<u8>) -> (out: Vec<u8>)
    ensures
        out@ == unix_separators_where(path@, true) || out@ == unix_separators_where(path@, false),
{
    with_unix_separators_where(path, backslash_separates())
}

/// Makes a path of `path`, with backslashes for slashes on Windows and unchanged on any
/// other platform. Both forms have to give a path on every platform.
pub fn to_windows_separators_on_windows_or_panic(path: Vec<u8>) -> (out: PathBuf)
    requires
        valid_utf8(path@),
        valid_utf8(replaced(path@, 0x2f, 0x5c)),
    ensures
        path_bytes(out) == path@ || path_bytes(out) == replaced(path@, 0x2f, 0x5c),
        has_bytes(out),
{
    if backslash_separates() {
        from_bytes_or_panic_on_windows(to_windows_separators(path))
    } else {
        from_bytes_or_panic_on_windows(path)
    }
}

} // verus!
