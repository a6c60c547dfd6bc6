//! Paths of files, by the rules of the platform that the crate is built for.

use std::path::Path;
use std::path::PathBuf;
use vstd::prelude::*;
use vstd::utf8::{encode_scalar, encode_utf8};

verus! {

/// `std::path::Path`, carried as an opaque value.
#[verifier::external_type_specification]
#[verifier::external_body]
pub struct ExPath(std::path::Path);

/// `std::path::PathBuf`, carried as an opaque value.
#[verifier::external_type_specification]
#[verifier::external_body]
pub struct ExPathBuf(std::path::PathBuf);

/// The bytes that a path consists of.
pub uninterp spec fn path_bytes(path: &Path) -> Seq<u8>;

/// The bytes that an owned path consists of.
pub uninterp spec fn buf_bytes(path: PathBuf) -> Seq<u8>;

/// Whether the path of these bytes is absolute.
pub uninterp spec fn absolute_path(path: Seq<u8>) -> bool;

/// The bytes of a path that is adjoined to another one.
pub uninterp spec fn joined_path(base: Seq<u8>, path: Seq<u8>) -> Seq<u8>;

/// The bytes of a path without its final component; `None` where it has none.
pub uninterp spec fn parent_path(path: Seq<u8>) -> Option<Seq<u8>>;

/// The characters that show a path.
pub uninterp spec fn shown_path(path: Seq<u8>) -> Seq<char>;

/// `std::path::Path::is_absolute`: its result is named `absolute_path`.
#[verifier::external_body]
fn is_absolute(path: &Path) -> (r: bool)
    ensures
        r == absolute_path(path_bytes(path)),
{
    path.is_absolute()
}

/// `std::path::Path::join`: its result is named `joined_path`. That what is joined to an absolute
/// path is absolute is left unsaid: on Windows a path with a drive and no root replaces the base.
#[verifier::external_body]
fn join(base: &Path, path: &Path) -> (r: PathBuf)
    ensures
        buf_bytes(r) == joined_path(path_bytes(base), path_bytes(path)),
{
    base.join(path)
}

/// `std::path::Path::parent`: its result is named `parent_path`.
#[verifier::external_body]
fn parent(path: &Path) -> (r: Option<&Path>)
    ensures
        match r {
            Some(parent) => parent_path(path_bytes(path)) == Some(path_bytes(parent)),
            None => parent_path(path_bytes(path)) is None,
        },
{
    path.parent()
}

/// `std::ffi::OsStr::is_empty`, of the text of a path: whether the path has no bytes.
#[verifier::external_body]
fn is_empty(path: &Path) -> (r: bool)
    ensures
        r == (path_bytes(path).len() == 0),
{
    path.as_os_str().is_empty()
}

/// `std::path::Path::new`, of a text: the path whose bytes are the text in UTF-8.
#[verifier::external_body]
fn path_of(text: &str) -> (r: &Path)
    ensures
        path_bytes(r) == encode_utf8(text@),
{
    Path::new(text)
}

/// `std::path::Path::to_path_buf`: an owned path of the same bytes.
#[verifier::external_body]
fn to_path_buf(path: &Path) -> (r: PathBuf)
    ensures
        buf_bytes(r) == path_bytes(path),
{
    path.to_path_buf()
}

/// `std::path::PathBuf::as_path`: the path that is owned.
#[verifier::external_body]
pub(crate) fn as_path(path: &PathBuf) -> (r: &Path)
    ensures
        path_bytes(r) == buf_bytes(*path),
{
    path.as_path()
}

/// `std::path::Path::display`, rendered: its result is named `shown_path`.
#[verifier::external_body]
pub(crate) fn show(path: &Path) -> (r: String)
    ensures
        r@ == shown_path(path_bytes(path)),
{
    path.display().to_string()
}

/// What a path consists of, where there is one.
pub open spec fn bytes_of(path: Option<&Path>) -> Option<Seq<u8>> {
    match path {
        Some(path) => Some(path_bytes(path)),
        None => None,
    }
}

/// The directory that the paths in a file are relative to, from the parent of the path of that
/// file: the parent, or else the current directory.
pub open spec fn base_dir(parent: Option<Seq<u8>>) -> Seq<u8> {
    match parent {
        Some(bytes) => if bytes.len() > 0 {
            bytes
        } else {
            encode_utf8("."@)
        },
        None => encode_utf8("."@),
    }
}

/// A path seen from a directory: itself where it is absolute, or else joined to the directory.
pub open spec fn resolved_path(base: Seq<u8>, path: Seq<u8>) -> Seq<u8> {
    if absolute_path(path) {
        path
    } else {
        joined_path(base, path)
    }
}

/// The parent of a path as a base directory: an empty one, or none, is the current directory.
pub fn parent_or_current(parent: Option<&Path>) -> (r: PathBuf)
    ensures
        buf_bytes(r) == base_dir(bytes_of(parent)),
{
    match parent {
        Some(path) => {
            if is_empty(path) {
                to_path_buf(path_of("."))
            } else {
                to_path_buf(path)
            }
        },
        None => to_path_buf(path_of(".")),
    }
}

/// The directory of a configuration file, against which the paths in it are resolved.
pub fn config_base_dir(path: &Path) -> (r: PathBuf)
    ensures
        buf_bytes(r) == base_dir(parent_path(path_bytes(path))),
{
    parent_or_current(parent(path))
}

/// A path where it is absolute, and otherwise what came of joining it to a directory.
pub fn path_or_joined(absolute: bool, path: &Path, joined: PathBuf) -> (r: PathBuf)
    ensures
        buf_bytes(r) == if absolute {
            path_bytes(path)
        } else {
            buf_bytes(joined)
        },
{
    if absolute {
        to_path_buf(path)
    } else {
        joined
    }
}

/// A path of a configuration file: as it is where it is absolute, or else below `base_dir`.
pub fn resolve_config_path(base_dir: &Path, path: &Path) -> (r: PathBuf)
    ensures
        buf_bytes(r) == resolved_path(path_bytes(base_dir), path_bytes(path)),
{
    path_or_joined(is_absolute(path), path, join(base_dir, path))
}

/// A path that is absolute once it is resolved stays what it is, whatever directory it is
/// resolved against again.
pub proof fn law_resolved_path_is_stable(base: Seq<u8>, path: Seq<u8>, other: Seq<u8>)
    requires
        absolute_path(resolved_path(base, path)),
    ensures
        resolved_path(other, resolved_path(base, path)) == resolved_path(base, path),
{
}

/// A path resolves to itself where it is absolute, whatever the directory, and else to the path
/// that is joined to the directory.
pub proof fn law_only_relative_paths_are_joined(base: Seq<u8>, path: Seq<u8>)
    ensures
        absolute_path(path) ==> resolved_path(base, path) == path,
        !absolute_path(path) ==> resolved_path(base, path) == joined_path(base, path),
{
}

/// The base directory is never empty: it is the parent where that has bytes, and else the current
/// directory.
pub proof fn law_base_directory_is_never_empty(parent: Option<Seq<u8>>)
    ensures
        base_dir(parent).len() > 0,
        parent is Some && parent->0.len() > 0 ==> base_dir(parent) == parent->0,
        parent is None || parent->0.len() == 0 ==> base_dir(parent) == encode_utf8(seq!['.']),
{
    reveal_strlit(".");
    assert("."@ =~= seq!['.']);
    assert(encode_utf8(seq!['.']).len() > 0) by {
        assert(encode_utf8(seq!['.']) == encode_scalar('.' as u32) + encode_utf8(
            seq!['.'].drop_first(),
        ));
    }
}

} // verus!
