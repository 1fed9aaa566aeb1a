//! File-system paths, held as strings, and the `std::path` operations the library uses on
//! them. Paths follow the Unix rules of `std::path`: `/` separates components.
use vstd::prelude::*;
use std::path::Path;

verus! {

/// The text of an optional string.
pub open spec fn opt_text(o: Option<String>) -> Option<Seq<char>> {
    match o {
        Some(s) => Some(s@),
        None => None,
    }
}

/// Whether a path is absolute: on Unix, whether it starts with `/`.
pub open spec fn is_absolute_path(p: Seq<char>) -> bool {
    p.len() > 0 && p[0] == '/'
}

/// What `Path::join` gives for a base path and a path adjoined to it: an absolute part
/// replaces the base; otherwise the base, a `/` when the base is not empty and does not
/// end in one, then the part.
pub open spec fn joined_path(base: Seq<char>, part: Seq<char>) -> Seq<char> {
    if is_absolute_path(part) {
        part
    } else if base.len() == 0 || base.last() == '/' {
        base + part
    } else {
        base + seq!['/'] + part
    }
}

/// What `Path::strip_prefix` gives for a path and a base: the rest of the path after the
/// components of the base, or nothing when the base is not a prefix of the path.
pub uninterp spec fn stripped_path(path: Seq<char>, base: Seq<char>) -> Option<Seq<char>>;

/// What `Path::parent` gives: the path without its last component, or nothing for a root
/// or an empty path.
pub uninterp spec fn parent_path(path: Seq<char>) -> Option<Seq<char>>;

/// What `Path::file_stem` gives: the last component without its extension, or nothing
/// when there is no file name.
pub uninterp spec fn path_file_stem(path: Seq<char>) -> Option<Seq<char>>;

/// Calls `Path::join` on `base` with `part`: as its documentation says, an absolute `part`
/// replaces the base, and otherwise the part is pushed onto the base, with a separator
/// between them unless the base is empty or already ends in one.
#[verifier::external_body]
pub(crate) fn path_join(base: &str, part: &str) -> (joined: String)
    ensures
        joined@ == joined_path(base@, part@),
{
    Path::new(base).join(part).to_string_lossy().to_string()
}

/// Calls `Path::strip_prefix`, keeping the rest of `path` after `base`.
#[verifier::external_body]
pub(crate) fn path_strip_prefix(path: &str, base: &str) -> (rest: Option<String>)
    ensures
        opt_text(rest) == stripped_path(path@, base@),
{
    match Path::new(path).strip_prefix(base) {
        Ok(rest) => Some(rest.to_string_lossy().to_string()),
        Err(_) => None,
    }
}

/// Calls `Path::parent`.
#[verifier::external_body]
pub(crate) fn path_parent(path: &str) -> (parent: Option<String>)
    ensures
        opt_text(parent) == parent_path(path@),
{
    match Path::new(path).parent() {
        Some(p) => Some(p.to_string_lossy().to_string()),
        None => None,
    }
}

/// Calls `Path::file_stem`.
#[verifier::external_body]
pub(crate) fn path_stem(path: &str) -> (stem: Option<String>)
    ensures
        opt_text(stem) == path_file_stem(path@),
{
    match Path::new(path).file_stem() {
        Some(s) => Some(s.to_string_lossy().to_string()),
        None => None,
    }
}

/// Calls `Path::exists`. The answer depends on the file system at the time of the call,
/// so nothing is stated of it.
#[verifier::external_body]
pub(crate) fn path_exists(path: &str) -> (exists: bool) {
    Path::new(path).exists()
}

} // verus!
