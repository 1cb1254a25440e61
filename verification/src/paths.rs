//! Paths are held as strings in their Unix form.
//!
//! Joining follows `PathBuf::push`: an absolute path replaces the base,
//! otherwise one separator is inserted unless the base is empty or already
//! ends with one. Component-wise queries (parent, prefix tests, the
//! component form) go through `std::path::Path`. What the names below say of
//! those queries is meant of Unix paths, the only platforms the tool ships
//! for (macOS and Linux): `/` is the one separator and there are no drive
//! prefixes.

use vstd::prelude::*;
use vstd::string::*;

verus! {

/// A path is absolute when it starts with the root separator.
pub open spec fn is_absolute(path: Seq<char>) -> bool {
    path.len() > 0 && path[0] == '/'
}

/// The path that `base.join(path)` denotes.
pub open spec fn joined(base: Seq<char>, path: Seq<char>) -> Seq<char> {
    if is_absolute(path) {
        path
    } else if base.len() > 0 && base[base.len() - 1] != '/' {
        base + seq!['/'] + path
    } else {
        base + path
    }
}

/// Whether `path` starts with the root separator.
pub fn path_is_absolute(path: &str) -> (absolute: bool)
    ensures
        absolute == is_absolute(path@),
{
    let n = path.unicode_len();
    n > 0 && path.get_char(0) == '/'
}

/// Appends `path` to `base` as `PathBuf::join` does on Unix.
pub fn join_path(base: &str, path: &str) -> (out: String)
    ensures
        out@ == joined(base@, path@),
{
    if path_is_absolute(path) {
        return String::from_str(path);
    }
    let mut out = String::from_str(base);
    let n = base.unicode_len();
    if n > 0 && base.get_char(n - 1) != '/' {
        proof {
            reveal_strlit("/");
        }
        out.append("/");
    }
    out.append(path);
    out
}

/// Name for what `std::path::Path::parent` returns for a path: the path
/// without its final component, if there is one.
pub uninterp spec fn path_parent(path: Seq<char>) -> Option<Seq<char>>;

/// Name for what `std::path::Path::strip_prefix` returns: the rest of
/// `path` after the components of `base`, when `base` is a component-wise
/// prefix of it.
pub uninterp spec fn path_without_prefix(path: Seq<char>, base: Seq<char>) -> Option<Seq<char>>;

/// Name for what `std::path::Path::starts_with` returns: whether `base` is a
/// component-wise prefix of `path`.
pub uninterp spec fn path_has_prefix(path: Seq<char>, base: Seq<char>) -> bool;

/// Name for the text of a path rebuilt from its components, as
/// `Path::components` collected into a `PathBuf` gives it: repeated
/// separators, `.` components after the first and a trailing separator are
/// gone. Paths that `Path`'s `==` finds equal, which compares components,
/// have the same such text.
pub uninterp spec fn path_normal(path: Seq<char>) -> Seq<char>;

/// Rebuilds a path from its components (`Path::components`, collected into a
/// `PathBuf`). The contract claims only that the result is the one
/// `path_normal` names for this argument.
#[verifier::external_body]
pub(crate) fn normal_form(path: &str) -> (normal: String)
    ensures
        normal@ == path_normal(path@),
{
    let rebuilt: std::path::PathBuf = std::path::Path::new(path).components().collect();
    rebuilt.to_string_lossy().into_owned()
}

/// Calls `std::path::Path::parent`. The contract claims only that the result
/// is the one `path_parent` names for this argument.
#[verifier::external_body]
pub(crate) fn parent_of(path: &str) -> (parent: Option<String>)
    ensures
        parent.deep_view() == path_parent(path@),
{
    match std::path::Path::new(path).parent() {
        Some(parent) => Some(parent.to_string_lossy().into_owned()),
        None => None,
    }
}

/// Calls `std::path::Path::strip_prefix`. The contract claims only that the
/// result is the one `path_without_prefix` names for these arguments.
#[verifier::external_body]
pub(crate) fn strip_prefix_of(path: &str, base: &str) -> (rest: Option<String>)
    ensures
        rest.deep_view() == path_without_prefix(path@, base@),
{
    match std::path::Path::new(path).strip_prefix(base) {
        Ok(rest) => Some(rest.to_string_lossy().into_owned()),
        Err(_) => None,
    }
}

/// Calls `std::path::Path::starts_with`. The contract claims only that the
/// result is the one `path_has_prefix` names for these arguments.
#[verifier::external_body]
pub(crate) fn starts_with_path(path: &str, base: &str) -> (prefixed: bool)
    ensures
        prefixed == path_has_prefix(path@, base@),
{
    std::path::Path::new(path).starts_with(base)
}

} // verus!
