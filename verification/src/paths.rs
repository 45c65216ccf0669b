//! Path operations of `std::path` used by the tree logic.
//!
//! Paths are held as `String`s throughout the library.  What `std::path`
//! computes from them (the final component, the parent, component-wise
//! equality and prefixes) is named here by spec functions of the path
//! text, and each named result is produced by exactly one call into
//! `std::path`.
use vstd::prelude::*;

verus! {

/// The text of an optional string.
pub open spec fn opt_text(o: Option<String>) -> Option<Seq<char>> {
    match o {
        Some(s) => Some(s@),
        None => None,
    }
}

/// `Path::new(path).file_name()` as text (`None` when the path has no final
/// normal component, for example when it ends in `..`).
pub uninterp spec fn path_file_name(path: Seq<char>) -> Option<Seq<char>>;

/// `Path::new(path).parent()` as text (`None` for a root or an empty path).
pub uninterp spec fn path_parent(path: Seq<char>) -> Option<Seq<char>>;

/// `Path::new(a) == Path::new(b)`: equality of the two paths' components.
pub uninterp spec fn path_eq(a: Seq<char>, b: Seq<char>) -> bool;

/// `Path::new(path).starts_with(base)`: the components of `base` are a prefix
/// of the components of `path`.
pub uninterp spec fn path_starts_with(path: Seq<char>, base: Seq<char>) -> bool;

/// Calls `std::path::Path::file_name` and turns the component into a `String`.
/// Trusted: the result is the value named `path_file_name` of the argument.
/// A component of a path given as `&str` is always valid UTF-8, so the
/// conversion never drops a component.
#[verifier::external_body]
pub(crate) fn file_name(path: &str) -> (r: Option<String>)
    ensures
        opt_text(r) == path_file_name(path@),
{
    std::path::Path::new(path).file_name().and_then(|n| n.to_str()).map(|n| n.to_string())
}

/// Calls `std::path::Path::parent` and turns the parent into a `String`.
/// Trusted: the result is the value named `path_parent` of the argument.
#[verifier::external_body]
pub(crate) fn parent(path: &str) -> (r: Option<String>)
    ensures
        opt_text(r) == path_parent(path@),
{
    std::path::Path::new(path).parent().and_then(|p| p.to_str()).map(|p| p.to_string())
}

/// Calls `<Path as PartialEq>::eq`.
/// Trusted: the result is the value named `path_eq` of the two arguments.
#[verifier::external_body]
pub(crate) fn same_path(a: &str, b: &str) -> (r: bool)
    ensures
        r == path_eq(a@, b@),
{
    std::path::Path::new(a) == std::path::Path::new(b)
}

/// Calls `std::path::Path::starts_with`.
/// Trusted: the result is the value named `path_starts_with` of the arguments.
#[verifier::external_body]
pub(crate) fn starts_with(path: &str, base: &str) -> (r: bool)
    ensures
        r == path_starts_with(path@, base@),
{
    std::path::Path::new(path).starts_with(std::path::Path::new(base))
}

} // verus!
