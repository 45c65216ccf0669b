//! The tree's clipboard, and where copying, moving and renaming put a path.
use vstd::prelude::*;
use crate::paths::{file_name, parent, path_file_name, path_parent};

verus! {

#[derive(Debug, Clone, PartialEq)]
pub enum ClipboardOp {
    Copy,
    Cut,
}

#[derive(Debug, Clone, PartialEq)]
pub struct TreeClipboard {
    pub path: String,
    pub operation: ClipboardOp,
}

/// Why a destination path could not be formed.
#[derive(Debug, Clone, PartialEq)]
pub enum FileOpError {
    /// "Source has no filename"
    NoFileName,
    /// "Path has no parent"
    NoParent,
}

/// `Path::new(base).join(rest)` as text.
pub uninterp spec fn path_join(base: Seq<char>, rest: Seq<char>) -> Seq<char>;

/// Calls `std::path::Path::join` and turns the result into a `String`.
/// Trusted: the result is the value named `path_join`.  Joining text paths
/// always gives valid UTF-8.
#[verifier::external_body]
fn join(base: &str, rest: &str) -> (r: String)
    ensures
        r@ == path_join(base@, rest@),
{
    std::path::Path::new(base).join(rest).to_string_lossy().into_owned()
}

/// Where copying or moving `src` into the directory `dest_dir` puts it: the
/// directory joined with the source's file name.
pub fn transfer_destination(src: &str, dest_dir: &str) -> (r: Result<String, FileOpError>)
    ensures
        match path_file_name(src@) {
            Some(n) => r matches Ok(d) && d@ == path_join(dest_dir@, n),
            None => r == Err::<String, FileOpError>(FileOpError::NoFileName),
        },
{
    match file_name(src) {
        Some(n) => Ok(join(dest_dir, n.as_str())),
        None => Err(FileOpError::NoFileName),
    }
}

/// Where renaming `old` to `new_name` puts it: `new_name` in the same
/// directory.
pub fn rename_destination(old: &str, new_name: &str) -> (r: Result<String, FileOpError>)
    ensures
        match path_parent(old@) {
            Some(p) => r matches Ok(d) && d@ == path_join(p, new_name@),
            None => r == Err::<String, FileOpError>(FileOpError::NoParent),
        },
{
    match parent(old) {
        Some(p) => Ok(join(p.as_str(), new_name)),
        None => Err(FileOpError::NoParent),
    }
}

/// The message of a destination error.
pub fn file_op_error_message(e: &FileOpError) -> (r: &'static str)
    ensures
        match e {
            FileOpError::NoFileName => r@ == "Source has no filename"@,
            FileOpError::NoParent => r@ == "Path has no parent"@,
        },
{
    match e {
        FileOpError::NoFileName => "Source has no filename",
        FileOpError::NoParent => "Path has no parent",
    }
}

} // verus!
