//! Paths of the file system, by `std::path`.
//!
//! What a path looks like depends on the platform, so nothing is stated of
//! the paths that these functions return.

use std::path::PathBuf;
use vstd::prelude::*;

verus! {

/// `std::path::PathBuf`: a path of the file system. It is carried through as
/// `std` made it, and nothing is claimed of what it holds.
#[verifier::external_type_specification]
#[verifier::external_body]
pub struct ExPathBuf(PathBuf);

/// The path that `text` spells.
///
/// Trusted: `PathBuf::from` returns; nothing is claimed of the path.
#[verifier::external_body]
pub(crate) fn path_from(text: &str) -> PathBuf {
    PathBuf::from(text)
}

/// A copy of `path`.
///
/// Trusted: `PathBuf::clone` returns a path that equals the one it was
/// given.
#[verifier::external_body]
pub(crate) fn path_copy(path: &PathBuf) -> (res: PathBuf)
    ensures
        res == *path,
{
    path.clone()
}

/// Extends `path` by `component`.
///
/// Trusted: `PathBuf::push` returns; nothing is claimed of the path.
#[verifier::external_body]
pub(crate) fn path_push(path: &mut PathBuf, component: &str) {
    path.push(component)
}

/// Whether `path` is absolute on this platform.
///
/// Trusted: `Path::is_absolute` returns; nothing is claimed of the answer.
#[verifier::external_body]
pub(crate) fn path_is_absolute(path: &PathBuf) -> bool {
    path.is_absolute()
}

/// `path` as text, the way the platform shows it.
///
/// Trusted: `Path::display` returns; nothing is claimed of the text.
#[verifier::external_body]
pub(crate) fn path_text(path: &PathBuf) -> String {
    path.display().to_string()
}

} // verus!
