//! Paths as text.

use vstd::prelude::*;
use std::path::PathBuf;

verus! {

/// `std::path::PathBuf`: an owned path.
#[verifier::external_type_specification]
#[verifier::external_body]
pub struct ExPathBuf(PathBuf);

/// The text of a path, where the path is valid Unicode.
pub uninterp spec fn path_text(path: &PathBuf) -> Option<Seq<char>>;

/// `Path::to_str` of std: the path as a string slice if it is valid
/// Unicode, else nothing.
#[verifier::external_body]
fn path_to_str(path: &PathBuf) -> (text: Option<&str>)
    ensures
        match text {
            Some(text) => path_text(path) == Some(text@),
            None => path_text(path) is None,
        },
{
    path.to_str()
}

/// The text of a path that is valid Unicode.
pub fn pathbuf_to_str(input: &PathBuf) -> (text: &str)
    requires
        path_text(input) is Some,
    ensures
        Some(text@) == path_text(input),
{
    match path_to_str(input) {
        Some(text) => text,
        None => {
            proof {
                assert(false);
            }
            ""
        },
    }
}

/// The text of a path, where it has one.
pub fn path_as_text(input: &PathBuf) -> (text: Option<&str>)
    ensures
        match text {
            Some(text) => path_text(input) == Some(text@),
            None => path_text(input) is None,
        },
{
    path_to_str(input)
}

} // verus!
