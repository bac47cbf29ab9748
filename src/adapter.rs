//! Cleaning for structured path values.
use std::path::PathBuf;
use vstd::prelude::*;
use crate::clean::clean;
use crate::model::cleaned;

verus! {

/// Declares std's `PathBuf`; its contents are seen only through `path_str`.
#[verifier::external_type_specification]
#[verifier::external_body]
pub struct ExPathBuf(PathBuf);

/// The text of a path, or `None` where its bytes are not valid Unicode.
pub uninterp spec fn path_str(p: PathBuf) -> Option<Seq<char>>;

/// Relies on `Path::to_str`: the text of the path, or `None` where it is not valid Unicode;
/// the outcome depends on the path's bytes alone.
#[verifier::external_body]
fn path_text<'a>(p: &'a PathBuf) -> (r: Option<&'a str>)
    ensures
        match r {
            Some(t) => path_str(*p) == Some(t@),
            None => path_str(*p) is None,
        },
{
    p.to_str()
}

/// Relies on `PathBuf::from` on a `String`: the path takes the string's bytes as they
/// are, so its text reads back as the string.
#[verifier::external_body]
fn path_from(s: String) -> (r: PathBuf)
    ensures
        path_str(r) == Some(s@),
{
    PathBuf::from(s)
}

/// A value that can produce a clean version of itself.
pub trait PathClean<T> {
    fn clean(&self) -> T;
}

/// Cleans the text of a path value; a text that could not be decoded counts as empty.
pub fn clean_path_text(text: Option<&str>) -> (r: String)
    ensures
        r@ == cleaned(
            match text {
                Some(t) => t@,
                None => Seq::empty(),
            },
        ),
{
    match text {
        Some(t) => clean(t),
        None => {
            proof {
                reveal_strlit("");
            }
            clean("")
        },
    }
}

impl PathClean<PathBuf> for PathBuf {
    /// The path whose text is the clean form of this path's text; a text that could
    /// not be decoded counts as empty.
    fn clean(&self) -> (r: PathBuf)
        ensures
            path_str(r) == Some(
                cleaned(
                    match path_str(*self) {
                        Some(t) => t,
                        None => Seq::empty(),
                    },
                ),
            ),
    {
        path_from(clean_path_text(path_text(self)))
    }
}

} // verus!
