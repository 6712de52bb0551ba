//! MIME guessing for object keys and file paths, at the boundary to the
//! mime_guess crate. The guesses are a pure function of the path text, so
//! the library names their result and reasons over the name.

use vstd::prelude::*;

use crate::text::seq_views;

verus! {

/// What mime_guess derives from a path: the top-level part of each guessed
/// MIME type (for `song.mp3`, the one guess `audio/mpeg` yields `audio`),
/// in guess order. A function of the path text alone.
pub uninterp spec fn mime_tops(path: Seq<char>) -> Seq<Seq<char>>;

/// What mime_guess derives from a path: the full first guess (for
/// `book.epub`, `application/epub+zip`), or nothing when it has no guess.
/// A function of the path text alone.
pub uninterp spec fn mime_first(path: Seq<char>) -> Option<Seq<char>>;

/// Relies on `mime_guess::from_path`: the guesses depend on the path text
/// alone; `iter` yields each guess and `type_` is its top-level part.
#[verifier::external_body]
pub(crate) fn mime_top_levels(path: &str) -> (r: Vec<String>)
    ensures
        seq_views(r@) == mime_tops(path@),
{
    let mut out = Vec::new();
    for guess in mime_guess::from_path(path).iter() {
        out.push(guess.type_().as_str().to_string());
    }
    out
}

/// Relies on `mime_guess::from_path`: the guesses depend on the path text
/// alone; `first` is the highest-ranked guess, rendered in its canonical
/// `type/subtype` form.
#[verifier::external_body]
pub(crate) fn mime_full_first(path: &str) -> (r: Option<String>)
    ensures
        match r {
            Some(s) => mime_first(path@) == Some(s@),
            None => mime_first(path@) is None,
        },
{
    mime_guess::from_path(path).first().map(|m| m.to_string())
}

} // verus!
