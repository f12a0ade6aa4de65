//! Unicode lowercasing, named but not modelled: identifier matching is
//! case-insensitive, and the folding itself is left to the standard
//! library.
use vstd::prelude::*;

verus! {

/// What `str::to_lowercase` returns for the given characters; the
/// result depends on the characters alone.
pub uninterp spec fn lower_of(s: Seq<char>) -> Seq<char>;

/// Relies on `str::to_lowercase`: the Unicode lowercase mapping of the
/// string, a function of its characters alone.
#[verifier::external_body]
pub fn lowercase(s: &str) -> (r: String)
    ensures
        r@ == lower_of(s@),
{
    s.to_lowercase()
}

} // verus!
