//! Line-level text operations that the interner and the session tracker
//! share.
use vstd::prelude::*;

verus! {

/// Separates a language from a project on one line.
pub const SEPARATOR: char = '\u{1e}';

/// The text of `s` without leading and trailing whitespace, as `str::trim`
/// computes it.
pub uninterp spec fn trim_of(s: Seq<char>) -> Seq<char>;

/// Relies on `str::trim`: the result depends on the characters of `s` alone,
/// and an empty text stays empty.
#[verifier::external_body]
pub(crate) fn trim(s: &str) -> (r: &str)
    ensures
        r@ == trim_of(s@),
        s@.len() == 0 ==> r@.len() == 0,
{
    s.trim()
}

/// Relies on `str::split_once` with a `char` pattern: the text before the
/// first `SEPARATOR` and the text after it, or `None` when there is none.
#[verifier::external_body]
pub(crate) fn split_at_separator(s: &str) -> (r: Option<(&str, &str)>)
    ensures
        r is None <==> !s@.contains(SEPARATOR),
        r matches Some((a, b)) ==> s@ == a@ + seq![SEPARATOR] + b@ && !a@.contains(SEPARATOR),
{
    s.split_once(SEPARATOR)
}

} // verus!
