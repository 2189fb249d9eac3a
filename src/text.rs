//! What the text utilities use of `str`: line splitting, substring search and
//! lower-casing.
use vstd::prelude::*;

verus! {

broadcast use vstd::string::to_string_from_display_ensures_for_str;

/// The lines of a text, as `str::lines` splits them.
pub uninterp spec fn lines_of(s: Seq<char>) -> Seq<Seq<char>>;

/// The text in lower case, as `str::to_lowercase` maps it.
pub uninterp spec fn lower_of(s: Seq<char>) -> Seq<char>;

/// `q` occurs in `h` as a run of consecutive characters.
pub open spec fn has_substring(h: Seq<char>, q: Seq<char>) -> bool {
    exists|i: int| 0 <= i && i + q.len() <= h.len() && #[trigger] h.subrange(i, i + q.len()) == q
}

/// Relies on `str::lines`: the lines depend on the text alone, and an empty
/// text has none.
#[verifier::external_body]
pub(crate) fn split_lines(s: &str) -> (r: Vec<String>)
    ensures
        r@.map_values(|l: String| l@) == lines_of(s@),
        s@.len() == 0 ==> r@.len() == 0,
{
    s.lines().map(|l| l.to_string()).collect()
}

/// Relies on `str::to_lowercase`: the result depends on the text alone.
#[verifier::external_body]
pub(crate) fn lowercase(s: &str) -> (r: String)
    ensures
        r@ == lower_of(s@),
{
    s.to_lowercase()
}

/// Relies on `str::contains`: whether `q` occurs in `h`.
#[verifier::external_body]
pub(crate) fn contains(h: &str, q: &str) -> (r: bool)
    ensures
        r == has_substring(h@, q@),
{
    h.contains(q)
}

} // verus!
