//! Filtering by a regular expression.
use vstd::prelude::*;
use regex::Regex;
use crate::filter::{answered, filter_by_predicate, filtered};
use crate::tree::texts;

verus! {

#[verifier::external_type_specification]
#[verifier::external_body]
pub struct ExRegex(Regex);

/// Whether the compiled expression `re` matches anywhere in `s`.
pub uninterp spec fn regex_matches(re: Regex, s: Seq<char>) -> bool;

/// Relies on `regex::Regex::is_match`, which tells whether the expression
/// matches anywhere in the text; the answer depends on the compiled
/// expression and the text alone.
pub assume_specification[ Regex::is_match ](re: &Regex, haystack: &str) -> (r: bool)
    ensures
        r == regex_matches(*re, haystack@),
;

/// Given a regex, filter to only include lines which match the given regex,
/// together with all their ancestors, in their original order.
pub fn filter_by_regex(data: Vec<String>, regex: Regex) -> (r: Vec<String>)
    ensures
        texts(r@) == filtered(
            texts(data@),
            Seq::new(data@.len(), |i: int| regex_matches(regex, data@[i]@)),
        ),
{
    let ghost lines = data@;
    let re = &regex;
    let matches_line = |s: &str| -> (b: bool)
        ensures
            b == regex_matches(*re, s@),
        { re.is_match(s) };
    let r = filter_by_predicate(data, matches_line);
    proof {
        let m = choose|m: Seq<bool>|
            {
                &&& m.len() == lines.len()
                &&& forall|i: int| 0 <= i < m.len() ==> #[trigger] answered(matches_line, lines[i]@, m[i])
                &&& texts(r@) == filtered(texts(lines), m)
            };
        assert(m =~= Seq::new(lines.len(), |i: int| regex_matches(regex, lines[i]@))) by {
            assert forall|i: int| 0 <= i < m.len() implies m[i] == regex_matches(regex, lines[i]@) by {
                assert(answered(matches_line, lines[i]@, m[i]));
            }
        }
    }
    r
}

} // verus!
