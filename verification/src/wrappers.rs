//! The calls that the text differ makes into the `regex` and `diff` crates,
//! each with the contract that Verus takes on trust.
use vstd::prelude::*;
use vstd::string::StringSliceAdditionalSpecFns;
use vstd::utf8::is_char_boundary;

use crate::line_parser::{
    DiffStep, lefts, newline_ends, newline_pattern, offsets, rights, step_views, str_views,
};

verus! {

/// The error of `regex::Regex::new`, carried through as it is.
#[verifier::external_type_specification]
#[verifier::external_body]
pub struct ExRegexError(regex::Error);

/// What searching `haystack` for every match of the regular expression
/// `pattern` gives: the end offset of each match, or `None` where the
/// pattern does not compile.
pub uninterp spec fn regex_match_ends(pattern: Seq<char>, haystack: Seq<char>) -> Option<Seq<usize>>;

/// Compiles `pattern` with `regex::Regex::new` and returns the end offset of
/// each match that `find_iter` yields in `haystack` (`regex::Match::end`).
/// Trusted: the result is the name `regex_match_ends` of the two texts; each
/// end lies within the haystack on a UTF-8 boundary (as `Match::end`
/// documents); and for the pattern made of one newline, which is a literal,
/// the pattern compiles and the ends are those just past each newline byte,
/// in order, since `find_iter` yields successive non-overlapping matches.
#[verifier::external_body]
pub(crate) fn find_match_ends(pattern: &str, haystack: &str) -> (ends: Result<Vec<usize>, regex::Error>)
    ensures
        ends is Ok <==> regex_match_ends(pattern@, haystack@) is Some,
        ends matches Ok(e) ==> regex_match_ends(pattern@, haystack@) == Some(e@),
        ends matches Ok(e) ==> forall|k: int|
            0 <= k < e@.len() ==> #[trigger] e@[k] <= haystack.spec_bytes().len()
                && is_char_boundary(haystack.spec_bytes(), e@[k] as int),
        ends is Err ==> pattern@ != newline_pattern(),
        ends matches Ok(e) ==> (pattern@ == newline_pattern() ==> offsets(e@) == newline_ends(
            haystack.spec_bytes(),
        )),
{
    match regex::Regex::new(pattern) {
        Ok(re) => Ok(re.find_iter(haystack).map(|m| m.end()).collect()),
        Err(e) => Err(e),
    }
}

/// What `diff::slice` gives for two sequences of lines, by their text.
pub uninterp spec fn slice_diff(left: Seq<Seq<char>>, right: Seq<Seq<char>>) -> Seq<
    DiffStep<Seq<char>>,
>;

/// Calls `diff::slice` on two sequences of lines and turns each
/// `diff::Result` into the `DiffStep` with the same variant and lines.
/// Trusted: the result is the name `slice_diff` of the texts of the lines; its
/// left and both steps give back `left` in order, and its both and right steps
/// give back `right` in order, as `diff::slice` builds it; a both step pairs
/// two equal lines, since `diff::slice` pairs lines only when `==` holds. The
/// `requires` keeps its table of `u32` within what can be allocated.
#[verifier::external_body]
pub(crate) fn diff_lines<'a>(left: &[&'a str], right: &[&'a str]) -> (steps: Vec<DiffStep<&'a str>>)
    requires
        (left@.len() + 1) * (right@.len() + 1) * 4 <= isize::MAX,
    ensures
        step_views(steps@) == slice_diff(str_views(left@), str_views(right@)),
        lefts(steps@) == left@,
        rights(steps@) == right@,
        forall|k: int|
            0 <= k < steps@.len() ==> (#[trigger] steps@[k] matches DiffStep::Both(l, r) ==> l@
                == r@),
{
    diff::slice(left, right).into_iter().map(
        |d| match d {
            diff::Result::Left(l) => DiffStep::Left(*l),
            diff::Result::Both(l, r) => DiffStep::Both(*l, *r),
            diff::Result::Right(r) => DiffStep::Right(*r),
        },
    ).collect()
}

} // verus!
