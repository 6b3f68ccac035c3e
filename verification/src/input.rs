//! What becomes of a line that the user typed in answer to a question.

use vstd::prelude::*;
use crate::text::{trim, chars_of, trim_chars, string_from_chars};

verus! {

/// The answer in a line the user typed: the line without leading and trailing
/// white space (and so without its line break).
pub fn input_value(line: &str) -> (r: String)
    ensures
        r@ == trim(line@),
{
    let chars = chars_of(line);
    let t = trim_chars(&chars);
    string_from_chars(&t)
}

/// The answer to a question that must be answered: `None` when the line holds
/// nothing but white space, and the question is asked again.
pub fn get_required_input(line: &str) -> (r: Option<String>)
    ensures
        r is None <==> trim(line@).len() == 0,
        r matches Some(v) ==> v@ == trim(line@),
{
    let v = input_value(line);
    if v.as_str().is_empty() {
        None
    } else {
        Some(v)
    }
}

/// The answer to a question that may be skipped: `None` when the line holds
/// nothing but white space.
pub fn get_optional_input(line: &str) -> (r: Option<String>)
    ensures
        r is None <==> trim(line@).len() == 0,
        r matches Some(v) ==> v@ == trim(line@),
{
    let v = input_value(line);
    if v.as_str().is_empty() {
        None
    } else {
        Some(v)
    }
}

/// The lowercase form of a text under Unicode's case mapping, as
/// `str::to_lowercase` computes it.
pub uninterp spec fn lowercase(s: Seq<char>) -> Seq<char>;

/// std's `str::to_lowercase`. Its result is a function of `s` alone, named
/// `lowercase`; nothing more of the mapping is stated.
#[verifier::external_body]
fn to_lowercase(s: &str) -> (r: String)
    ensures
        r@ == lowercase(s@),
{
    s.to_lowercase()
}

/// Whether an answer means yes: its lowercase form is `y`.
pub fn check_y_n(s: &str) -> (r: bool)
    ensures
        r == (lowercase(s@) == "y"@),
{
    let lower = to_lowercase(s);
    let yes = String::from_str("y");
    lower == yes
}

} // verus!
