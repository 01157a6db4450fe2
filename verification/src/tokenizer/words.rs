//! The regular expression that cuts text into words, from `fancy_regex`.
use crate::tokenizer::bpe;
use vstd::prelude::*;

verus! {

/// The GPT-2 pre-tokenizer split pattern (HF `ByteLevel(use_regex=true)`).
pub const GPT2_PATTERN: &'static str =
    r"'s|'t|'re|'ve|'m|'ll|'d| ?\p{L}+| ?\p{N}+| ?[^\s\p{L}\p{N}]+|\s+(?!\S)|\s+";

/// A compiled expression of the crate `fancy_regex`.
#[verifier::external_type_specification]
#[verifier::external_body]
pub struct ExRegex(fancy_regex::Regex);

/// The pattern from which `Regex::new` made an expression.
pub uninterp spec fn compiled_from(re: fancy_regex::Regex) -> Seq<char>;

/// Why a pattern is no expression, as the crate's error prints it; `None` for
/// a pattern that is one.
pub uninterp spec fn compile_fault(pattern: Seq<char>) -> Option<Seq<char>>;

/// The non-overlapping matches of a pattern in a text, from left to right, up
/// to the first failed search, and that failure as the crate's error prints
/// it.
pub uninterp spec fn matches_of(pattern: Seq<char>, text: Seq<char>) -> (
    Seq<Seq<char>>,
    Option<Seq<char>>,
);

/// `fancy_regex::Regex::new`: whether it succeeds, and the text of its error,
/// are functions of the pattern.
#[verifier::external_body]
pub(crate) fn compile(pattern: &str) -> (r: Result<fancy_regex::Regex, String>)
    ensures
        match r {
            Ok(re) => compile_fault(pattern@) is None && compiled_from(re) == pattern@,
            Err(e) => compile_fault(pattern@) == Some(e@),
        },
{
    fancy_regex::Regex::new(pattern).map_err(|e| e.to_string())
}

/// `fancy_regex::Regex::find_iter` up to its first error: the matched strings
/// and the text of that error are functions of the pattern and the text.
///
/// Each search begins where the last match ended and takes the leftmost match.
/// Every character is a blank, a letter, a number or none of these, and for
/// each of the four `GPT2_PATTERN` has an alternative that matches it alone. So
/// under that pattern a match begins wherever a search begins, and without an
/// error the matched strings in a row are the text.
#[verifier::external_body]
pub(crate) fn find_words(re: &fancy_regex::Regex, text: &str) -> (r: (Vec<String>, Option<String>))
    ensures
        Seq::new(r.0@.len(), |i: int| r.0@[i]@) == matches_of(compiled_from(*re), text@).0,
        (match r.1 {
            Some(e) => Some(e@),
            None => None,
        }) == matches_of(compiled_from(*re), text@).1,
        compiled_from(*re) == GPT2_PATTERN@ && r.1 is None ==> bpe::concat(
            Seq::new(r.0@.len(), |i: int| r.0@[i]@),
        ) == text@,
{
    let mut words = Vec::new();
    for found in re.find_iter(text) {
        match found {
            Ok(m) => words.push(m.as_str().to_string()),
            Err(e) => return (words, Some(e.to_string())),
        }
    }
    (words, None)
}

} // verus!
