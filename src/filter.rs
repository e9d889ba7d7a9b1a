//! Filtering of residual text by a regular expression.
use vstd::prelude::*;
use vstd::string::*;
use vstd::utf8::*;
use crate::error::LogError;
use crate::span::SpanLabel;
use crate::text::{at_boundary, chars_between};

verus! {

#[verifier::external_type_specification]
#[verifier::external_body]
pub struct ExRegex(regex::Regex);

/// Whether `p` is a regular expression that the regex crate accepts.
pub uninterp spec fn regex_compiles(p: Seq<char>) -> bool;

/// The successive non-overlapping matches of the expression `p` in `text`,
/// as byte ranges of the UTF-8 encoding of `text`.
pub uninterp spec fn regex_find_all(p: Seq<char>, text: Seq<char>) -> Seq<(nat, nat)>;

/// Relies on `regex::Regex::new`: it compiles `p` or refuses it, depending on
/// `p` alone.
#[verifier::external_body]
fn compile_regex(p: &str) -> (r: Option<regex::Regex>)
    ensures
        r is Some <==> regex_compiles(p@),
{
    regex::Regex::new(p).ok()
}

/// A compiled filter expression, with the pattern it was compiled from.
pub struct Filter {
    pattern: String,
    re: regex::Regex,
}

impl Filter {
    /// The pattern the filter was compiled from.
    pub closed spec fn pattern(&self) -> Seq<char> {
        self.pattern@
    }

    /// Compiles `pattern`; `InvalidFilter` when it is not a valid expression.
    pub fn new(pattern: &str) -> (r: Result<Filter, LogError>)
        ensures
            r is Ok <==> regex_compiles(pattern@),
            r matches Ok(f) ==> f.pattern() == pattern@,
            r matches Err(e) ==> e == LogError::InvalidFilter,
    {
        match compile_regex(pattern) {
            Some(re) => Ok(Filter { pattern: pattern.to_owned(), re }),
            None => Err(LogError::InvalidFilter),
        }
    }

    /// The pattern the filter was compiled from.
    pub fn as_str(&self) -> (r: &str)
        ensures
            r@ == self.pattern(),
    {
        self.pattern.as_str()
    }
}

/// Relies on `regex::Regex::find_iter`: the successive non-overlapping
/// matches of the filter's expression (compiled from its pattern by
/// `Filter::new`) in `text`, whose byte offsets fall on character boundaries.
#[verifier::external_body]
pub(crate) fn find_matches(f: &Filter, text: &str) -> (r: Vec<(usize, usize)>)
    ensures
        r@.map_values(|m: (usize, usize)| (m.0 as nat, m.1 as nat)) == regex_find_all(
            f.pattern(),
            text@,
        ),
        forall|i: int|
            0 <= i < r@.len() ==> r@[i].0 <= r@[i].1 <= text.spec_bytes().len() && at_boundary(
                text@,
                #[trigger] r@[i].0 as int,
            ) && at_boundary(text@, r@[i].1 as int),
        forall|i: int| 0 < i < r@.len() ==> r@[i - 1].1 <= #[trigger] r@[i].0,
{
    f.re.find_iter(text).map(|m| (m.start(), m.end())).collect()
}

/// The spans that text gets from its matches `ms`, from the `i`-th match on,
/// the previous match having ended at byte `last`: each gap before a match as
/// text, each match as a match, and what follows the last match as text.
pub open spec fn match_pieces(text: Seq<char>, ms: Seq<(nat, nat)>, i: int, last: int) -> Seq<
    (Seq<char>, SpanLabel),
>
    decreases ms.len() - i,
{
    if i < 0 || i >= ms.len() {
        if last < encode_utf8(text).len() {
            seq![(chars_between(text, last, encode_utf8(text).len() as int), SpanLabel::Text)]
        } else {
            Seq::empty()
        }
    } else {
        seq![
            (chars_between(text, last, ms[i].0 as int), SpanLabel::Text),
            (chars_between(text, ms[i].0 as int, ms[i].1 as int), SpanLabel::TextMatch),
        ] + match_pieces(text, ms, i + 1, ms[i].1 as int)
    }
}

/// The spans of residual text under an optional filter pattern, or `None`
/// when the filter matches nowhere in it.
pub open spec fn residual_pieces(rem: Seq<char>, filter: Option<Seq<char>>) -> Option<
    Seq<(Seq<char>, SpanLabel)>,
> {
    match filter {
        None => Some(seq![(rem, SpanLabel::Text)]),
        Some(p) => {
            let ms = regex_find_all(p, rem);
            if ms.len() == 0 {
                None
            } else {
                Some(match_pieces(rem, ms, 0, 0))
            }
        },
    }
}

} // verus!
