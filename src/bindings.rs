//! Calls into std and outside crates whose behaviour is taken on trust.
use convert_case::{Case, Casing};
use vstd::prelude::*;

verus! {

/// What `str::to_lowercase` returns for a string.
pub uninterp spec fn lower_of(s: Seq<char>) -> Seq<char>;

/// What `convert_case`'s `to_case(Case::Lower)` returns for a string.
pub uninterp spec fn lower_words_of(s: Seq<char>) -> Seq<char>;

/// The characters that `regex::escape` puts a backslash before.
pub open spec fn is_meta_character(c: char) -> bool {
    c == '\\' || c == '.' || c == '+' || c == '*' || c == '?' || c == '(' || c == ')' || c
        == '|' || c == '[' || c == ']' || c == '{' || c == '}' || c == '^' || c == '$' || c
        == '#' || c == '&' || c == '-' || c == '~'
}

/// `s` with a backslash before each meta character.
pub open spec fn escape_spec(s: Seq<char>) -> Seq<char>
    decreases s.len(),
{
    if s.len() == 0 {
        Seq::empty()
    } else if is_meta_character(s.last()) {
        escape_spec(s.drop_last()) + seq!['\\', s.last()]
    } else {
        escape_spec(s.drop_last()).push(s.last())
    }
}

/// Whether `regex::Regex::new` accepts `pattern` under its default limits.
pub uninterp spec fn compiles_of(pattern: Seq<char>) -> bool;

/// Whether a regex compiled from `pattern` finds a match in `hay`.
pub uninterp spec fn regex_match_of(pattern: Seq<char>, hay: Seq<char>) -> bool;

#[verifier::external_type_specification]
#[verifier::external_body]
pub struct ExRegex(regex::Regex);

/// Relies on `String: FromIterator<&char>`: the characters in order.
#[verifier::external_body]
pub(crate) fn string_of(v: &Vec<char>) -> (r: String)
    ensures
        r@ == v@,
{
    v.iter().collect()
}

/// Relies on `str::to_lowercase`: the result depends on the characters alone.
#[verifier::external_body]
pub(crate) fn to_lower(s: &str) -> (r: String)
    ensures
        r@ == lower_of(s@),
{
    s.to_lowercase()
}

/// Relies on `convert_case`'s `Casing::to_case` with `Case::Lower`: the
/// string split into words, lower-cased and joined by spaces, as a function
/// of the characters alone; an empty string has no words and stays empty.
#[verifier::external_body]
pub(crate) fn to_lower_words(s: &str) -> (r: String)
    ensures
        r@ == lower_words_of(s@),
        s@.len() == 0 ==> r@.len() == 0,
{
    s.to_case(Case::Lower)
}

/// Relies on `regex::escape`, which calls `regex_syntax::escape`: each
/// character is copied, with a backslash before each meta character.
#[verifier::external_body]
pub(crate) fn escape_literal(s: &str) -> (r: String)
    ensures
        r@ == escape_spec(s@),
{
    regex::escape(s)
}

/// A regex together with the pattern text it was compiled from.
///
/// The fields are private and `compile` is the only constructor, so `re` is
/// always the compiled form of `source`.
pub struct CompiledPattern {
    source: String,
    re: regex::Regex,
}

impl CompiledPattern {
    /// The pattern text this regex was compiled from.
    pub closed spec fn source(&self) -> Seq<char> {
        self.source@
    }

    /// Relies on `regex::Regex::new`: on success, a regex for `pattern`.
    /// Whether it succeeds depends on the pattern alone, the limits being
    /// the crate's fixed defaults.
    #[verifier::external_body]
    pub(crate) fn compile(pattern: &String) -> (r: Option<CompiledPattern>)
        ensures
            r is Some <==> compiles_of(pattern@),
            r matches Some(c) ==> c.source() == pattern@,
    {
        match regex::Regex::new(pattern) {
            Ok(re) => Some(CompiledPattern { source: pattern.clone(), re }),
            Err(_) => None,
        }
    }

    /// Relies on `regex::Regex::is_match`: whether the regex matches
    /// anywhere in `hay`.
    #[verifier::external_body]
    pub(crate) fn is_match(&self, hay: &str) -> (r: bool)
        ensures
            r == regex_match_of(self.source(), hay@),
    {
        self.re.is_match(hay)
    }
}

} // verus!
