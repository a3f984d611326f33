use vstd::prelude::*;
use vstd::string::StringExecFns;
use regex::Regex;
use crate::entry::{byte_len, VaultError};

verus! {

#[verifier::external_type_specification]
#[verifier::external_body]
pub struct ExRegex(regex::Regex);

#[verifier::external_type_specification]
#[verifier::external_body]
pub struct ExRegexError(regex::Error);

/// Whether `regex::Regex::new` accepts a pattern, a function of its text.
pub uninterp spec fn regex_accepts(pattern: Seq<char>) -> bool;

/// The byte range that `regex::Regex::find` reports for the leftmost-first
/// match of `pattern` in `haystack`, a function of the two texts.
pub uninterp spec fn regex_first(pattern: Seq<char>, haystack: Seq<char>) -> Option<(usize, usize)>;

/// The characters that `regex::escape` prefixes with a backslash.
pub open spec fn is_meta(c: char) -> bool {
    c == '\\' || c == '.' || c == '+' || c == '*' || c == '?' || c == '(' || c == ')'
    || c == '|' || c == '[' || c == ']' || c == '{' || c == '}' || c == '^' || c == '$'
    || c == '#' || c == '&' || c == '-' || c == '~'
}

/// `pattern` with every meta character preceded by a backslash.
pub open spec fn escaped(pattern: Seq<char>) -> Seq<char>
    decreases pattern.len(),
{
    if pattern.len() == 0 {
        Seq::empty()
    } else {
        let c = pattern.last();
        escaped(pattern.drop_last()) + if is_meta(c) { seq!['\\', c] } else { seq![c] }
    }
}

/// A compiled search pattern together with the text it was compiled from.
pub struct CompiledPattern {
    regex: Regex,
    source: String,
}

impl CompiledPattern {
    /// The text the regular expression was compiled from.
    pub closed spec fn text(&self) -> Seq<char> {
        self.source@
    }

    pub fn source(&self) -> (r: &String)
        ensures
            r@ == self.text(),
    {
        &self.source
    }
}

/// Relies on regex::Regex::new: compiles `pattern`, failing exactly where
/// `regex_accepts` does not hold.
#[verifier::external_body]
fn compile_regex(pattern: &str) -> (r: Result<CompiledPattern, regex::Error>)
    ensures
        r is Ok <==> regex_accepts(pattern@),
        r matches Ok(c) ==> c.text() == pattern@,
{
    match Regex::new(pattern) {
        Ok(regex) => Ok(CompiledPattern { regex, source: pattern.to_string() }),
        Err(e) => Err(e),
    }
}

/// Relies on regex::escape: every meta character of `pattern` gets a
/// backslash in front of it, the rest is copied.
#[verifier::external_body]
fn escape_pattern(pattern: &str) -> (r: String)
    ensures
        r@ == escaped(pattern@),
{
    regex::escape(pattern)
}

/// Relies on regex::Regex::find with Match::start and Match::end: the byte
/// range of the first match, which starts no later than it ends and lies
/// within the haystack.
#[verifier::external_body]
pub(crate) fn find_first(p: &CompiledPattern, haystack: &str) -> (r: Option<(usize, usize)>)
    ensures
        r == regex_first(p.text(), haystack@),
        r matches Some((s, e)) ==> s <= e && e <= byte_len(haystack@),
{
    p.regex.find(haystack).map(|m| (m.start(), m.end()))
}

/// The text a search pattern is compiled from: the pattern itself when it
/// is a valid regular expression, else its literal escape.
pub open spec fn effective_pattern(pattern: Seq<char>) -> Seq<char> {
    if regex_accepts(pattern) { pattern } else { escaped(pattern) }
}

/// Compiles a user's search text: as a regular expression where it is one,
/// otherwise as the literal text. Fails only when neither compiles.
pub fn compile_pattern(pattern: &str) -> (r: Result<CompiledPattern, VaultError>)
    ensures
        r is Ok <==> regex_accepts(effective_pattern(pattern@)),
        r matches Ok(c) ==> c.text() == effective_pattern(pattern@),
        r matches Err(e) ==> e is InvalidPattern && e->InvalidPattern_0@ == pattern@,
{
    match compile_regex(pattern) {
        Ok(c) => Ok(c),
        Err(_) => {
            let literal = escape_pattern(pattern);
            match compile_regex(literal.as_str()) {
                Ok(c) => Ok(c),
                Err(_) => Err(VaultError::InvalidPattern(String::from_str(pattern))),
            }
        },
    }
}

} // verus!
