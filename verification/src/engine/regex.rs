//! Regular expressions of filter rules: the pattern comes base64-encoded and is
//! compiled by PCRE2, case-insensitive and with its JIT.
use vstd::prelude::*;
use vstd::utf8::{decode_utf8, valid_utf8};

use pcre2::bytes::Regex as PcreRegex;
use pcre2::bytes::RegexBuilder;

verus! {

#[verifier::external_type_specification]
#[verifier::external_body]
pub struct ExPcreRegex(PcreRegex);

#[verifier::external_type_specification]
#[verifier::external_body]
pub struct ExPcreError(pcre2::Error);

/// The bytes that base64 decoding of `s` gives with the standard alphabet and
/// padding, or nothing where `s` is not such an encoding.
pub uninterp spec fn base64_decoded(s: Seq<char>) -> Option<Seq<u8>>;

/// Decodes `s` as base64 (the `base64` crate's `decode`); the contract names
/// the result.
#[verifier::external_body]
fn base64_decode(s: &str) -> (r: Option<Vec<u8>>)
    ensures
        match r {
            Some(v) => base64_decoded(s@) == Some(v@),
            None => base64_decoded(s@) is None,
        },
{
    base64::decode(s).ok()
}

/// The string that `b` encodes in UTF-8, where `b` is valid UTF-8 (std's
/// `String::from_utf8`, which fails exactly on invalid UTF-8).
#[verifier::external_body]
fn utf8_string(b: Vec<u8>) -> (r: Option<String>)
    ensures
        r is Some <==> valid_utf8(b@),
        r matches Some(s) ==> s@ == decode_utf8(b@),
{
    String::from_utf8(b).ok()
}

/// Whether PCRE2 finds a match for `pattern`, compiled case-insensitively, in
/// `subject`.
pub uninterp spec fn caseless_match(pattern: Seq<char>, subject: Seq<u8>) -> bool;

/// Compiles `pattern` with PCRE2, case-insensitive and with the JIT required
/// (pcre2's `RegexBuilder::build`), and keeps the pattern as the source of the
/// expression, which is what pcre2 stores and `as_str` gives back. Nothing is
/// claimed of when compiling fails: whether the JIT is there depends on the
/// machine.
#[verifier::external_body]
fn build_regex(pattern: &str) -> (r: Result<Regex, pcre2::Error>)
    ensures
        r matches Ok(re) ==> re.source() == pattern@,
{
    match RegexBuilder::new().caseless(true).jit(true).build(pattern) {
        Ok(re) => Ok(Regex { re, source: Ghost(pattern@) }),
        Err(e) => Err(e),
    }
}

/// Whether `re` matches somewhere in `text` (pcre2's `Regex::is_match`). The
/// contract claims that an answer, where PCRE2 gives one, is whether the
/// source pattern, compiled case-insensitively, matches `text`; nothing is
/// claimed of when PCRE2 reports an error.
#[verifier::external_body]
fn regex_is_match(re: &Regex, text: &[u8]) -> (r: Result<bool, pcre2::Error>)
    ensures
        r matches Ok(b) ==> b == caseless_match(re.source(), text@),
{
    re.re.is_match(text)
}

/// The pattern `re` was compiled from (pcre2's `Regex::as_str`, which gives
/// back the string `build` was given). Every `Regex` is made by `build_regex`,
/// which keeps that string as the source.
#[verifier::external_body]
fn regex_pattern(re: &Regex) -> (r: &str)
    ensures
        r@ == re.source(),
{
    re.re.as_str()
}

/// `s` is base64 whose decoded bytes are UTF-8.
pub open spec fn pattern_decodes(s: Seq<char>) -> bool {
    base64_decoded(s) matches Some(b) && valid_utf8(b)
}

/// The pattern that `s` holds: its base64-decoded bytes read as UTF-8.
pub open spec fn decoded_pattern(s: Seq<char>) -> Seq<char> {
    decode_utf8(base64_decoded(s).unwrap())
}

/// A compiled regular expression.
pub struct Regex {
    re: PcreRegex,
    source: Ghost<Seq<char>>,
}

impl Regex {
    /// The pattern the expression was compiled from.
    pub closed spec fn source(&self) -> Seq<char> {
        self.source@
    }

    /// Decodes `s` from base64 and compiles the pattern it holds.
    pub fn from_str(s: &str) -> (r: Result<Regex, pcre2::Error>)
        requires
            pattern_decodes(s@),
        ensures
            r matches Ok(re) ==> re.source() == decoded_pattern(s@),
    {
        let ss = base64_decode(s).unwrap();
        let pattern = utf8_string(ss).unwrap();
        build_regex(pattern.as_str())
    }

    /// Compiles the pattern that `s` holds in base64 where it decodes to UTF-8;
    /// gives nothing otherwise.
    pub fn parse(s: &str) -> (r: Option<Result<Regex, pcre2::Error>>)
        ensures
            r is Some <==> pattern_decodes(s@),
            r matches Some(Ok(re)) ==> re.source() == decoded_pattern(s@),
    {
        match base64_decode(s) {
            Some(v) => match utf8_string(v) {
                Some(_) => Some(Self::from_str(s)),
                None => None,
            },
            None => None,
        }
    }

    /// Whether the expression matches somewhere in `text`; the error is PCRE2's.
    pub fn is_match(&self, text: &[u8]) -> (r: Result<bool, pcre2::Error>)
        ensures
            r matches Ok(b) ==> b == caseless_match(self.source(), text@),
    {
        regex_is_match(self, text)
    }

    /// The pattern the expression was compiled from.
    pub fn as_str(&self) -> (r: &str)
        ensures
            r@ == self.source(),
    {
        regex_pattern(self)
    }
}

} // verus!
