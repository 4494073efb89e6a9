//! The multi-pattern automaton of the `aho_corasick` crate, as the keyword
//! filters use it: built as a DFA with standard match semantics, ASCII
//! case-insensitive or not, and searched for non-overlapping matches.
use vstd::prelude::*;
use aho_corasick::{AhoCorasick, AhoCorasickBuilder};
use crate::result::views;
use vstd::utf8::encode_utf8;

verus! {

/// An automaton of the `aho_corasick` crate. The crate's type has a type
/// parameter bounded by its own trait `StateID`, which Verus does not accept
/// in a declaration of the type, so the automaton is held here, out of Verus's
/// sight.
#[verifier::external_body]
pub struct Automaton {
    inner: AhoCorasick,
}

/// The patterns an automaton was built from, in the order given; a pattern's
/// index in this sequence is the pattern identifier that its matches report.
pub uninterp spec fn ac_patterns(ac: Automaton) -> Seq<Seq<char>>;

/// Whether an automaton was built to match ASCII letters case-insensitively.
pub uninterp spec fn ac_case_insensitive(ac: Automaton) -> bool;

/// The matches, as (pattern identifier, start, end) with byte offsets, that
/// `find_iter` reports, in order, on `haystack` for an automaton built from
/// `patterns` with standard semantics, ASCII case-insensitive where
/// `case_insensitive` holds.
pub uninterp spec fn ac_matches(
    patterns: Seq<Seq<char>>,
    case_insensitive: bool,
    haystack: Seq<char>,
) -> Seq<(usize, usize, usize)>;

/// The number of bytes of the UTF-8 encoding of `s`.
pub open spec fn byte_len(s: Seq<char>) -> nat {
    encode_utf8(s).len()
}

/// A string has no bytes exactly when it has no characters.
pub proof fn lemma_byte_len_zero(s: Seq<char>)
    ensures
        byte_len(s) == 0 <==> s.len() == 0,
{
    if s.len() > 0 {
        assert(vstd::utf8::encode_scalar(s[0] as u32).len() >= 1);
        assert(encode_utf8(s) == vstd::utf8::encode_scalar(s[0] as u32) + encode_utf8(s.drop_first()));
    }
}

/// Builds an automaton over `patterns` with `AhoCorasickBuilder`, as a DFA
/// and ASCII case-insensitive where `case_insensitive` holds (aho_corasick's
/// `AhoCorasickBuilder::build`). The contract claims only that the automaton
/// was built from these patterns, in this order, with this setting.
#[verifier::external_body]
pub(crate) fn build_automaton(patterns: &Vec<String>, case_insensitive: bool) -> (ac: Automaton)
    ensures
        ac_patterns(ac) == views(patterns@),
        ac_case_insensitive(ac) == case_insensitive,
{
    let mut builder = AhoCorasickBuilder::new();
    builder.ascii_case_insensitive(case_insensitive).dfa(true);
    Automaton { inner: builder.build(patterns) }
}

/// `b` with an ASCII capital letter made small.
pub open spec fn ascii_lower(b: u8) -> u8 {
    if 65 <= b <= 90 {
        (b + 32) as u8
    } else {
        b
    }
}

/// The bytes `found` are the bytes `pat`, up to the case of ASCII letters
/// where `case_insensitive` holds.
pub open spec fn bytes_match(found: Seq<u8>, pat: Seq<u8>, case_insensitive: bool) -> bool {
    &&& found.len() == pat.len()
    &&& forall|i: int|
        0 <= i < pat.len() ==> if case_insensitive {
            ascii_lower(#[trigger] found[i]) == ascii_lower(pat[i])
        } else {
            found[i] == pat[i]
        }
}

/// Each match (pattern identifier, start, end) names one of `patterns` and
/// spans, within the bytes of `haystack`, the bytes of its pattern (up to ASCII
/// case where `case_insensitive` holds).
pub open spec fn valid_matches(
    ms: Seq<(usize, usize, usize)>,
    patterns: Seq<Seq<char>>,
    case_insensitive: bool,
    haystack: Seq<char>,
) -> bool {
    forall|i: int|
        0 <= i < ms.len() ==> {
            let m = #[trigger] ms[i];
            &&& m.0 < patterns.len()
            &&& m.1 <= m.2 <= byte_len(haystack)
            &&& bytes_match(
                encode_utf8(haystack).subrange(m.1 as int, m.2 as int),
                encode_utf8(patterns[m.0 as int]),
                case_insensitive,
            )
        }
}

/// The non-overlapping matches of `ac` in `haystack` (aho_corasick's
/// `AhoCorasick::find_iter`), each as (pattern identifier, start, end).
/// The contract claims that the result is a function of the automaton's
/// patterns and the haystack, and that each match names one of the patterns
/// and spans, within the haystack's bytes, the bytes of its pattern, up to
/// ASCII case where the automaton was built case-insensitive.
#[verifier::external_body]
pub(crate) fn automaton_matches(ac: &Automaton, haystack: &String) -> (ms: Vec<(usize, usize, usize)>)
    ensures
        ms@ == ac_matches(ac_patterns(*ac), ac_case_insensitive(*ac), haystack@),
        valid_matches(ms@, ac_patterns(*ac), ac_case_insensitive(*ac), haystack@),
{
    ac.inner.find_iter(haystack).map(|m| (m.pattern(), m.start(), m.end())).collect()
}

} // verus!
