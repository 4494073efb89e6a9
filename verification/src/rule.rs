//! Rules as they are written down: an identifier and a filter expression, and
//! the keywords that point at a rule.
use vstd::prelude::*;

verus! {

#[derive(Default, Debug, Clone, PartialEq)]
pub struct Rule {
    pub id: String,
    pub rule: String,
}

/// A keyword of a rule: its identifier, its text, the request fields it is
/// searched for in, and the name of the check a hit must pass.
#[derive(Default, Debug, Clone, PartialEq)]
pub struct Keyword {
    pub id: i64,
    pub content: String,
    pub target: Vec<String>,
    pub after_check: Option<String>,
}

} // verus!
