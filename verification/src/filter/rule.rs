//! Rules: an identifier, the keywords that point at the rule, and the filter
//! expression that decides it.
use vstd::prelude::*;
use crate::filter::engine::{compile_filter, filter_parses, parse_filter, BytesScheme, CompiledFilter};

verus! {

/// A keyword of a rule: its identifier, its text, the request fields it is
/// searched for in, and the name of the check a hit must pass.
#[derive(Default, Debug, Clone, PartialEq)]
pub struct Keyword {
    pub id: i64,
    pub content: String,
    pub target: Vec<String>,
    pub after_check: Option<String>,
}

#[derive(Default, Debug, Clone, PartialEq)]
pub struct Rule {
    pub id: String,
    pub keyword: Vec<Keyword>,
    pub content: String,
}

pub struct KeywordSpec {
    pub id: i64,
    pub content: Seq<char>,
    pub target: Seq<Seq<char>>,
    pub after_check: Option<Seq<char>>,
}

pub struct RuleSpec {
    pub id: Seq<char>,
    pub keyword: Seq<KeywordSpec>,
    pub content: Seq<char>,
}

impl Keyword {
    pub open spec fn view_keyword(&self) -> KeywordSpec {
        KeywordSpec {
            id: self.id,
            content: self.content@,
            target: self.target@.map_values(|t: String| t@),
            after_check: match self.after_check {
                Some(s) => Some(s@),
                None => None,
            },
        }
    }
}

impl Rule {
    pub open spec fn view_rule(&self) -> RuleSpec {
        RuleSpec {
            id: self.id@,
            keyword: self.keyword@.map_values(|k: Keyword| k.view_keyword()),
            content: self.content@,
        }
    }
}


/// A rule ready to run: its identifier and its compiled filter.
pub struct RtRule<'s> {
    pub filter: CompiledFilter<'s>,
    pub rid: String,
}

impl<'s> RtRule<'s> {
    /// Compiles the filter expression of `r` against `scheme`; gives nothing
    /// where the expression does not parse. An expression that calls a
    /// function does not parse: the `wirefilter` engine has none.
    pub fn new(r: &Rule, scheme: &'s BytesScheme) -> (rt: Option<RtRule<'s>>)
        ensures
            rt is Some <==> filter_parses(scheme.fields(), r.content@),
            rt matches Some(x) ==> {
                &&& x.rid@ == r.id@
                &&& x.filter.source() == r.content@
                &&& x.filter.fields() == scheme.fields()
                &&& x.filter.scheme_of() == *scheme
            },
    {
        match parse_filter(scheme, r.content.as_str()) {
            Some(p) => Some(RtRule { filter: compile_filter(p), rid: r.id.clone() }),
            None => None,
        }
    }
}

} // verus!
