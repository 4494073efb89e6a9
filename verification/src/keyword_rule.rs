//! A rule that carries its keywords as one string.
use vstd::prelude::*;

verus! {

pub struct Rule {
    pub keyword: String,
}

impl Rule {
    /// A copy of the rule's keywords.
    pub fn get_keyword(self: &Rule) -> (r: String)
        ensures
            r@ == self.keyword@,
    {
        return self.keyword.clone();
    }
}

} // verus!
