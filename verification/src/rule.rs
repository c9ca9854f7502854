use vstd::prelude::*;
use crate::behaviour::Behaviour;

verus! {

/// One rule of a grammar: the symbol, the text that replaces it in a
/// rewriting pass, and what the symbol makes the turtle do.
pub struct Rule(pub char, pub String, pub Behaviour);

impl Rule {
    pub fn new(from: char, to: &str, behaviour: Behaviour) -> (rule: Rule)
        ensures
            rule.0 == from,
            rule.1@ == to@,
            rule.2 == behaviour,
    {
        Rule(from, to.to_owned(), behaviour)
    }
}

} // verus!
