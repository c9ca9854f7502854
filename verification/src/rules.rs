use vstd::prelude::*;
use std::collections::HashMap;
use crate::behaviour::Behaviour;
use crate::rule::Rule;

verus! {

broadcast use vstd::std_specs::hash::group_hash_axioms;

/// The table that a list of rules stands for: each symbol with its
/// replacement and behaviour, a later rule for a symbol replacing an
/// earlier one.
pub open spec fn table_of(rules: Seq<Rule>) -> Map<char, (Seq<char>, Behaviour)>
    decreases rules.len(),
{
    if rules.len() == 0 {
        Map::empty()
    } else {
        table_of(rules.drop_last()).insert(rules.last().0, (rules.last().1@, rules.last().2))
    }
}

/// The key under which a symbol is stored.
spec fn code(c: char) -> u32 {
    c as u32
}

proof fn code_is_injective(c: char, d: char)
    requires
        code(c) == code(d),
    ensures
        c == d,
{
}

/// A grammar: for each symbol that has a rule, its replacement text and its
/// behaviour.
pub struct Rules(HashMap<u32, (String, Behaviour)>);

impl View for Rules {
    type V = Map<char, (Seq<char>, Behaviour)>;

    closed spec fn view(&self) -> Map<char, (Seq<char>, Behaviour)> {
        Map::new(
            |c: char| self.0@.contains_key(code(c)),
            |c: char| (self.0@[code(c)].0@, self.0@[code(c)].1),
        )
    }
}

impl Rules {
    pub fn new(rules: Vec<Rule>) -> (table: Rules)
        ensures
            table@ == table_of(rules@),
    {
        let mut table = Rules(HashMap::new());
        assert(table@ =~= table_of(rules@.take(0)));
        let mut i: usize = 0;
        while i < rules.len()
            invariant
                i <= rules.len(),
                table@ == table_of(rules@.take(i as int)),
            decreases rules.len() - i,
        {
            let rule = &rules[i];
            let ghost before = table@;
            let ghost raw = table.0@;
            let text = rule.1.clone();
            table.0.insert(rule.0 as u32, (text, rule.2));
            proof {
                assert(rules@.take(i + 1).drop_last() =~= rules@.take(i as int));
                assert(table.0@ == raw.insert(code(rule.0), (text, rule.2)));
                let ghost after = before.insert(rule.0, (rule.1@, rule.2));
                assert forall|c: char| #[trigger]
                    table@.dom().contains(c) <==> after.dom().contains(c) by {
                    if code(c) == code(rule.0) {
                        code_is_injective(c, rule.0);
                    }
                }
                assert forall|c: char| table@.dom().contains(c) implies #[trigger] table@[c]
                    == after[c] by {
                    if code(c) == code(rule.0) {
                        code_is_injective(c, rule.0);
                    }
                }
                assert(table@.dom() =~= after.dom());
                assert(table@ =~= before.insert(rule.0, (rule.1@, rule.2)));
            }
            i += 1;
        }
        assert(rules@.take(rules.len() as int) =~= rules@);
        table
    }

    pub fn get_text(&self, ch: &char) -> (text: Option<&String>)
        ensures
            text is Some <==> self@.contains_key(*ch),
            text is Some ==> text.unwrap()@ == self@[*ch].0,
    {
        let key: u32 = *ch as u32;
        if let Some(entry) = self.0.get(&key) {
            return Some(&entry.0);
        } else {
            return None;
        }
    }

    pub fn get_behaviour(&self, ch: &char) -> (behaviour: Option<&Behaviour>)
        ensures
            behaviour is Some <==> self@.contains_key(*ch),
            behaviour is Some ==> *behaviour.unwrap() == self@[*ch].1,
    {
        let key: u32 = *ch as u32;
        if let Some(entry) = self.0.get(&key) {
            return Some(&entry.1);
        } else {
            return None;
        }
    }
}

impl Clone for Rules {
    fn clone(&self) -> (copy: Rules)
        ensures
            copy@ == self@,
    {
        let copy = Rules(self.0.clone());
        assert(copy@ =~= self@);
        copy
    }
}

} // verus!
