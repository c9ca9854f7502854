use vstd::prelude::*;
use vstd::string::{StrSliceExecFns, StringExecFns};
use crate::behaviour::Behaviour;
use crate::error::LsystemError;
use crate::rules::Rules;

verus! {

/// Every symbol of `s` has a rule in `table`.
pub open spec fn all_defined(table: Map<char, (Seq<char>, Behaviour)>, s: Seq<char>) -> bool {
    forall|i: int| 0 <= i < s.len() ==> table.contains_key(#[trigger] s[i])
}

/// One rewriting pass: the replacement texts of the symbols of `s`, joined
/// in the order of the symbols.
pub open spec fn rewrite(table: Map<char, (Seq<char>, Behaviour)>, s: Seq<char>) -> Seq<char>
    decreases s.len(),
{
    if s.len() == 0 {
        Seq::empty()
    } else {
        rewrite(table, s.drop_last()) + table[s.last()].0
    }
}

/// The lengths of the replacement texts of the symbols of `s`, added up.
pub open spec fn replacement_lengths(table: Map<char, (Seq<char>, Behaviour)>, s: Seq<char>) -> nat
    decreases s.len(),
{
    if s.len() == 0 {
        0
    } else {
        replacement_lengths(table, s.drop_last()) + table[s.last()].0.len()
    }
}

/// The start sequence after `depth` rewriting passes, or `None` where a pass meets a
/// symbol without a rule.
pub open spec fn expand(
    table: Map<char, (Seq<char>, Behaviour)>,
    start: Seq<char>,
    depth: nat,
) -> Option<Seq<char>>
    decreases depth,
{
    if depth == 0 {
        Some(start)
    } else {
        match expand(table, start, (depth - 1) as nat) {
            Some(s) => if all_defined(table, s) {
                Some(rewrite(table, s))
            } else {
                None
            },
            None => None,
        }
    }
}

/// One rewriting pass over `sequence`.
pub fn rewrite_once(rules: &Rules, sequence: &str) -> (out: Result<String, LsystemError>)
    ensures
        all_defined(rules@, sequence@) ==> out is Ok && out.unwrap()@ == rewrite(
            rules@,
            sequence@,
        ),
        !all_defined(rules@, sequence@) ==> out == Err::<String, LsystemError>(
            LsystemError::UndefinedSymbol,
        ),
{
    let mut text = String::new();
    for ch in it: sequence.chars()
        invariant
            it.seq() == sequence@,
            all_defined(rules@, sequence@.take(it.index())),
            text@ == rewrite(rules@, sequence@.take(it.index())),
    {
        assert(sequence@.take(it.index() + 1).drop_last() =~= sequence@.take(it.index()));
        match rules.get_text(&ch) {
            Some(replacement) => {
                text.append(replacement.as_str());
            },
            None => {
                return Err(LsystemError::UndefinedSymbol);
            },
        }
    }
    assert(sequence@.take(sequence@.len() as int) =~= sequence@);
    Ok(text)
}

/// One rewriting pass that may give at most `limit` symbols.
pub open spec fn rewrite_bounded(
    table: Map<char, (Seq<char>, Behaviour)>,
    s: Seq<char>,
    limit: usize,
) -> Result<Seq<char>, LsystemError> {
    if !all_defined(table, s) {
        Err(LsystemError::UndefinedSymbol)
    } else if replacement_lengths(table, s) > limit {
        Err(LsystemError::SequenceTooLong)
    } else {
        Ok(rewrite(table, s))
    }
}

/// The start sequence after `depth` rewriting passes of which none gives
/// more than `limit` symbols, or the error of the first pass that fails.
pub open spec fn expand_within(
    table: Map<char, (Seq<char>, Behaviour)>,
    start: Seq<char>,
    depth: nat,
    limit: usize,
) -> Result<Seq<char>, LsystemError>
    decreases depth,
{
    if depth == 0 {
        Ok(start)
    } else {
        match expand_within(table, start, (depth - 1) as nat, limit) {
            Ok(s) => rewrite_bounded(table, s, limit),
            Err(e) => Err(e),
        }
    }
}

/// Whether one rewriting pass over `sequence` gives more than `limit`
/// symbols; nothing is built to find out.
pub fn outgrows(rules: &Rules, sequence: &str, limit: usize) -> (out: Result<bool, LsystemError>)
    ensures
        all_defined(rules@, sequence@) ==> out == Ok::<bool, LsystemError>(
            replacement_lengths(rules@, sequence@) > limit,
        ),
        !all_defined(rules@, sequence@) ==> out == Err::<bool, LsystemError>(
            LsystemError::UndefinedSymbol,
        ),
{
    let mut total: usize = 0;
    let mut over = false;
    for ch in it: sequence.chars()
        invariant
            it.seq() == sequence@,
            all_defined(rules@, sequence@.take(it.index())),
            over ==> replacement_lengths(rules@, sequence@.take(it.index())) > limit,
            !over ==> total == replacement_lengths(rules@, sequence@.take(it.index())) && total
                <= limit,
    {
        assert(sequence@.take(it.index() + 1).drop_last() =~= sequence@.take(it.index()));
        match rules.get_text(&ch) {
            Some(replacement) => {
                if !over {
                    let more = replacement.as_str().unicode_len();
                    if more > limit - total {
                        over = true;
                    } else {
                        total = total + more;
                    }
                }
            },
            None => {
                return Err(LsystemError::UndefinedSymbol);
            },
        }
    }
    assert(sequence@.take(sequence@.len() as int) =~= sequence@);
    Ok(over)
}

/// One rewriting pass over `sequence` that gives up before it builds more
/// than `limit` symbols.
pub fn rewrite_within(rules: &Rules, sequence: &str, limit: usize) -> (out: Result<
    String,
    LsystemError,
>)
    ensures
        match rewrite_bounded(rules@, sequence@, limit) {
            Ok(s) => out is Ok && out.unwrap()@ == s,
            Err(e) => out == Err::<String, LsystemError>(e),
        },
{
    match outgrows(rules, sequence, limit) {
        Err(e) => Err(e),
        Ok(true) => Err(LsystemError::SequenceTooLong),
        Ok(false) => rewrite_once(rules, sequence),
    }
}

/// Once a depth cannot be reached within the limit, no greater depth can,
/// and the error is the same.
pub proof fn lemma_expand_within_stays(
    table: Map<char, (Seq<char>, Behaviour)>,
    start: Seq<char>,
    depth: nat,
    deeper: nat,
    limit: usize,
)
    requires
        depth <= deeper,
        expand_within(table, start, depth, limit) is Err,
    ensures
        expand_within(table, start, deeper, limit) == expand_within(table, start, depth, limit),
    decreases deeper,
{
    if depth < deeper {
        lemma_expand_within_stays(table, start, depth, (deeper - 1) as nat, limit);
    }
}

/// Where every pass stays within the limit, the limit changes nothing.
pub proof fn lemma_expand_within_is_expand(
    table: Map<char, (Seq<char>, Behaviour)>,
    start: Seq<char>,
    depth: nat,
    limit: usize,
)
    requires
        expand_within(table, start, depth, limit) is Ok,
    ensures
        expand(table, start, depth) == Some(expand_within(table, start, depth, limit).unwrap()),
    decreases depth,
{
    if depth > 0 {
        lemma_expand_within_is_expand(table, start, (depth - 1) as nat, limit);
    }
}

/// With no pass made, the start sequence is returned as it is.
pub proof fn lemma_expand_zero(table: Map<char, (Seq<char>, Behaviour)>, start: Seq<char>)
    ensures
        expand(table, start, 0) == Some(start),
{
}

/// A pass is as long as the replacement texts of its symbols together.
pub proof fn lemma_rewrite_len(table: Map<char, (Seq<char>, Behaviour)>, s: Seq<char>)
    ensures
        rewrite(table, s).len() == replacement_lengths(table, s),
    decreases s.len(),
{
    if s.len() > 0 {
        lemma_rewrite_len(table, s.drop_last());
    }
}

/// Where the sequence of depth `depth` exists and each of its symbols has a
/// rule, the sequence of the next depth exists, and its length is the sum
/// of the lengths of the replacement texts of those symbols.
pub proof fn lemma_expand_next_len(
    table: Map<char, (Seq<char>, Behaviour)>,
    start: Seq<char>,
    depth: nat,
)
    requires
        expand(table, start, depth) is Some,
        all_defined(table, expand(table, start, depth).unwrap()),
    ensures
        expand(table, start, depth + 1) is Some,
        expand(table, start, depth + 1).unwrap().len() == replacement_lengths(
            table,
            expand(table, start, depth).unwrap(),
        ),
{
    lemma_rewrite_len(table, expand(table, start, depth).unwrap());
}

/// Once a depth cannot be reached, no greater depth can.
pub proof fn lemma_expand_none_stays(
    table: Map<char, (Seq<char>, Behaviour)>,
    start: Seq<char>,
    depth: nat,
    deeper: nat,
)
    requires
        depth <= deeper,
        expand(table, start, depth) is None,
    ensures
        expand(table, start, deeper) is None,
    decreases deeper,
{
    if depth < deeper {
        lemma_expand_none_stays(table, start, depth, (deeper - 1) as nat);
    }
}

} // verus!
