use vstd::prelude::*;

verus! {

/// Why a sequence could not be rewritten or scanned.
#[derive(Clone, Copy, PartialEq, Eq, Structural, Debug)]
pub enum LsystemError {
    /// A symbol of the sequence has no rule.
    UndefinedSymbol,
    /// A branch was closed that had never been opened.
    UnbalancedBranch,
    /// A rewriting pass would give more symbols than the caller allows.
    SequenceTooLong,
}

} // verus!
