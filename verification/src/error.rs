use vstd::prelude::*;

verus! {

/// The error taxonomy of the library. Every failure of grammar
/// construction, FIRST/FOLLOW computation or parsing is reported
/// through one of these variants; none is recovered internally.
#[derive(Debug)]
pub enum LlkError {
    /// A grammar validation rule failed; carries a description.
    InvalidGrammar(String),
    /// A character outside the grammar's alphabet was supplied;
    /// carries the offending character.
    UnknownSymbol(char),
    /// Semantic misuse of an operation, e.g. FOLLOW of a terminal.
    IllegalOperation(String),
    /// The predictive parser could not continue.
    DerivationFailed(String),
    /// The external grammar encoding was malformed.
    GrammarFromJsonFailed(String),
}

} // verus!
