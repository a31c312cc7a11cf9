//! The error taxonomy of the library.
use vstd::prelude::*;

verus! {

/// Everything that can go wrong while building a grammar, generating from
/// it, or preparing it for recognition.
#[derive(Debug)]
pub enum Error {
    /// Malformed textual grammar notation; raised only by front-ends that
    /// parse such notation, never by the core itself.
    InvalidGrammarSyntaxError(String),
    /// A nonterminal was expanded that no rule defines.
    UnknownNonterminalError(String),
    /// A terminal-only operation was attempted on a nonterminal.
    NotATerminalError(String),
    /// Recursion-avoiding generation found no recursion-free alternative.
    InfinitelyRecursiveProductionError(String),
    /// An operation needed a start rule but the grammar has none.
    EmptyGrammarError(String),
}

} // verus!
