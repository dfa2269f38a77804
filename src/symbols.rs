//! Terminal and non-terminal symbols.

use vstd::prelude::*;

verus! {

/// A terminal symbol of a grammar, identified by a dense index.
#[derive(Debug, Clone, Copy, PartialEq, Eq, Structural, PartialOrd, Ord, Hash)]
pub struct Term(pub usize);

/// A non-terminal symbol of a grammar, identified by a dense index.
#[derive(Debug, Clone, Copy, PartialEq, Eq, Structural, PartialOrd, Ord, Hash)]
pub struct NonTerm(pub usize);

/// A symbol, either terminal or non-terminal.
#[allow(inconsistent_fields)]
#[derive(Debug, Clone, Copy, PartialEq, Eq, Structural, PartialOrd, Ord, Hash)]
pub enum Symbol {
    /// A terminal symbol
    Terminal { val: Term },
    /// A non-terminal symbol
    NonTerminal { val: NonTerm },
}

impl Symbol {
    /// Whether this symbol is a terminal.
    pub fn is_terminal(&self) -> (r: bool)
        ensures
            r == (*self is Terminal),
    {
        match self {
            Symbol::Terminal { .. } => true,
            Symbol::NonTerminal { .. } => false,
        }
    }
}

} // verus!
