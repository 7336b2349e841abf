//! Symbol references: the elements of a grammar choice, and the "types" by
//! which tokens are filtered.

pub mod non_terminal_symbol;

use super::model::SymbolView;
use vstd::prelude::*;

verus! {

/// A symbol reference: either an exact literal (a terminal) or the name of
/// a non-terminal symbol, angle brackets excluded.
///
/// Comparing a symbol with a token compares the terminal text or the node
/// label only, never a node's children.
#[derive(Debug)]
pub enum Symbol {
    Terminal(String),
    NonTerminal(String),
}

impl View for Symbol {
    type V = SymbolView;

    open spec fn view(&self) -> SymbolView {
        match self {
            Symbol::Terminal(s) => SymbolView::Terminal(s@),
            Symbol::NonTerminal(s) => SymbolView::NonTerminal(s@),
        }
    }
}

impl Clone for Symbol {
    fn clone(&self) -> (r: Self)
        ensures
            r@ == self@,
    {
        match self {
            Symbol::Terminal(s) => Symbol::Terminal(s.clone()),
            Symbol::NonTerminal(s) => Symbol::NonTerminal(s.clone()),
        }
    }
}

impl PartialEq for Symbol {
    fn eq(&self, other: &Self) -> (r: bool) {
        match (self, other) {
            (Symbol::Terminal(a), Symbol::Terminal(b)) => a.eq(b),
            (Symbol::NonTerminal(a), Symbol::NonTerminal(b)) => a.eq(b),
            _ => false,
        }
    }
}

impl vstd::std_specs::cmp::PartialEqSpecImpl for Symbol {
    open spec fn obeys_eq_spec() -> bool {
        true
    }

    open spec fn eq_spec(&self, other: &Symbol) -> bool {
        self@ == other@
    }
}

impl Eq for Symbol {

}

} // verus!
