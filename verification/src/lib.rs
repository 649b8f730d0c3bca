//! A finite-automaton engine for a regular-expression backend.
//!
//! A regex syntax tree ([`nfa::regex_parser::Ast`]) is translated into a
//! nondeterministic automaton ([`NFA`]) by Thompson construction, determinized
//! into a [`DFA`] by subset construction, minimized by table-filling partition
//! refinement, optionally reversed back into an NFA for the reverse language,
//! executed over symbol sequences, and exhaustively enumerated.

use vstd::prelude::*;

pub mod dfa;
pub mod nfa;
pub mod visits;

pub use crate::dfa::DFA;
pub use crate::nfa::NFA;

verus! {

/// The reserved symbol id standing for the epsilon (no-input) pseudo-symbol.
/// It labels NFA transitions that consume no input and must never appear in a
/// DFA's transition map nor in matched or generated strings.
pub const EPSILON: i32 = -1;

/// A node of an automaton graph, identified by a dense integer id.
/// Ids within one automaton span `0..n` with no gaps, in allocation order.
#[derive(Clone, Copy, Debug, PartialEq, Eq, Structural)]
pub struct State(pub usize);

/// An alphabet element (or the reserved epsilon sentinel) labeling a transition.
#[derive(Clone, Copy, Debug, PartialEq, Eq, Structural)]
pub struct Symbol(pub i32);

impl Symbol {
    /// The epsilon pseudo-symbol.
    pub fn null() -> (r: Symbol)
        ensures
            r == Symbol(EPSILON),
    {
        Symbol(EPSILON)
    }

    /// Whether this symbol is the epsilon sentinel.
    pub fn is_null(&self) -> (r: bool)
        ensures
            r == (self.0 == EPSILON),
    {
        self.0 == EPSILON
    }

    /// The symbol standing for a lower-case ASCII letter, mapping `b'a'` to 0.
    pub fn from_u8(c: u8) -> (r: Symbol)
        requires
            c >= 97,
        ensures
            r == Symbol((c - 97) as i32),
    {
        Symbol((c - 97) as i32)
    }
}

} // verus!
