use vstd::prelude::*;

verus! {

/// A node of the tree: an atom holding one token's text, or a list of
/// nodes in source order.
#[derive(Debug, PartialEq, Eq)]
pub enum Expr<'a> {
    Atom(&'a str),
    List(Vec<Expr<'a>>),
}

/// Why reading failed.
#[derive(Debug, PartialEq, Eq)]
pub enum LexError {
    /// The text could not be had; holds the name it was asked for by.
    SourceUnavailable(String),
    /// A `)` without an open `(`, or a `(` never closed.
    UnbalancedParentheses,
}

/// The tokens that a sequence of nodes is written with: an atom is its
/// text, a list is `(`, its children's tokens and `)`.
pub open spec fn flat<'a>(ns: Seq<Expr<'a>>) -> Seq<Seq<char>>
    decreases ns,
{
    if ns.len() == 0 {
        Seq::empty()
    } else {
        let last = ns.last();
        flat(ns.drop_last()) + match last {
            Expr::Atom(t) => seq![t@],
            Expr::List(l) => seq![seq!['(']] + flat(l@) + seq![seq![')']],
        }
    }
}

/// No atom in the nodes, at any depth, holds a parenthesis token.
pub open spec fn well_formed<'a>(ns: Seq<Expr<'a>>) -> bool
    decreases ns,
{
    if ns.len() == 0 {
        true
    } else {
        well_formed(ns.drop_last()) && match ns.last() {
            Expr::Atom(t) => t@ != seq!['('] && t@ != seq![')'],
            Expr::List(l) => well_formed(l@),
        }
    }
}

} // verus!
