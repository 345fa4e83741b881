//! Node identity: the taint graph addresses two kinds of points in the
//! expression tree. A *symbol* identity names a bound variable (function
//! parameter or `let` binding) and is only meaningful inside the lexical
//! scope that introduced it; an *expression* identity is the stable numeric
//! id that the parser assigns to every expression node.

use vstd::prelude::*;
use crate::text::str_eq;

verus! {

/// Identity of an addressable point in the expression tree.
#[derive(Clone, Debug)]
pub enum NodeId {
    /// A bound name: a function parameter or a `let` binding.
    Symbol(String),
    /// The stable numeric id of an expression node.
    Expr(u64),
}

/// The mathematical identity behind a [`NodeId`]: symbols are identified by
/// their character sequence, expressions by their numeric id.
pub enum NodeKey {
    Symbol(Seq<char>),
    Expr(u64),
}

impl NodeId {
    /// The mathematical identity of this node.
    pub open spec fn key(&self) -> NodeKey {
        match self {
            NodeId::Symbol(s) => NodeKey::Symbol(s@),
            NodeId::Expr(id) => NodeKey::Expr(*id),
        }
    }

    /// Builds the identity of the symbol named `name`.
    pub fn symbol(name: &str) -> (n: NodeId)
        ensures
            n.key() == NodeKey::Symbol(name@),
    {
        NodeId::Symbol(name.to_owned())
    }

    /// Decides whether two identities denote the same node.
    pub fn eq_id(&self, other: &NodeId) -> (r: bool)
        ensures
            r == (self.key() == other.key()),
    {
        match (self, other) {
            (NodeId::Symbol(a), NodeId::Symbol(b)) => str_eq(a.as_str(), b.as_str()),
            (NodeId::Expr(a), NodeId::Expr(b)) => a == b,
            _ => false,
        }
    }

    /// An owned copy with the same identity.
    pub fn dup(&self) -> (n: NodeId)
        ensures
            n.key() == self.key(),
    {
        match self {
            NodeId::Symbol(s) => NodeId::Symbol(s.clone()),
            NodeId::Expr(id) => NodeId::Expr(*id),
        }
    }
}

} // verus!
