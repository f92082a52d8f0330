//! Tree templates and the tiles of a catalog.
use vstd::prelude::*;
use crate::graph::ValueGraph;
use crate::opcode::{opcode_eq, Loc, Opcode};

verus! {

/// A tree template: an opcode matcher and optional templates for the left
/// and right operands. An absent sub-template leaves that operand
/// unconstrained; the operand is then costed on its own.
#[derive(Debug)]
pub struct Pattern {
    pub op: Opcode,
    pub left: Option<Box<Pattern>>,
    pub right: Option<Box<Pattern>>,
}

impl Pattern {
    /// A template that constrains the opcode alone.
    pub fn new(op: Opcode) -> (r: Pattern)
        ensures
            r.op == op,
            r.left is None,
            r.right is None,
    {
        Pattern { op, left: None, right: None }
    }

    /// A template with the given operand templates.
    pub fn with_operands(op: Opcode, left: Option<Pattern>, right: Option<Pattern>) -> (r: Pattern)
        ensures
            r.op == op,
            match left {
                Some(l) => r.left == Some(Box::new(l)),
                None => r.left is None,
            },
            match right {
                Some(x) => r.right == Some(Box::new(x)),
                None => r.right is None,
            },
    {
        let left = match left {
            Some(l) => Some(Box::new(l)),
            None => None,
        };
        let right = match right {
            Some(x) => Some(Box::new(x)),
            None => None,
        };
        Pattern { op, left, right }
    }

    /// Whether the pattern matches node `i` of `g`.
    pub fn matches(&self, g: &ValueGraph, i: usize) -> (r: bool)
        requires
            g.wf(),
            i < g.len(),
        ensures
            r == matches_at(*g, *self, i as int),
        decreases self,
    {
        if !(self.op == g.node(i).opcode) {
            return false;
        }
        let leaf = g.node(i).opcode.is_ref();
        let left_ok = match &self.left {
            Some(l) => !leaf && l.matches(g, g.operands(i).0),
            None => true,
        };
        let right_ok = match &self.right {
            Some(x) => !leaf && x.matches(g, g.operands(i).1),
            None => true,
        };
        left_ok && right_ok
    }
}

/// One instruction encoding: subtrees of the pattern's shape can run on
/// `loc` for `cost` on top of what their unconstrained operands cost.
#[derive(Debug)]
pub struct Tile {
    pub pattern: Pattern,
    pub loc: Loc,
    pub cost: u128,
}

impl Tile {
    pub fn new(pattern: Pattern, loc: Loc, cost: u128) -> (r: Tile)
        ensures
            r.pattern == pattern,
            r.loc == loc,
            r.cost == cost,
    {
        Tile { pattern, loc, cost }
    }
}

/// The operand templates of `p` hold at node `i`: each present one needs an
/// operand there that it matches.
pub open spec fn operands_match(g: ValueGraph, p: Pattern, i: int) -> bool
    decreases p, 0int,
{
    &&& match p.left {
        Some(l) => !g.is_leaf(i) && matches_at(g, *l, g.lhs(i)),
        None => true,
    }
    &&& match p.right {
        Some(r) => !g.is_leaf(i) && matches_at(g, *r, g.rhs(i)),
        None => true,
    }
}

/// Pattern `p` matches node `i` of `g`.
pub open spec fn matches_at(g: ValueGraph, p: Pattern, i: int) -> bool
    decreases p, 1int,
{
    opcode_eq(p.op, g.opcode_of(i)) && operands_match(g, p, i)
}

/// The wildcard law: a pattern whose matcher is `Any` matches a node whatever
/// the node's opcode, and a pattern with a concrete matcher needs exactly
/// that opcode; the operand templates are checked the same way in both cases.
pub proof fn lemma_wildcard(g: ValueGraph, p: Pattern, i: int)
    requires
        g.wf(),
        0 <= i < g.len(),
    ensures
        p.op is Any ==> (matches_at(g, p, i) <==> operands_match(g, p, i)),
        !(p.op is Any) ==> (matches_at(g, p, i) <==> p.op == g.opcode_of(i) && operands_match(g, p, i)),
{
    assert(g.shaped(i));
}

} // verus!
