//! Expression trees: each node owns its operands, so a value read twice
//! appears twice. Walking one bottom-up gives an emission order.
use vstd::prelude::*;
use crate::opcode::{opcode_eq, Loc, Opcode};

verus! {

broadcast use vstd::std_specs::vec::group_vec_axioms;

/// A node of an expression tree with its placement and cost.
#[derive(Debug)]
pub struct Node {
    pub opcode: Opcode,
    pub operands: Vec<Node>,
    pub width: u64,
    pub loc: Loc,
    pub cost: u128,
    pub visited: bool,
}

/// `a` and `b` are the same tree, node for node: what a deep copy gives.
pub open spec fn same_tree(a: Node, b: Node) -> bool
    decreases a,
{
    &&& a.opcode == b.opcode
    &&& a.width == b.width
    &&& a.loc == b.loc
    &&& a.cost == b.cost
    &&& a.visited == b.visited
    &&& a.operands.len() == b.operands.len()
    &&& forall|k: int| 0 <= k < a.operands.len() ==> same_tree(#[trigger] a.operands@[k], b.operands@[k])
}

/// The walks of the first `k` operands of `n`, one after the other.
pub open spec fn walk_upto(n: Node, k: int) -> Seq<Node>
    decreases n, k,
{
    if k <= 0 || k > n.operands.len() {
        Seq::empty()
    } else {
        let c = n.operands@[k - 1];
        walk_upto(n, k - 1) + walk_upto(c, c.operands.len() as int) + seq![c]
    }
}

/// The bottom-up walk of `n`: each operand's walk in order, then `n`.
pub open spec fn postorder_of(n: Node) -> Seq<Node> {
    walk_upto(n, n.operands.len() as int) + seq![n]
}

/// `x` occurs in `s` before position `i`.
pub open spec fn occurs_before(s: Seq<Node>, i: int, x: Node) -> bool {
    exists|j: int| 0 <= j < i && s[j] == x
}

/// Every node of `s` has each of its operands somewhere before it.
pub open spec fn operands_first(s: Seq<Node>) -> bool {
    forall|i: int, k: int| 0 <= i < s.len() && 0 <= k < s[i].operands.len()
        ==> occurs_before(s, i, #[trigger] s[i].operands@[k])
}

proof fn lemma_operands_first_concat(a: Seq<Node>, b: Seq<Node>)
    requires
        operands_first(a),
        operands_first(b),
    ensures
        operands_first(a + b),
{
    let s = a + b;
    assert forall|i: int, k: int| 0 <= i < s.len() && 0 <= k < s[i].operands.len()
        implies occurs_before(s, i, #[trigger] s[i].operands@[k]) by {
        if i < a.len() {
            assert(a[i] == s[i]);
            assert(a[i].operands@[k] == s[i].operands@[k]);
            let j = choose|j: int| 0 <= j < i && a[j] == a[i].operands@[k];
            assert(s[j] == a[j]);
        } else {
            let ib = i - a.len();
            assert(b[ib] == s[i]);
            assert(b[ib].operands@[k] == s[i].operands@[k]);
            let j = choose|j: int| 0 <= j < ib && b[j] == b[ib].operands@[k];
            assert(s[a.len() + j] == b[j]);
        }
    }
}

/// The walk of the first `k` operands of `n` puts operands first and holds
/// each of those operands.
proof fn lemma_walk_upto(n: Node, k: int)
    requires
        0 <= k <= n.operands.len(),
    ensures
        operands_first(walk_upto(n, k)),
        forall|m: int| 0 <= m < k ==> walk_upto(n, k).contains(#[trigger] n.operands@[m]),
    decreases n, k,
{
    if k > 0 {
        let c = n.operands@[k - 1];
        let w = walk_upto(n, k - 1);
        let wc = walk_upto(c, c.operands.len() as int);
        lemma_walk_upto(n, k - 1);
        lemma_walk_upto(c, c.operands.len() as int);
        let pc = wc + seq![c];
        assert forall|i: int, q: int| 0 <= i < pc.len() && 0 <= q < pc[i].operands.len()
            implies occurs_before(pc, i, #[trigger] pc[i].operands@[q]) by {
            if i < wc.len() {
                assert(pc[i] == wc[i]);
                assert(wc[i].operands@[q] == pc[i].operands@[q]);
                let j = choose|j: int| 0 <= j < i && wc[j] == wc[i].operands@[q];
                assert(pc[j] == wc[j]);
            } else {
                assert(pc[i] == c);
                assert(wc.contains(c.operands@[q]));
                let j = choose|j: int| 0 <= j < wc.len() && wc[j] == c.operands@[q];
                assert(pc[j] == wc[j]);
            }
        }
        assert(operands_first(pc));
        lemma_operands_first_concat(w, pc);
        let s = walk_upto(n, k);
        assert(s =~= w + pc);
        assert forall|m: int| 0 <= m < k implies s.contains(#[trigger] n.operands@[m]) by {
            if m < k - 1 {
                let j = choose|j: int| 0 <= j < w.len() && w[j] == n.operands@[m];
                assert(s[j] == w[j]);
            } else {
                assert(s[s.len() - 1] == c);
            }
        }
    }
}

/// In the bottom-up walk of a tree every node comes after all of its
/// operands.
pub proof fn lemma_postorder_operands_first(n: Node)
    ensures
        operands_first(postorder_of(n)),
        postorder_of(n).last() == n,
{
    let w = walk_upto(n, n.operands.len() as int);
    lemma_walk_upto(n, n.operands.len() as int);
    let p = postorder_of(n);
    assert forall|i: int, k: int| 0 <= i < p.len() && 0 <= k < p[i].operands.len()
        implies occurs_before(p, i, #[trigger] p[i].operands@[k]) by {
        if i < w.len() {
            assert(p[i] == w[i]);
            assert(w[i].operands@[k] == p[i].operands@[k]);
            let j = choose|j: int| 0 <= j < i && w[j] == w[i].operands@[k];
            assert(p[j] == w[j]);
        } else {
            assert(p[i] == n);
            assert(w.contains(n.operands@[k]));
            let j = choose|j: int| 0 <= j < w.len() && w[j] == n.operands@[k];
            assert(p[j] == w[j]);
        }
    }
}

/// One level of structure: equal opcodes (with the wildcard), widths and
/// operand counts, at the node and at each of its operands.
pub open spec fn same_shape(a: Node, b: Node) -> bool {
    &&& opcode_eq(a.opcode, b.opcode)
    &&& a.width == b.width
    &&& a.operands.len() == b.operands.len()
    &&& forall|k: int| 0 <= k < a.operands.len() ==> {
        let x = #[trigger] a.operands@[k];
        let y = b.operands@[k];
        &&& opcode_eq(x.opcode, y.opcode)
        &&& x.width == y.width
        &&& x.operands.len() == y.operands.len()
    }
}

fn copy_tree(n: &Node) -> (r: Node)
    ensures
        same_tree(r, *n),
    decreases n,
{
    let mut operands: Vec<Node> = Vec::new();
    let mut k: usize = 0;
    while k < n.operands.len()
        invariant
            k <= n.operands.len(),
            operands.len() == k,
            forall|m: int| 0 <= m < k ==> same_tree(#[trigger] operands@[m], n.operands@[m]),
        decreases n.operands.len() - k,
    {
        operands.push(copy_tree(&n.operands[k]));
        k += 1;
    }
    Node {
        opcode: n.opcode,
        operands,
        width: n.width,
        loc: n.loc,
        cost: n.cost,
        visited: n.visited,
    }
}

impl Clone for Node {
    fn clone(&self) -> (r: Self)
        ensures
            same_tree(r, *self),
    {
        copy_tree(self)
    }
}

impl PartialEq for Node {
    fn eq(&self, other: &Node) -> (r: bool) {
        if !(self.opcode == other.opcode) {
            false
        } else if self.width != other.width {
            false
        } else if self.operands.len() != other.operands.len() {
            false
        } else {
            let mut k: usize = 0;
            while k < self.operands.len()
                invariant
                    k <= self.operands.len(),
                    self.operands.len() == other.operands.len(),
                    forall|m: int| 0 <= m < k ==> {
                        let x = #[trigger] self.operands@[m];
                        let y = other.operands@[m];
                        &&& opcode_eq(x.opcode, y.opcode)
                        &&& x.width == y.width
                        &&& x.operands.len() == y.operands.len()
                    },
                decreases self.operands.len() - k,
            {
                let a = &self.operands[k];
                let b = &other.operands[k];
                if !(a.opcode == b.opcode) || a.width != b.width || a.operands.len() != b.operands.len() {
                    return false;
                }
                k += 1;
            }
            true
        }
    }
}

impl vstd::std_specs::cmp::PartialEqSpecImpl for Node {
    open spec fn obeys_eq_spec() -> bool {
        true
    }

    open spec fn eq_spec(&self, other: &Node) -> bool {
        same_shape(*self, *other)
    }
}

/// `s` is a copy of `t`, tree by tree.
pub open spec fn copies(s: Seq<Node>, t: Seq<Node>) -> bool {
    &&& s.len() == t.len()
    &&& forall|i: int| 0 <= i < s.len() ==> same_tree(#[trigger] s[i], t[i])
}

/// Appends a copy of the bottom-up walk of `n` to `out`.
fn walk_into(n: &Node, out: &mut Vec<Node>)
    ensures
        final(out)@.len() == old(out)@.len() + postorder_of(*n).len(),
        forall|i: int| 0 <= i < old(out)@.len() ==> #[trigger] final(out)@[i] == old(out)@[i],
        forall|i: int| 0 <= i < postorder_of(*n).len() ==>
            same_tree(#[trigger] final(out)@[old(out)@.len() + i], postorder_of(*n)[i]),
    decreases n,
{
    let ghost start = out@;
    let ghost s0 = start.len() as int;
    let mut k: usize = 0;
    while k < n.operands.len()
        invariant
            k <= n.operands.len(),
            out@.len() == s0 + walk_upto(*n, k as int).len(),
            s0 == start.len(),
            forall|i: int| 0 <= i < s0 ==> #[trigger] out@[i] == start[i],
            forall|i: int| 0 <= i < walk_upto(*n, k as int).len() ==>
                same_tree(#[trigger] out@[s0 + i], walk_upto(*n, k as int)[i]),
        decreases n.operands.len() - k,
    {
        let ghost before = out@;
        let ghost w = walk_upto(*n, k as int);
        walk_into(&n.operands[k], out);
        proof {
            let c = n.operands@[k as int];
            let wc = walk_upto(c, c.operands.len() as int);
            let w2 = walk_upto(*n, k + 1);
            assert(w2 == w + wc + seq![c]);
            assert(postorder_of(c) == wc + seq![c]);
            assert forall|i: int| 0 <= i < s0 implies #[trigger] out@[i] == start[i] by {
                assert(out@[i] == before[i]);
            }
            assert forall|i: int| 0 <= i < w2.len() implies same_tree(#[trigger] out@[s0 + i], w2[i]) by {
                if i < w.len() {
                    assert(out@[s0 + i] == before[s0 + i]);
                    assert(w2[i] == w[i]);
                } else {
                    let d = i - w.len();
                    assert(out@[s0 + i] == out@[before.len() + d]);
                    assert(w2[i] == postorder_of(c)[d]);
                }
            }
        }
        k += 1;
    }
    let ghost before = out@;
    out.push(n.clone());
    proof {
        let p = postorder_of(*n);
        let w = walk_upto(*n, n.operands.len() as int);
        assert(p == w + seq![*n]);
        assert forall|i: int| 0 <= i < p.len() implies same_tree(#[trigger] out@[s0 + i], p[i]) by {
            if i < w.len() {
                assert(out@[s0 + i] == before[s0 + i]);
            }
        }
        assert forall|i: int| 0 <= i < s0 implies #[trigger] out@[i] == start[i] by {
            assert(out@[i] == before[i]);
        }
    }
}

impl Node {
    /// A node without operands.
    pub fn new_with_attrs(opcode: &Opcode, width: u64, loc: &Loc, cost: u128) -> (r: Node)
        ensures
            r.opcode == *opcode,
            r.operands@.len() == 0,
            r.width == width,
            r.loc == *loc,
            r.cost == cost,
            !r.visited,
    {
        Node { opcode: *opcode, operands: Vec::new(), width, loc: *loc, cost, visited: false }
    }

    /// Sets the cost and hands the node back for further changes.
    pub fn change_cost(&mut self, cost: u128) -> (r: &mut Node)
        ensures
            *r == (Node { cost, ..*old(self) }),
            *final(self) == *final(r),
    {
        self.cost = cost;
        self
    }

    /// Appends a copy of `operand` and hands the node back.
    pub fn push_operand(&mut self, operand: &Node) -> (r: &mut Node)
        ensures
            r.operands@.len() == old(self).operands@.len() + 1,
            r.operands@.drop_last() == old(self).operands@,
            same_tree(r.operands@.last(), *operand),
            r.opcode == old(self).opcode,
            r.width == old(self).width,
            r.loc == old(self).loc,
            r.cost == old(self).cost,
            r.visited == old(self).visited,
            *final(self) == *final(r),
    {
        self.operands.push(operand.clone());
        self
    }

    pub fn was_visited(&self) -> (r: bool)
        ensures
            r == self.visited,
    {
        self.visited
    }

    /// The nodes of the tree bottom-up: every node comes after all of its
    /// operands, and a subtree held twice is walked twice.
    pub fn postorder(&self) -> (r: Vec<Node>)
        ensures
            copies(r@, postorder_of(*self)),
    {
        let mut out: Vec<Node> = Vec::new();
        walk_into(self, &mut out);
        proof {
            assert forall|i: int| 0 <= i < out@.len() implies same_tree(#[trigger] out@[i], postorder_of(*self)[i]) by {
                assert(out@[0 + i] == out@[i]);
            }
        }
        out
    }
}

} // verus!
