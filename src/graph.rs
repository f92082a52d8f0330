//! The value graph: one node per named value, stored in a petgraph `Graph`
//! whose edges run from a node to its operands.
use petgraph::graph::{Graph, NodeIndex};
use petgraph::Directed;
use vstd::prelude::*;
use crate::opcode::{Loc, Opcode};

verus! {

#[verifier::external_type_specification]
#[verifier::external_body]
#[verifier::reject_recursive_types(N)]
#[verifier::reject_recursive_types(E)]
#[verifier::reject_recursive_types(Ty)]
#[verifier::reject_recursive_types(Ix)]
pub struct ExGraph<N, E, Ty, Ix>(Graph<N, E, Ty, Ix>);

#[verifier::external_type_specification]
#[verifier::external_body]
pub struct ExDirected(Directed);

/// The node weights of a graph, in index order.
pub uninterp spec fn graph_nodes(g: Graph<Node, ()>) -> Seq<Node>;

/// The edges of a graph as (source, target) index pairs, in order of addition.
pub uninterp spec fn graph_edges(g: Graph<Node, ()>) -> Seq<(usize, usize)>;

/// Targets of the edges leaving `i`, most recently added first.
pub open spec fn out_targets(edges: Seq<(usize, usize)>, i: usize) -> Seq<usize>
    decreases edges.len(),
{
    if edges.len() == 0 {
        Seq::empty()
    } else {
        let rest = out_targets(edges.drop_last(), i);
        if edges.last().0 == i {
            seq![edges.last().1] + rest
        } else {
            rest
        }
    }
}

/// Relies on petgraph's `Graph::new`: a directed graph without nodes or edges.
#[verifier::external_body]
fn empty_graph() -> (g: Graph<Node, ()>)
    ensures
        graph_nodes(g).len() == 0,
        graph_edges(g).len() == 0,
{
    Graph::new()
}

/// Relies on petgraph's `Graph::add_node`: the weight is appended and its
/// index is the former node count; it panics once the count reaches `u32::MAX`.
#[verifier::external_body]
fn add_node(g: &mut Graph<Node, ()>, w: Node) -> (i: usize)
    requires
        graph_nodes(*old(g)).len() < u32::MAX,
    ensures
        graph_nodes(*final(g)) == graph_nodes(*old(g)).push(w),
        graph_edges(*final(g)) == graph_edges(*old(g)),
        i == graph_nodes(*old(g)).len(),
{
    g.add_node(w).index()
}

/// Relies on petgraph's `Graph::add_edge`: the edge is appended; it panics on
/// an absent endpoint or once the edge count reaches `u32::MAX`.
#[verifier::external_body]
fn add_edge(g: &mut Graph<Node, ()>, a: usize, b: usize)
    requires
        a < graph_nodes(*old(g)).len(),
        b < graph_nodes(*old(g)).len(),
        graph_edges(*old(g)).len() < u32::MAX,
    ensures
        graph_nodes(*final(g)) == graph_nodes(*old(g)),
        graph_edges(*final(g)) == graph_edges(*old(g)).push((a, b)),
{
    g.add_edge(NodeIndex::new(a), NodeIndex::new(b), ());
}

/// Relies on petgraph's `Graph::node_count`: the number of nodes.
#[verifier::external_body]
fn node_count(g: &Graph<Node, ()>) -> (r: usize)
    ensures
        r == graph_nodes(*g).len(),
{
    g.node_count()
}

/// Relies on petgraph's indexing of a `Graph` by `NodeIndex`: the weight of
/// node `i`.
#[verifier::external_body]
fn weight(g: &Graph<Node, ()>, i: usize) -> (r: &Node)
    requires
        i < graph_nodes(*g).len(),
    ensures
        *r == graph_nodes(*g)[i as int],
{
    &g[NodeIndex::new(i)]
}

/// Relies on petgraph's `Graph::neighbors`: for a directed graph, the targets
/// of the edges leaving `i`, most recently added edge first.
#[verifier::external_body]
fn neighbors(g: &Graph<Node, ()>, i: usize) -> (r: Vec<usize>)
    requires
        i < graph_nodes(*g).len(),
    ensures
        r@ == out_targets(graph_edges(*g), i),
{
    g.neighbors(NodeIndex::new(i)).map(|n| n.index()).collect()
}

/// A named value: its name, the operation computing it, and the resource it
/// is placed on.
#[derive(Clone, Debug)]
pub struct Node {
    pub name: String,
    pub opcode: Opcode,
    pub loc: Loc,
}

impl Node {
    pub fn new(name: &str, opcode: Opcode, loc: Loc) -> (r: Node)
        ensures
            r.name@ == name@,
            r.opcode == opcode,
            r.loc == loc,
    {
        Node { name: name.to_owned(), opcode, loc }
    }

    pub fn new_gen_ref(name: &str) -> (r: Node)
        ensures
            r.name@ == name@,
            r.opcode == Opcode::Ref,
            r.loc == Loc::Gen,
    {
        Node::new(name, Opcode::Ref, Loc::Gen)
    }

    pub fn new_gen_add(name: &str) -> (r: Node)
        ensures
            r.name@ == name@,
            r.opcode == Opcode::Add,
            r.loc == Loc::Gen,
    {
        Node::new(name, Opcode::Add, Loc::Gen)
    }

    pub fn new_gen_mul(name: &str) -> (r: Node)
        ensures
            r.name@ == name@,
            r.opcode == Opcode::Mul,
            r.loc == Loc::Gen,
    {
        Node::new(name, Opcode::Mul, Loc::Gen)
    }

    pub fn new_dsp_mul(name: &str) -> (r: Node)
        ensures
            r.name@ == name@,
            r.opcode == Opcode::Mul,
            r.loc == Loc::Dsp,
    {
        Node::new(name, Opcode::Mul, Loc::Dsp)
    }

    pub fn opcode(&self) -> (r: &Opcode)
        ensures
            *r == self.opcode,
    {
        &self.opcode
    }

    pub fn name(&self) -> (r: &str)
        ensures
            r@ == self.name@,
    {
        self.name.as_str()
    }
}

/// Appending an edge puts its target in front of its source's out-list and
/// leaves every other out-list alone.
proof fn lemma_out_targets_push(edges: Seq<(usize, usize)>, e: (usize, usize), i: usize)
    ensures
        out_targets(edges.push(e), i) == if e.0 == i {
            seq![e.1] + out_targets(edges, i)
        } else {
            out_targets(edges, i)
        },
{
    assert(edges.push(e).drop_last() =~= edges);
}

/// A node that no edge leaves has an empty out-list.
proof fn lemma_out_targets_none(edges: Seq<(usize, usize)>, i: usize)
    requires
        forall|k: int| 0 <= k < edges.len() ==> #[trigger] edges[k].0 != i,
    ensures
        out_targets(edges, i) == Seq::<usize>::empty(),
    decreases edges.len(),
{
    if edges.len() > 0 {
        lemma_out_targets_none(edges.drop_last(), i);
    }
}

/// One three-address instruction `dst = op lhs, rhs`.
#[derive(Clone, Debug)]
pub struct Instruction {
    pub op: Opcode,
    pub dst: String,
    pub lhs: String,
    pub rhs: String,
}

impl Instruction {
    pub fn new(op: Opcode, dst: &str, lhs: &str, rhs: &str) -> (r: Instruction)
        ensures
            r.op == op,
            r.dst@ == dst@,
            r.lhs@ == lhs@,
            r.rhs@ == rhs@,
    {
        Instruction { op, dst: dst.to_owned(), lhs: lhs.to_owned(), rhs: rhs.to_owned() }
    }
}

/// Why a program does not describe a value graph.
#[derive(Clone, Debug)]
pub enum BuildError {
    /// An operand names a value that is neither defined earlier nor an input.
    Reference(String),
    /// A destination names a value that is already bound.
    Rebind(String),
}

/// `name` is one of the program's inputs.
pub open spec fn names_input(inputs: Seq<String>, name: Seq<char>) -> bool {
    exists|k: int| 0 <= k < inputs.len() && #[trigger] inputs[k]@ == name
}

/// `name` is the destination of one of the first `j` instructions.
pub open spec fn defined_before(prog: Seq<Instruction>, j: int, name: Seq<char>) -> bool {
    exists|k: int| 0 <= k < j && (#[trigger] prog[k]).dst@ == name
}

/// `name` is an operand of one of the first `j` instructions.
pub open spec fn mentioned_before(prog: Seq<Instruction>, j: int, name: Seq<char>) -> bool {
    exists|k: int| 0 <= k < j && ((#[trigger] prog[k]).lhs@ == name || prog[k].rhs@ == name)
}

/// `name` may be read by instruction `j`: it is an input or defined earlier.
pub open spec fn bound_at(inputs: Seq<String>, prog: Seq<Instruction>, j: int, name: Seq<char>) -> bool {
    names_input(inputs, name) || defined_before(prog, j, name)
}

/// Instruction `j` reads an unbound name or rebinds a bound one.
pub open spec fn faulty(inputs: Seq<String>, prog: Seq<Instruction>, j: int) -> bool {
    ||| !bound_at(inputs, prog, j, prog[j].lhs@)
    ||| !bound_at(inputs, prog, j, prog[j].rhs@)
    ||| bound_at(inputs, prog, j, prog[j].dst@)
}

/// `e` is the error that instruction `j` raises: its left operand is checked
/// first, then its right operand, then its destination.
pub open spec fn reports(inputs: Seq<String>, prog: Seq<Instruction>, j: int, e: BuildError) -> bool {
    let ins = prog[j];
    match e {
        BuildError::Reference(n) => if !bound_at(inputs, prog, j, ins.lhs@) {
            n@ == ins.lhs@
        } else {
            !bound_at(inputs, prog, j, ins.rhs@) && n@ == ins.rhs@
        },
        BuildError::Rebind(n) => {
            &&& bound_at(inputs, prog, j, ins.lhs@)
            &&& bound_at(inputs, prog, j, ins.rhs@)
            &&& bound_at(inputs, prog, j, ins.dst@)
            &&& n@ == ins.dst@
        },
    }
}

/// The first `j` instructions are free of faults.
pub open spec fn sound_upto(inputs: Seq<String>, prog: Seq<Instruction>, j: int) -> bool {
    forall|k: int| 0 <= k < j ==> !#[trigger] faulty(inputs, prog, k)
}

/// Whether `inputs` lists `name`.
fn is_input(inputs: &Vec<String>, name: &String) -> (r: bool)
    ensures
        r == names_input(inputs@, name@),
{
    let mut k: usize = 0;
    while k < inputs.len()
        invariant
            k <= inputs.len(),
            forall|m: int| 0 <= m < k ==> inputs@[m]@ != name@,
        decreases inputs.len() - k,
    {
        if inputs[k] == *name {
            return true;
        }
        k += 1;
    }
    false
}

/// A value graph: node `i` reads the nodes `lhs(i)` and `rhs(i)` unless it is
/// a `Ref` leaf. Operands always have smaller indices than their readers.
pub struct ValueGraph {
    graph: Graph<Node, ()>,
}

impl ValueGraph {
    pub closed spec fn nodes(&self) -> Seq<Node> {
        graph_nodes(self.graph)
    }

    pub closed spec fn edges(&self) -> Seq<(usize, usize)> {
        graph_edges(self.graph)
    }

    pub open spec fn len(&self) -> int {
        self.nodes().len() as int
    }

    pub open spec fn name_of(&self, i: int) -> Seq<char> {
        self.nodes()[i].name@
    }

    pub open spec fn opcode_of(&self, i: int) -> Opcode {
        self.nodes()[i].opcode
    }

    /// The operands of node `i`, right one first.
    pub open spec fn out(&self, i: int) -> Seq<usize> {
        out_targets(self.edges(), i as usize)
    }

    pub open spec fn is_leaf(&self, i: int) -> bool {
        self.opcode_of(i) is Ref
    }

    pub open spec fn lhs(&self, i: int) -> int {
        self.out(i)[1] as int
    }

    pub open spec fn rhs(&self, i: int) -> int {
        self.out(i)[0] as int
    }

    /// Node `i` is a leaf without operands, or an operation with two operands
    /// of smaller index.
    pub open spec fn shaped(&self, i: int) -> bool {
        if self.is_leaf(i) {
            self.out(i).len() == 0
        } else {
            &&& self.opcode_of(i).is_operation()
            &&& self.out(i).len() == 2
            &&& self.lhs(i) < i
            &&& self.rhs(i) < i
        }
    }

    pub open spec fn wf(&self) -> bool {
        &&& self.len() < u32::MAX
        &&& self.edges().len() < u32::MAX
        &&& forall|k: int| 0 <= k < self.edges().len() ==>
            (#[trigger] self.edges()[k]).0 < self.len() && self.edges()[k].1 < self.len()
        &&& forall|i: int| 0 <= i < self.len() ==> #[trigger] self.shaped(i)
        &&& forall|i: int, j: int| 0 <= i < self.len() && 0 <= j < self.len() && i != j
            ==> #[trigger] self.name_of(i) != #[trigger] self.name_of(j)
    }

    /// Node `i` is the value that `ins` defines.
    pub open spec fn defines(&self, i: int, ins: Instruction) -> bool {
        &&& 0 <= i < self.len()
        &&& self.name_of(i) == ins.dst@
        &&& self.opcode_of(i) == ins.op
        &&& !self.is_leaf(i)
        &&& self.name_of(self.lhs(i)) == ins.lhs@
        &&& self.name_of(self.rhs(i)) == ins.rhs@
    }

    /// Some node is the value that `ins` defines.
    pub open spec fn has_value_of(&self, ins: Instruction) -> bool {
        exists|i: int| #[trigger] self.defines(i, ins)
    }

    /// Node `i` is the value of one of the first `j` instructions, or a leaf
    /// for an input that they read.
    pub open spec fn accounted(&self, inputs: Seq<String>, prog: Seq<Instruction>, j: int, i: int) -> bool {
        ||| exists|k: int| 0 <= k < j && #[trigger] self.defines(i, prog[k])
        ||| {
            &&& self.is_leaf(i)
            &&& names_input(inputs, self.name_of(i))
            &&& mentioned_before(prog, j, self.name_of(i))
            &&& !defined_before(prog, j, self.name_of(i))
        }
    }

    /// The graph holds exactly the values of the first `j` instructions: one
    /// node per destination, and a `Ref` leaf per input that they read.
    pub open spec fn describes(&self, inputs: Seq<String>, prog: Seq<Instruction>, j: int) -> bool {
        &&& forall|k: int| 0 <= k < j ==> #[trigger] self.has_value_of(prog[k])
        &&& forall|i: int| 0 <= i < self.len() ==> #[trigger] self.accounted(inputs, prog, j, i)
        &&& forall|i: int| 0 <= i < self.len() ==> (#[trigger] self.nodes()[i]).loc == Loc::Gen
    }

    /// The index of the node named `name`, if there is one.
    pub fn find(&self, name: &String) -> (r: Option<usize>)
        requires
            self.wf(),
        ensures
            match r {
                Some(i) => i < self.len() && self.name_of(i as int) == name@,
                None => forall|i: int| 0 <= i < self.len() ==> self.name_of(i) != name@,
            },
    {
        let n = node_count(&self.graph);
        let mut i: usize = 0;
        while i < n
            invariant
                n == self.len(),
                i <= n,
                forall|k: int| 0 <= k < i ==> self.name_of(k) != name@,
            decreases n - i,
        {
            if weight(&self.graph, i).name == *name {
                return Some(i);
            }
            i += 1;
        }
        None
    }

    /// The underlying petgraph graph, edges running from readers to operands.
    pub fn graph(&self) -> (r: &Graph<Node, ()>)
        ensures
            graph_nodes(*r) == self.nodes(),
            graph_edges(*r) == self.edges(),
    {
        &self.graph
    }

    /// The number of nodes.
    pub fn node_count(&self) -> (r: usize)
        ensures
            r == self.len(),
    {
        node_count(&self.graph)
    }

    /// The node at index `i`.
    pub fn node(&self, i: usize) -> (r: &Node)
        requires
            i < self.len(),
        ensures
            *r == self.nodes()[i as int],
    {
        weight(&self.graph, i)
    }

    /// The left and right operands of operation node `i`.
    pub fn operands(&self, i: usize) -> (r: (usize, usize))
        requires
            self.wf(),
            i < self.len(),
            !self.is_leaf(i as int),
        ensures
            r.0 == self.lhs(i as int),
            r.1 == self.rhs(i as int),
            r.0 < i,
            r.1 < i,
    {
        proof {
            assert(self.shaped(i as int));
        }
        let out = neighbors(&self.graph, i);
        (out[1], out[0])
    }

    /// Node `i`'s weight and out-list are the same in `self` and `other`.
    pub open spec fn keeps(&self, other: &ValueGraph, i: int) -> bool {
        &&& self.nodes()[i] == other.nodes()[i]
        &&& self.out(i) == other.out(i)
    }

    /// `self` is `old` with nodes appended and every old node kept.
    pub open spec fn extends(&self, old: &ValueGraph) -> bool {
        &&& old.len() <= self.len()
        &&& forall|i: int| 0 <= i < old.len() ==> #[trigger] self.keeps(old, i)
    }

    /// The node that an operand named `name` reads: an existing node, or a
    /// fresh `Ref` leaf when `name` is an input seen for the first time.
    /// `None` when it is neither.
    fn operand(&mut self, inputs: &Vec<String>, name: &String) -> (r: Option<usize>)
        requires
            old(self).wf(),
            old(self).len() + 1 < u32::MAX,
        ensures
            final(self).wf(),
            final(self).extends(old(self)),
            final(self).edges() == old(self).edges(),
            match r {
                Some(i) => i < final(self).len() && final(self).name_of(i as int) == name@,
                None => !names_input(inputs@, name@)
                    && forall|k: int| 0 <= k < old(self).len() ==> old(self).name_of(k) != name@,
            },
            final(self).len() == old(self).len() || {
                &&& final(self).len() == old(self).len() + 1
                &&& names_input(inputs@, name@)
                &&& forall|k: int| 0 <= k < old(self).len() ==> old(self).name_of(k) != name@
                &&& final(self).name_of(old(self).len() as int) == name@
                &&& final(self).is_leaf(old(self).len() as int)
                &&& final(self).nodes()[old(self).len() as int].loc == Loc::Gen
            },
    {
        match self.find(name) {
            Some(i) => {
                proof {
                    assert forall|k: int| 0 <= k < self.len() implies #[trigger] self.keeps(self, k) by {}
                }
                Some(i)
            },
            None => if is_input(inputs, name) {
                Some(self.push_leaf(name))
            } else {
                proof {
                    assert forall|k: int| 0 <= k < self.len() implies #[trigger] self.keeps(self, k) by {}
                }
                None
            },
        }
    }

    /// Every node of a graph that describes the first `j` instructions has a
    /// name bound before instruction `j`, and every destination among them has
    /// a node.
    proof fn lemma_names_bound(&self, inputs: Seq<String>, prog: Seq<Instruction>, j: int)
        requires
            self.describes(inputs, prog, j),
            0 <= j <= prog.len(),
        ensures
            forall|i: int| 0 <= i < self.len() ==> bound_at(inputs, prog, j, #[trigger] self.name_of(i)),
            forall|name: Seq<char>| #[trigger] defined_before(prog, j, name) ==>
                exists|i: int| 0 <= i < self.len() && self.name_of(i) == name,
    {
        assert forall|i: int| 0 <= i < self.len() implies bound_at(inputs, prog, j, #[trigger] self.name_of(i)) by {
            assert(self.accounted(inputs, prog, j, i));
            if exists|k: int| 0 <= k < j && #[trigger] self.defines(i, prog[k]) {
                let k = choose|k: int| 0 <= k < j && #[trigger] self.defines(i, prog[k]);
                assert(prog[k].dst@ == self.name_of(i));
                assert(defined_before(prog, j, self.name_of(i)));
            }
        }
        assert forall|name: Seq<char>| #[trigger] defined_before(prog, j, name) implies
            exists|i: int| 0 <= i < self.len() && self.name_of(i) == name by {
            let k = choose|k: int| 0 <= k < j && (#[trigger] prog[k]).dst@ == name;
            assert(self.has_value_of(prog[k]));
            let i = choose|i: int| #[trigger] self.defines(i, prog[k]);
            assert(self.name_of(i) == name);
        }
    }

    /// Builds the value graph of `program`, whose operands may name earlier
    /// destinations or the values listed in `inputs`; an input becomes a
    /// `Ref` leaf when first read.
    pub fn build(inputs: &Vec<String>, program: &Vec<Instruction>) -> (r: Result<ValueGraph, BuildError>)
        requires
            forall|j: int| 0 <= j < program.len() ==> (#[trigger] program@[j]).op.is_operation(),
            3 * program.len() + 1 < u32::MAX,
        ensures
            r is Ok <==> sound_upto(inputs@, program@, program.len() as int),
            r is Err ==> exists|j: int| {
                &&& 0 <= j < program.len()
                &&& sound_upto(inputs@, program@, j)
                &&& faulty(inputs@, program@, j)
                &&& reports(inputs@, program@, j, r->Err_0)
            },
            r is Ok ==> r->Ok_0.wf() && r->Ok_0.describes(inputs@, program@, program.len() as int),
    {
        let mut g = ValueGraph { graph: empty_graph() };
        let mut k: usize = 0;
        while k < program.len()
            invariant
                forall|j: int| 0 <= j < program.len() ==> (#[trigger] program@[j]).op.is_operation(),
                3 * program.len() + 1 < u32::MAX,
                k <= program.len(),
                g.wf(),
                g.len() <= 3 * k,
                g.edges().len() == 2 * k,
                sound_upto(inputs@, program@, k as int),
                g.describes(inputs@, program@, k as int),
            decreases program.len() - k,
        {
            let ins = &program[k];
            let ghost prog = program@;
            let ghost kk = k as int;
            let ghost g0 = g;
            proof {
                g0.lemma_names_bound(inputs@, prog, kk);
            }
            let l = match g.operand(inputs, &ins.lhs) {
                Some(l) => l,
                None => {
                    proof {
                        assert(!defined_before(prog, kk, ins.lhs@));
                        assert(faulty(inputs@, prog, kk));
                    }
                    return Err(BuildError::Reference(ins.lhs.clone()));
                },
            };
            let ghost g1 = g;
            proof {
                if l < g0.len() {
                    assert(g1.keeps(&g0, l as int));
                    assert(g0.name_of(l as int) == ins.lhs@);
                }
                assert(bound_at(inputs@, prog, kk, ins.lhs@));
            }
            let r = match g.operand(inputs, &ins.rhs) {
                Some(r) => r,
                None => {
                    proof {
                        assert forall|i: int| 0 <= i < g0.len() implies g0.name_of(i) != ins.rhs@ by {
                            assert(g1.keeps(&g0, i));
                            assert(g1.name_of(i) != ins.rhs@);
                        }
                        assert(!defined_before(prog, kk, ins.rhs@));
                        assert(faulty(inputs@, prog, kk));
                    }
                    return Err(BuildError::Reference(ins.rhs.clone()));
                },
            };
            let ghost g2 = g;
            proof {
                if r < g0.len() {
                    assert(g2.keeps(&g1, r as int));
                    assert(g1.keeps(&g0, r as int));
                    assert(g0.name_of(r as int) == ins.rhs@);
                } else if r < g1.len() {
                    assert(g2.keeps(&g1, r as int));
                    assert(r == g0.len());
                    assert(g1.name_of(r as int) == ins.lhs@);
                    assert(names_input(inputs@, ins.lhs@));
                }
                assert(bound_at(inputs@, prog, kk, ins.rhs@));
            }
            let rebinds = match g.find(&ins.dst) {
                Some(_) => true,
                None => is_input(inputs, &ins.dst),
            };
            if rebinds {
                proof {
                    assert forall|i: int| 0 <= i < g2.len() implies bound_at(inputs@, prog, kk, g2.name_of(i)) by {
                        if i < g0.len() {
                            assert(g2.keeps(&g1, i));
                            assert(g1.keeps(&g0, i));
                            assert(g0.name_of(i) == g2.name_of(i));
                        } else if i < g1.len() {
                            assert(g2.keeps(&g1, i));
                            assert(i == g0.len());
                            assert(g1.name_of(i) == ins.lhs@);
                            assert(names_input(inputs@, ins.lhs@));
                        } else {
                            assert(g2.name_of(i) == ins.rhs@);
                            assert(names_input(inputs@, ins.rhs@));
                        }
                    }
                    assert(faulty(inputs@, prog, kk));
                }
                return Err(BuildError::Rebind(ins.dst.clone()));
            }
            let n = g.push_operation(Node { name: ins.dst.clone(), opcode: ins.op, loc: Loc::Gen }, l, r);
            proof {
                let g3 = g;
                assert forall|i: int| 0 <= i < g0.len() implies g0.name_of(i) != ins.dst@ by {
                    assert(g2.keeps(&g1, i));
                    assert(g1.keeps(&g0, i));
                    assert(g2.name_of(i) != ins.dst@);
                }
                assert(!bound_at(inputs@, prog, kk, ins.dst@));
                assert forall|i: int| 0 <= i < g0.len() implies #[trigger] g3.keeps(&g0, i) by {
                    assert(g3.keeps(&g2, i));
                    assert(g2.keeps(&g1, i));
                    assert(g1.keeps(&g0, i));
                }
                assert forall|i: int| 0 <= i < g1.len() implies #[trigger] g3.keeps(&g1, i) by {
                    assert(g3.keeps(&g2, i));
                    assert(g2.keeps(&g1, i));
                }
                assert(g3.keeps(&g1, l as int));
                assert(g3.keeps(&g2, r as int));
                assert(g3.name_of(l as int) == ins.lhs@);
                assert(g3.name_of(r as int) == ins.rhs@);
                assert(g3.defines(n as int, prog[kk]));
                assert forall|j: int| 0 <= j < kk + 1 implies #[trigger] g3.has_value_of(prog[j]) by {
                    if j < kk {
                        assert(g0.has_value_of(prog[j]));
                        let i = choose|i: int| #[trigger] g0.defines(i, prog[j]);
                        assert(g3.keeps(&g0, i));
                        assert(g0.shaped(i));
                        assert(g3.keeps(&g0, g0.lhs(i)));
                        assert(g3.keeps(&g0, g0.rhs(i)));
                        assert(g3.defines(i, prog[j]));
                    } else {
                        assert(g3.defines(n as int, prog[j]));
                    }
                }
                assert forall|i: int| 0 <= i < g3.len() implies #[trigger] g3.accounted(inputs@, prog, kk + 1, i) by {
                    if i < g0.len() {
                        assert(g3.keeps(&g0, i));
                        assert(g0.accounted(inputs@, prog, kk, i));
                        if exists|j: int| 0 <= j < kk && #[trigger] g0.defines(i, prog[j]) {
                            let j = choose|j: int| 0 <= j < kk && #[trigger] g0.defines(i, prog[j]);
                            assert(g0.shaped(i));
                            assert(g3.keeps(&g0, g0.lhs(i)));
                            assert(g3.keeps(&g0, g0.rhs(i)));
                            assert(g3.defines(i, prog[j]));
                        } else {
                            assert(g3.name_of(i) != ins.dst@);
                            assert(mentioned_before(prog, kk, g3.name_of(i)));
                            let j = choose|j: int| 0 <= j < kk
                                && ((#[trigger] prog[j]).lhs@ == g3.name_of(i) || prog[j].rhs@ == g3.name_of(i));
                            assert(prog[j].lhs@ == g3.name_of(i) || prog[j].rhs@ == g3.name_of(i));
                            assert(mentioned_before(prog, kk + 1, g3.name_of(i)));
                            assert(!defined_before(prog, kk + 1, g3.name_of(i)));
                        }
                    } else if i < g1.len() {
                        assert(g3.keeps(&g1, i));
                        assert(g3.name_of(i) == ins.lhs@);
                        assert(prog[kk].lhs@ == g3.name_of(i));
                        assert(!defined_before(prog, kk, ins.lhs@));
                        assert(ins.lhs@ != ins.dst@);
                        assert(!defined_before(prog, kk + 1, ins.lhs@));
                        assert(mentioned_before(prog, kk + 1, g3.name_of(i)));
                    } else if i < g2.len() {
                        assert(g3.keeps(&g2, i));
                        assert(g3.name_of(i) == ins.rhs@);
                        assert(prog[kk].rhs@ == g3.name_of(i));
                        assert forall|m: int| 0 <= m < g0.len() implies g0.name_of(m) != ins.rhs@ by {
                            assert(g1.keeps(&g0, m));
                            assert(g1.name_of(m) != ins.rhs@);
                        }
                        assert(!defined_before(prog, kk, ins.rhs@));
                        assert(ins.rhs@ != ins.dst@);
                        assert(!defined_before(prog, kk + 1, ins.rhs@));
                        assert(mentioned_before(prog, kk + 1, g3.name_of(i)));
                    } else {
                        assert(g3.defines(i, prog[kk]));
                    }
                }
                assert forall|i: int| 0 <= i < g3.len() implies (#[trigger] g3.nodes()[i]).loc == Loc::Gen by {
                    if i < g0.len() {
                        assert(g3.keeps(&g0, i));
                    } else if i < g1.len() {
                        assert(g3.keeps(&g1, i));
                    } else if i < g2.len() {
                        assert(g3.keeps(&g2, i));
                    }
                }
                assert forall|j: int| 0 <= j < kk + 1 implies !#[trigger] faulty(inputs@, prog, j) by {
                    if j < kk {
                        assert(!faulty(inputs@, prog, j));
                    }
                }
            }
            k += 1;
        }
        Ok(g)
    }

    /// Appends a fresh `Ref` leaf named `name`.
    fn push_leaf(&mut self, name: &String) -> (i: usize)
        requires
            old(self).wf(),
            old(self).len() + 1 < u32::MAX,
            forall|k: int| 0 <= k < old(self).len() ==> old(self).name_of(k) != name@,
        ensures
            final(self).wf(),
            final(self).extends(old(self)),
            final(self).len() == old(self).len() + 1,
            final(self).edges() == old(self).edges(),
            i == old(self).len(),
            final(self).name_of(i as int) == name@,
            final(self).is_leaf(i as int),
            final(self).nodes()[i as int].loc == Loc::Gen,
    {
        let ghost pre = *self;
        let i = add_node(&mut self.graph, Node { name: name.clone(), opcode: Opcode::Ref, loc: Loc::Gen });
        proof {
            lemma_out_targets_none(self.edges(), i);
            assert forall|k: int| 0 <= k < self.edges().len() implies
                (#[trigger] self.edges()[k]).0 < self.len() && self.edges()[k].1 < self.len() by {
                assert(self.edges()[k] == pre.edges()[k]);
            }
            assert forall|k: int| 0 <= k < pre.len() implies #[trigger] self.keeps(&pre, k) by {
                assert(self.nodes()[k] == pre.nodes()[k]);
            }
            assert forall|k: int| 0 <= k < self.len() implies #[trigger] self.shaped(k) by {
                if k < pre.len() {
                    assert(self.keeps(&pre, k));
                    assert(pre.shaped(k));
                }
            }
            assert forall|a: int, b: int| 0 <= a < self.len() && 0 <= b < self.len() && a != b
                implies #[trigger] self.name_of(a) != #[trigger] self.name_of(b) by {
                if a < pre.len() {
                    assert(self.keeps(&pre, a));
                    assert(pre.name_of(a) == self.name_of(a));
                }
                if b < pre.len() {
                    assert(self.keeps(&pre, b));
                    assert(pre.name_of(b) == self.name_of(b));
                }
            }
        }
        i
    }

    /// Appends a node computing `w.opcode` from nodes `l` and `r`.
    fn push_operation(&mut self, w: Node, l: usize, r: usize) -> (i: usize)
        requires
            old(self).wf(),
            old(self).len() + 1 < u32::MAX,
            old(self).edges().len() + 2 < u32::MAX,
            w.opcode.is_operation(),
            l < old(self).len(),
            r < old(self).len(),
            forall|k: int| 0 <= k < old(self).len() ==> old(self).name_of(k) != w.name@,
        ensures
            final(self).wf(),
            final(self).extends(old(self)),
            final(self).len() == old(self).len() + 1,
            final(self).edges().len() == old(self).edges().len() + 2,
            i == old(self).len(),
            final(self).nodes()[i as int] == w,
            final(self).lhs(i as int) == l,
            final(self).rhs(i as int) == r,
    {
        let ghost pre = *self;
        let i = add_node(&mut self.graph, w);
        let ghost mid = *self;
        add_edge(&mut self.graph, i, l);
        let ghost mid2 = *self;
        add_edge(&mut self.graph, i, r);
        proof {
            lemma_out_targets_none(mid.edges(), i);
            lemma_out_targets_push(mid.edges(), (i, l), i);
            lemma_out_targets_push(mid2.edges(), (i, r), i);
            assert(self.out(i as int) =~= seq![r, l]);
            assert forall|k: int| 0 <= k < pre.len() implies #[trigger] self.keeps(&pre, k) by {
                lemma_out_targets_push(mid.edges(), (i, l), k as usize);
                lemma_out_targets_push(mid2.edges(), (i, r), k as usize);
                assert(self.nodes()[k] == pre.nodes()[k]);
            }
            assert forall|k: int| 0 <= k < self.len() implies #[trigger] self.shaped(k) by {
                if k < pre.len() {
                    assert(self.keeps(&pre, k));
                    assert(pre.shaped(k));
                }
            }
            assert forall|k: int| 0 <= k < self.edges().len() implies
                (#[trigger] self.edges()[k]).0 < self.len() && self.edges()[k].1 < self.len() by {
                if k < pre.edges().len() {
                    assert(self.edges()[k] == pre.edges()[k]);
                }
            }
            assert forall|a: int, b: int| 0 <= a < self.len() && 0 <= b < self.len() && a != b
                implies #[trigger] self.name_of(a) != #[trigger] self.name_of(b) by {
                if a < pre.len() {
                    assert(self.keeps(&pre, a));
                    assert(pre.name_of(a) == self.name_of(a));
                }
                if b < pre.len() {
                    assert(self.keeps(&pre, b));
                    assert(pre.name_of(b) == self.name_of(b));
                }
            }
        }
        i
    }
}

} // verus!
