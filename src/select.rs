//! The tiling engine: bottom-up, minimum-cost choice of a tile for every
//! node reachable from a root, each node costed once.
use vstd::prelude::*;
use crate::graph::ValueGraph;
use crate::opcode::Loc;
use crate::pattern::{matches_at, Pattern, Tile};

verus! {

/// The tile chosen for a node, the resource it runs on and the node's total
/// cost.
#[derive(Clone, Copy, Debug, PartialEq, Eq, Structural)]
pub struct Choice {
    pub tile: usize,
    pub loc: Loc,
    pub cost: u128,
}

/// Why selection failed.
#[derive(Clone, Debug)]
pub enum SelectError {
    /// No tile of the catalog matches the named node.
    NoCover(String),
    /// The named node's cheapest cover costs more than a `u128` holds.
    CostOverflow(String),
}

/// A memo entry seen as (tile index, total cost).
pub open spec fn entry_view(e: Option<Choice>) -> Option<(nat, nat)> {
    match e {
        Some(c) => Some((c.tile as nat, c.cost as nat)),
        None => None,
    }
}

pub open spec fn memo_view(m: Seq<Option<Choice>>) -> Seq<Option<(nat, nat)>> {
    m.map_values(|e: Option<Choice>| entry_view(e))
}

/// The memoized total cost of node `j`, if it has one.
pub open spec fn memo_cost(memo: Seq<Option<(nat, nat)>>, j: int) -> Option<nat> {
    match memo[j] {
        Some(e) => Some(e.1),
        None => None,
    }
}

/// What covering node `i` with pattern `p` adds to the tile's own cost: the
/// memoized cost of every operand at which the pattern stops.
pub open spec fn charge(g: ValueGraph, p: Pattern, i: int, memo: Seq<Option<(nat, nat)>>) -> Option<nat>
    decreases p,
{
    if g.is_leaf(i) {
        Some(0)
    } else {
        let l = match p.left {
            Some(q) => charge(g, *q, g.lhs(i), memo),
            None => memo_cost(memo, g.lhs(i)),
        };
        let r = match p.right {
            Some(q) => charge(g, *q, g.rhs(i), memo),
            None => memo_cost(memo, g.rhs(i)),
        };
        match (l, r) {
            (Some(a), Some(b)) => Some((a + b) as nat),
            _ => None,
        }
    }
}

/// The total cost of covering node `i` with tile `t`, if `t` matches there.
pub open spec fn tile_total(g: ValueGraph, t: Tile, i: int, memo: Seq<Option<(nat, nat)>>) -> Option<nat> {
    if matches_at(g, t.pattern, i) {
        match charge(g, t.pattern, i, memo) {
            Some(c) => Some((t.cost + c) as nat),
            None => None,
        }
    } else {
        None
    }
}

/// The cheapest of the first `k` tiles at node `i`, as (tile index, total
/// cost); on a tie the earlier tile wins.
pub open spec fn best_among(g: ValueGraph, cat: Seq<Tile>, i: int, memo: Seq<Option<(nat, nat)>>, k: int) -> Option<(nat, nat)>
    decreases k,
{
    if k <= 0 {
        None
    } else {
        let prev = best_among(g, cat, i, memo, k - 1);
        match tile_total(g, cat[k - 1], i, memo) {
            Some(c) => match prev {
                Some(b) => if c < b.1 {
                    Some(((k - 1) as nat, c))
                } else {
                    prev
                },
                None => Some(((k - 1) as nat, c)),
            },
            None => prev,
        }
    }
}

/// The cheapest cover of each of the first `n` nodes, each costed from the
/// covers of the nodes before it.
pub open spec fn table(g: ValueGraph, cat: Seq<Tile>, n: nat) -> Seq<Option<(nat, nat)>>
    decreases n,
{
    if n == 0 {
        Seq::empty()
    } else {
        let t = table(g, cat, (n - 1) as nat);
        t.push(best_among(g, cat, n - 1, t, cat.len() as int))
    }
}

/// The cheapest cover of node `i`.
pub open spec fn best_cover(g: ValueGraph, cat: Seq<Tile>, i: int) -> Option<(nat, nat)> {
    table(g, cat, g.len() as nat)[i]
}

/// Node `b` is `a` or lies below it through operand edges.
pub open spec fn reaches(g: ValueGraph, a: int, b: int) -> bool
    decreases a,
{
    ||| a == b
    ||| {
        &&& !g.is_leaf(a)
        &&& 0 <= g.lhs(a) < a
        &&& 0 <= g.rhs(a) < a
        &&& (reaches(g, g.lhs(a), b) || reaches(g, g.rhs(a), b))
    }
}

/// A cover exists and its cost fits in a `u128`.
pub open spec fn fits(e: Option<(nat, nat)>) -> bool {
    match e {
        Some(c) => c.1 <= u128::MAX,
        None => false,
    }
}

/// Every node reachable from `root` has a cover whose cost fits.
pub open spec fn selectable(g: ValueGraph, cat: Seq<Tile>, root: int) -> bool {
    forall|i: int| 0 <= i < g.len() && reaches(g, root, i) ==> fits(#[trigger] best_cover(g, cat, i))
}

/// Node `i` is the first node reachable from `root` without a fitting cover.
pub open spec fn first_unfit(g: ValueGraph, cat: Seq<Tile>, root: int, i: int) -> bool {
    &&& 0 <= i < g.len()
    &&& reaches(g, root, i)
    &&& !fits(best_cover(g, cat, i))
    &&& forall|j: int| 0 <= j < i && reaches(g, root, j) ==> fits(#[trigger] best_cover(g, cat, j))
}

/// What selection from `root` records for node `i`.
pub open spec fn outcome(g: ValueGraph, cat: Seq<Tile>, root: int, i: int) -> Option<(nat, nat)> {
    if reaches(g, root, i) {
        best_cover(g, cat, i)
    } else {
        None
    }
}

/// Reaching only goes to smaller indices.
proof fn lemma_reaches_below(g: ValueGraph, a: int, b: int)
    requires
        reaches(g, a, b),
    ensures
        b <= a,
    decreases a,
{
    if a != b {
        if reaches(g, g.lhs(a), b) {
            lemma_reaches_below(g, g.lhs(a), b);
        } else {
            lemma_reaches_below(g, g.rhs(a), b);
        }
    }
}

/// Reaching is transitive.
proof fn lemma_reaches_trans(g: ValueGraph, a: int, b: int, c: int)
    requires
        reaches(g, a, b),
        reaches(g, b, c),
    ensures
        reaches(g, a, c),
    decreases a,
{
    if a != b {
        if reaches(g, g.lhs(a), b) {
            lemma_reaches_trans(g, g.lhs(a), b, c);
        } else {
            lemma_reaches_trans(g, g.rhs(a), b, c);
        }
    }
}

/// An operation node reaches both of its operands.
proof fn lemma_reaches_operands(g: ValueGraph, a: int)
    requires
        g.wf(),
        0 <= a < g.len(),
        !g.is_leaf(a),
    ensures
        reaches(g, a, g.lhs(a)),
        reaches(g, a, g.rhs(a)),
        g.lhs(a) < a,
        g.rhs(a) < a,
{
    assert(g.shaped(a));
    assert(reaches(g, g.lhs(a), g.lhs(a)));
    assert(reaches(g, g.rhs(a), g.rhs(a)));
}

/// A node reached from `a` other than `a` is an operand of a node reached
/// from `a`.
proof fn lemma_reaches_last_step(g: ValueGraph, a: int, b: int)
    requires
        g.wf(),
        0 <= a < g.len(),
        reaches(g, a, b),
        a != b,
    ensures
        exists|q: int| 0 <= q < g.len() && reaches(g, a, q) && !g.is_leaf(q)
            && (g.lhs(q) == b || g.rhs(q) == b),
    decreases a,
{
    lemma_reaches_operands(g, a);
    let l = g.lhs(a);
    let r = g.rhs(a);
    if l == b || r == b {
        assert(reaches(g, a, a));
    } else if reaches(g, l, b) {
        lemma_reaches_last_step(g, l, b);
        let q = choose|q: int| 0 <= q < g.len() && reaches(g, l, q) && !g.is_leaf(q)
            && (g.lhs(q) == b || g.rhs(q) == b);
        lemma_reaches_trans(g, a, l, q);
    } else {
        lemma_reaches_last_step(g, r, b);
        let q = choose|q: int| 0 <= q < g.len() && reaches(g, r, q) && !g.is_leaf(q)
            && (g.lhs(q) == b || g.rhs(q) == b);
        lemma_reaches_trans(g, a, r, q);
    }
}

/// Two memos agree on the nodes below `i` that `i` reaches.
pub open spec fn agree_below(g: ValueGraph, i: int, m1: Seq<Option<(nat, nat)>>, m2: Seq<Option<(nat, nat)>>) -> bool {
    forall|j: int| 0 <= j < i && #[trigger] reaches(g, i, j) ==> m1[j] == m2[j]
}

/// The charge at `i` reads only the memo entries of nodes below `i`.
proof fn lemma_charge_local(g: ValueGraph, p: Pattern, i: int, m1: Seq<Option<(nat, nat)>>, m2: Seq<Option<(nat, nat)>>)
    requires
        g.wf(),
        0 <= i < g.len(),
        agree_below(g, i, m1, m2),
    ensures
        charge(g, p, i, m1) == charge(g, p, i, m2),
    decreases p,
{
    if !g.is_leaf(i) {
        lemma_reaches_operands(g, i);
        let l = g.lhs(i);
        let r = g.rhs(i);
        assert forall|j: int| 0 <= j < l && #[trigger] reaches(g, l, j) implies m1[j] == m2[j] by {
            lemma_reaches_trans(g, i, l, j);
        }
        assert forall|j: int| 0 <= j < r && #[trigger] reaches(g, r, j) implies m1[j] == m2[j] by {
            lemma_reaches_trans(g, i, r, j);
        }
        match p.left {
            Some(q) => lemma_charge_local(g, *q, l, m1, m2),
            None => {},
        }
        match p.right {
            Some(q) => lemma_charge_local(g, *q, r, m1, m2),
            None => {},
        }
    }
}

/// The best tile at `i` depends only on the memo entries below `i`.
proof fn lemma_best_local(g: ValueGraph, cat: Seq<Tile>, i: int, m1: Seq<Option<(nat, nat)>>, m2: Seq<Option<(nat, nat)>>, k: int)
    requires
        g.wf(),
        0 <= i < g.len(),
        k <= cat.len(),
        agree_below(g, i, m1, m2),
    ensures
        best_among(g, cat, i, m1, k) == best_among(g, cat, i, m2, k),
    decreases k,
{
    if k > 0 {
        lemma_best_local(g, cat, i, m1, m2, k - 1);
        lemma_charge_local(g, cat[k - 1].pattern, i, m1, m2);
    }
}

/// Each entry of the table is the best tile given the entries before it.
proof fn lemma_table(g: ValueGraph, cat: Seq<Tile>, n: nat)
    ensures
        table(g, cat, n).len() == n,
        forall|j: int| 0 <= j < n ==> #[trigger] table(g, cat, n)[j]
            == best_among(g, cat, j, table(g, cat, j as nat), cat.len() as int),
    decreases n,
{
    if n > 0 {
        lemma_table(g, cat, (n - 1) as nat);
    }
}

/// A longer table extends a shorter one.
proof fn lemma_table_prefix(g: ValueGraph, cat: Seq<Tile>, n: nat, m: nat)
    requires
        m <= n,
    ensures
        forall|j: int| 0 <= j < m ==> #[trigger] table(g, cat, n)[j] == table(g, cat, m)[j],
    decreases n,
{
    lemma_table(g, cat, n);
    lemma_table(g, cat, m);
    if m < n {
        lemma_table_prefix(g, cat, (n - 1) as nat, m);
        lemma_table(g, cat, (n - 1) as nat);
    }
}

/// The charge of pattern `p` at node `i`: `None` when a memo entry it needs
/// is missing, `Some(None)` when the sum exceeds a `u128`.
fn charge_of(g: &ValueGraph, p: &Pattern, i: usize, memo: &Vec<Option<Choice>>) -> (r: Option<Option<u128>>)
    requires
        g.wf(),
        i < g.len(),
        memo.len() == g.len(),
    ensures
        match charge(*g, *p, i as int, memo_view(memo@)) {
            Some(c) => r == Some(if c <= u128::MAX { Some(c as u128) } else { None::<u128> }),
            None => r is None,
        },
    decreases p,
{
    if g.node(i).opcode.is_ref() {
        return Some(Some(0));
    }
    let (l, r) = g.operands(i);
    let lc = match &p.left {
        Some(q) => charge_of(g, q, l, memo),
        None => match memo[l] {
            Some(c) => Some(Some(c.cost)),
            None => None,
        },
    };
    let rc = match &p.right {
        Some(q) => charge_of(g, q, r, memo),
        None => match memo[r] {
            Some(c) => Some(Some(c.cost)),
            None => None,
        },
    };
    match (lc, rc) {
        (Some(Some(a)), Some(Some(b))) => Some(a.checked_add(b)),
        (Some(_), Some(_)) => Some(None),
        _ => None,
    }
}

/// An exec (tile, cost) pair seen as naturals.
pub open spec fn lift(o: Option<(usize, u128)>) -> Option<(nat, nat)> {
    match o {
        Some(b) => Some((b.0 as nat, b.1 as nat)),
        None => None,
    }
}

/// The cover itself when its cost fits in a `u128`.
pub open spec fn fitting(e: Option<(nat, nat)>) -> Option<(nat, nat)> {
    if fits(e) {
        e
    } else {
        None
    }
}

/// The cheapest tile at node `i` whose cost fits, and whether any tile
/// matches there at all.
fn best_tile(g: &ValueGraph, cat: &Vec<Tile>, i: usize, memo: &Vec<Option<Choice>>) -> (r: (Option<(usize, u128)>, bool))
    requires
        g.wf(),
        i < g.len(),
        memo.len() == g.len(),
    ensures
        lift(r.0) == fitting(best_among(*g, cat@, i as int, memo_view(memo@), cat.len() as int)),
        r.1 == best_among(*g, cat@, i as int, memo_view(memo@), cat.len() as int) is Some,
        match r.0 {
            Some(b) => b.0 < cat.len(),
            None => true,
        },
{
    let ghost m = memo_view(memo@);
    let mut best: Option<(usize, u128)> = None;
    let mut found = false;
    let mut k: usize = 0;
    while k < cat.len()
        invariant
            g.wf(),
            i < g.len(),
            memo.len() == g.len(),
            m == memo_view(memo@),
            k <= cat.len(),
            lift(best) == fitting(best_among(*g, cat@, i as int, m, k as int)),
            found == best_among(*g, cat@, i as int, m, k as int) is Some,
            match best {
                Some(b) => b.0 < k,
                None => true,
            },
        decreases cat.len() - k,
    {
        let t = &cat[k];
        let total: Option<Option<u128>> = if t.pattern.matches(g, i) {
            match charge_of(g, &t.pattern, i, memo) {
                Some(Some(c)) => Some(t.cost.checked_add(c)),
                Some(None) => Some(None),
                None => None,
            }
        } else {
            None
        };
        proof {
            assert(cat@[k as int] == *t);
        }
        match total {
            Some(Some(c)) => {
                let better = match best {
                    Some(b) => c < b.1,
                    None => true,
                };
                if better {
                    best = Some((k, c));
                }
            },
            _ => {},
        }
        if total.is_some() {
            found = true;
        }
        k += 1;
    }
    (best, found)
}

/// `c` holds, for every node, what selection from `root` records: the
/// cheapest cover of each reached node with its tile's resource, and nothing
/// for the other nodes.
pub open spec fn records(g: ValueGraph, cat: Seq<Tile>, root: int, c: Seq<Option<Choice>>) -> bool {
    &&& c.len() == g.len()
    &&& forall|i: int| 0 <= i < g.len() ==> #[trigger] entry_view(c[i]) == outcome(g, cat, root, i)
    &&& forall|i: int| 0 <= i < g.len() && (#[trigger] c[i]) is Some ==> {
        let e = c[i]->Some_0;
        e.tile < cat.len() && e.loc == cat[e.tile as int].loc
    }
}

/// `e` names node `i` and says why it has no fitting cover.
pub open spec fn blames(g: ValueGraph, cat: Seq<Tile>, i: int, e: SelectError) -> bool {
    match e {
        SelectError::NoCover(name) => best_cover(g, cat, i) is None && name@ == g.name_of(i),
        SelectError::CostOverflow(name) => best_cover(g, cat, i) is Some && name@ == g.name_of(i),
    }
}

/// The choices made for a graph: entry `i` belongs to node `i`.
pub struct Selection {
    pub choices: Vec<Option<Choice>>,
}

impl Selection {
    /// The choice recorded for node `i`.
    pub fn choice(&self, i: usize) -> (r: Option<Choice>)
        requires
            i < self.choices.len(),
        ensures
            r == self.choices@[i as int],
    {
        self.choices[i]
    }
}

/// The nodes that `root` reaches, as one flag per node.
fn reached_from(g: &ValueGraph, root: usize) -> (marks: Vec<bool>)
    requires
        g.wf(),
        root < g.len(),
    ensures
        marks.len() == g.len(),
        forall|j: int| 0 <= j < g.len() ==> #[trigger] marks@[j] == reaches(*g, root as int, j),
{
    let n = g.node_count();
    let mut marks: Vec<bool> = Vec::new();
    let mut k: usize = 0;
    while k < n
        invariant
            k <= n,
            n == g.len(),
            marks.len() == k,
            forall|j: int| 0 <= j < k ==> !#[trigger] marks@[j],
        decreases n - k,
    {
        marks.push(false);
        k += 1;
    }
    marks.set(root, true);
    proof {
        assert(reaches(*g, root as int, root as int));
        assert forall|j: int| root < j < n implies !reaches(*g, root as int, j) by {
            if reaches(*g, root as int, j) {
                lemma_reaches_below(*g, root as int, j);
            }
        }
    }
    let mut p: usize = root + 1;
    while p > 0
        invariant
            g.wf(),
            root < n,
            n == g.len(),
            p <= root + 1,
            marks.len() == n,
            marks@[root as int],
            forall|j: int| 0 <= j < n && #[trigger] marks@[j] ==> reaches(*g, root as int, j),
            forall|j: int| p <= j < n ==> #[trigger] marks@[j] == reaches(*g, root as int, j),
            forall|q: int| p <= q < n && #[trigger] marks@[q] && !g.is_leaf(q)
                ==> marks@[g.lhs(q)] && marks@[g.rhs(q)],
        decreases p,
    {
        p -= 1;
        let ghost before = marks@;
        proof {
            if reaches(*g, root as int, p as int) && p != root {
                lemma_reaches_last_step(*g, root as int, p as int);
                let q = choose|q: int| 0 <= q < g.len() && reaches(*g, root as int, q) && !g.is_leaf(q)
                    && (g.lhs(q) == p || g.rhs(q) == p);
                lemma_reaches_operands(*g, q);
                lemma_reaches_below(*g, root as int, q);
                assert(marks@[q]);
            }
        }
        if marks[p] && !g.node(p).opcode.is_ref() {
            let (l, r) = g.operands(p);
            proof {
                lemma_reaches_operands(*g, p as int);
                lemma_reaches_trans(*g, root as int, p as int, l as int);
                lemma_reaches_trans(*g, root as int, p as int, r as int);
            }
            marks.set(l, true);
            marks.set(r, true);
            proof {
                assert forall|q: int| p <= q < n && #[trigger] marks@[q] && !g.is_leaf(q)
                    implies marks@[g.lhs(q)] && marks@[g.rhs(q)] by {
                    assert(g.shaped(q));
                    if q > p {
                        assert(before[q]);
                        assert(before[g.lhs(q)] && before[g.rhs(q)]);
                    }
                }
            }
        }
    }
    marks
}

/// Chooses, for every node that `root` reaches, the cheapest tile of
/// `catalog` covering it, each operand costed once and reused by all its
/// readers. On a tie the earlier tile of the catalog wins. Nodes that `root`
/// does not reach get no choice.
pub fn select(g: &ValueGraph, root: usize, catalog: &Vec<Tile>) -> (r: Result<Selection, SelectError>)
    requires
        g.wf(),
        root < g.len(),
    ensures
        r is Ok <==> selectable(*g, catalog@, root as int),
        r is Ok ==> records(*g, catalog@, root as int, r->Ok_0.choices@),
        r is Err ==> exists|i: int| #[trigger] first_unfit(*g, catalog@, root as int, i)
            && blames(*g, catalog@, i, r->Err_0),
{
    let ghost cat = catalog@;
    let ghost n = g.len() as nat;
    let marks = reached_from(g, root);
    let mut memo: Vec<Option<Choice>> = Vec::new();
    let mut k: usize = 0;
    while k < g.node_count()
        invariant
            k <= g.len(),
            memo.len() == k,
            forall|j: int| 0 <= j < k ==> #[trigger] memo@[j] is None,
        decreases g.len() - k,
    {
        memo.push(None);
        k += 1;
    }
    proof {
        lemma_table(*g, cat, n);
    }
    let mut i: usize = 0;
    while i < g.node_count()
        invariant
            g.wf(),
            root < g.len(),
            n == g.len(),
            cat == catalog@,
            i <= g.len(),
            marks.len() == g.len(),
            memo.len() == g.len(),
            forall|j: int| 0 <= j < g.len() ==> #[trigger] marks@[j] == reaches(*g, root as int, j),
            forall|j: int| 0 <= j < i ==> #[trigger] entry_view(memo@[j]) == outcome(*g, cat, root as int, j),
            forall|j: int| 0 <= j < i && reaches(*g, root as int, j) ==> fits(#[trigger] best_cover(*g, cat, j)),
            forall|j: int| i <= j < g.len() ==> #[trigger] memo@[j] is None,
            forall|j: int| 0 <= j < g.len() && (#[trigger] memo@[j]) is Some ==> {
                let e = memo@[j]->Some_0;
                e.tile < catalog.len() && e.loc == catalog@[e.tile as int].loc
            },
        decreases g.len() - i,
    {
        if marks[i] {
            let (best, any) = best_tile(g, catalog, i, &memo);
            proof {
                let m = memo_view(memo@);
                let ti = table(*g, cat, i as nat);
                lemma_table_prefix(*g, cat, n, i as nat);
                lemma_table(*g, cat, n);
                lemma_table(*g, cat, i as nat);
                assert forall|j: int| 0 <= j < i && #[trigger] reaches(*g, i as int, j) implies m[j] == ti[j] by {
                    lemma_reaches_trans(*g, root as int, i as int, j);
                    assert(entry_view(memo@[j]) == outcome(*g, cat, root as int, j));
                }
                lemma_best_local(*g, cat, i as int, m, ti, cat.len() as int);
                assert(best_cover(*g, cat, i as int) == best_among(*g, cat, i as int, ti, cat.len() as int));
            }
            match best {
                Some(b) => {
                    let ghost old_memo = memo@;
                    memo.set(i, Some(Choice { tile: b.0, loc: catalog[b.0].loc, cost: b.1 }));
                    proof {
                        assert forall|j: int| 0 <= j < g.len() && (#[trigger] memo@[j]) is Some implies {
                            let e = memo@[j]->Some_0;
                            e.tile < catalog.len() && e.loc == catalog@[e.tile as int].loc
                        } by {
                            if j != i {
                                assert(memo@[j] == old_memo[j]);
                            }
                        }
                    }
                },
                None => {
                    let name = g.node(i).name.clone();
                    proof {
                        assert(first_unfit(*g, cat, root as int, i as int));
                    }
                    if any {
                        return Err(SelectError::CostOverflow(name));
                    } else {
                        return Err(SelectError::NoCover(name));
                    }
                },
            }
        }
        i += 1;
    }
    Ok(Selection { choices: memo })
}

/// Selection is deterministic: two outcomes that both meet the contract of
/// `select` for the same graph, root and catalog are the same outcome.
pub proof fn lemma_select_deterministic(
    g: ValueGraph,
    cat: Seq<Tile>,
    root: int,
    r1: Result<Selection, SelectError>,
    r2: Result<Selection, SelectError>,
)
    requires
        r1 is Ok <==> selectable(g, cat, root),
        r1 is Ok ==> records(g, cat, root, r1->Ok_0.choices@),
        r1 is Err ==> exists|i: int| #[trigger] first_unfit(g, cat, root, i) && blames(g, cat, i, r1->Err_0),
        r2 is Ok <==> selectable(g, cat, root),
        r2 is Ok ==> records(g, cat, root, r2->Ok_0.choices@),
        r2 is Err ==> exists|i: int| #[trigger] first_unfit(g, cat, root, i) && blames(g, cat, i, r2->Err_0),
    ensures
        r1 is Ok <==> r2 is Ok,
        r1 is Ok ==> r1->Ok_0.choices@ == r2->Ok_0.choices@,
        r1 is Err ==> match (r1->Err_0, r2->Err_0) {
            (SelectError::NoCover(a), SelectError::NoCover(b)) => a@ == b@,
            (SelectError::CostOverflow(a), SelectError::CostOverflow(b)) => a@ == b@,
            _ => false,
        },
{
    if r1 is Ok {
        let c1 = r1->Ok_0.choices@;
        let c2 = r2->Ok_0.choices@;
        assert forall|i: int| 0 <= i < c1.len() implies c1[i] == c2[i] by {
            assert(entry_view(c1[i]) == outcome(g, cat, root, i));
            assert(entry_view(c2[i]) == outcome(g, cat, root, i));
            if c1[i] is Some {
                assert(c2[i] is Some);
            }
        }
        assert(c1 =~= c2);
    } else {
        let i = choose|i: int| #[trigger] first_unfit(g, cat, root, i) && blames(g, cat, i, r1->Err_0);
        let j = choose|j: int| #[trigger] first_unfit(g, cat, root, j) && blames(g, cat, j, r2->Err_0);
        assert(i == j) by {
            if i < j {
                assert(fits(best_cover(g, cat, i)));
            } else if j < i {
                assert(fits(best_cover(g, cat, j)));
            }
        }
    }
}

/// The cheapest of the first `k` tiles is one of them, and its total is its
/// own cost plus a charge, hence at least its own cost.
proof fn lemma_best_is_candidate(g: ValueGraph, cat: Seq<Tile>, i: int, m: Seq<Option<(nat, nat)>>, k: int)
    requires
        k <= cat.len(),
    ensures
        match best_among(g, cat, i, m, k) {
            Some(b) => b.0 < k && tile_total(g, cat[b.0 as int], i, m) == Some(b.1)
                && b.1 >= cat[b.0 as int].cost,
            None => forall|t: int| 0 <= t < k ==> (#[trigger] tile_total(g, cat[t], i, m)) is None,
        },
    decreases k,
{
    if k > 0 {
        lemma_best_is_candidate(g, cat, i, m, k - 1);
    }
}

/// The chosen tile is cheapest: no tile is cheaper, and no earlier tile is as
/// cheap.
pub proof fn lemma_best_is_minimal(g: ValueGraph, cat: Seq<Tile>, i: int, m: Seq<Option<(nat, nat)>>, k: int)
    requires
        k <= cat.len(),
    ensures
        best_among(g, cat, i, m, k) matches Some(b) ==> forall|t: int| 0 <= t < k
            && (#[trigger] tile_total(g, cat[t], i, m)) is Some ==> {
                let c = tile_total(g, cat[t], i, m)->Some_0;
                &&& b.1 <= c
                &&& t < b.0 ==> b.1 < c
            },
    decreases k,
{
    if k > 0 {
        lemma_best_is_minimal(g, cat, i, m, k - 1);
        lemma_best_is_candidate(g, cat, i, m, k - 1);
    }
}

/// The total cost recorded for a node is at least the intrinsic cost of the
/// tile chosen for it.
pub proof fn lemma_cost_at_least_tile(g: ValueGraph, cat: Seq<Tile>, root: int, c: Seq<Option<Choice>>, i: int)
    requires
        records(g, cat, root, c),
        0 <= i < g.len(),
    ensures
        c[i] matches Some(e) ==> e.cost >= cat[e.tile as int].cost,
{
    lemma_table(g, cat, g.len() as nat);
    lemma_best_is_candidate(g, cat, i, table(g, cat, i as nat), cat.len() as int);
    assert(entry_view(c[i]) == outcome(g, cat, root, i));
}

/// A node reached from several roots, for instance from each of its
/// readers, gets the same choice whichever root selection starts from: the
/// same tile, resource and cost, which depend on the nodes below it alone.
pub proof fn lemma_sharing_consistent(
    g: ValueGraph,
    cat: Seq<Tile>,
    r1: int,
    c1: Seq<Option<Choice>>,
    r2: int,
    c2: Seq<Option<Choice>>,
    n: int,
)
    requires
        records(g, cat, r1, c1),
        records(g, cat, r2, c2),
        0 <= n < g.len(),
        reaches(g, r1, n),
        reaches(g, r2, n),
    ensures
        c1[n] == c2[n],
        entry_view(c1[n]) == best_cover(g, cat, n),
{
    assert(entry_view(c1[n]) == outcome(g, cat, r1, n));
    assert(entry_view(c2[n]) == outcome(g, cat, r2, n));
    if c1[n] is Some {
        assert(c2[n] is Some);
    }
}

/// The charge of a pattern at `i` is known once every node below `i` that
/// `i` reaches has a memo entry.
proof fn lemma_charge_some(g: ValueGraph, p: Pattern, i: int, m: Seq<Option<(nat, nat)>>)
    requires
        g.wf(),
        0 <= i < g.len(),
        forall|j: int| 0 <= j < i && #[trigger] reaches(g, i, j) ==> m[j] is Some,
    ensures
        charge(g, p, i, m) is Some,
    decreases p,
{
    if !g.is_leaf(i) {
        lemma_reaches_operands(g, i);
        let l = g.lhs(i);
        let r = g.rhs(i);
        assert forall|j: int| 0 <= j < l && #[trigger] reaches(g, l, j) implies m[j] is Some by {
            lemma_reaches_trans(g, i, l, j);
        }
        assert forall|j: int| 0 <= j < r && #[trigger] reaches(g, r, j) implies m[j] is Some by {
            lemma_reaches_trans(g, i, r, j);
        }
        match p.left {
            Some(q) => lemma_charge_some(g, *q, l, m),
            None => {},
        }
        match p.right {
            Some(q) => lemma_charge_some(g, *q, r, m),
            None => {},
        }
    }
}

/// Every tile matching a node reached from `root` whose reached nodes below
/// are covered yields a candidate there.
proof fn lemma_covered_upto(g: ValueGraph, cat: Seq<Tile>, root: int, i: int)
    requires
        g.wf(),
        0 <= root < g.len(),
        0 <= i <= g.len(),
        forall|j: int| 0 <= j < g.len() && #[trigger] reaches(g, root, j) ==>
            exists|t: int| 0 <= t < cat.len() && matches_at(g, #[trigger] cat[t].pattern, j),
    ensures
        forall|j: int| 0 <= j < i && #[trigger] reaches(g, root, j) ==> best_cover(g, cat, j) is Some,
    decreases i,
{
    if i > 0 {
        lemma_covered_upto(g, cat, root, i - 1);
        let k = i - 1;
        if reaches(g, root, k) {
            let n = g.len() as nat;
            let tk = table(g, cat, k as nat);
            lemma_table(g, cat, n);
            lemma_table(g, cat, k as nat);
            lemma_table_prefix(g, cat, n, k as nat);
            let t = choose|t: int| 0 <= t < cat.len() && matches_at(g, #[trigger] cat[t].pattern, k);
            assert forall|j: int| 0 <= j < k && #[trigger] reaches(g, k, j) implies tk[j] is Some by {
                lemma_reaches_trans(g, root, k, j);
                assert(best_cover(g, cat, j) is Some);
            }
            lemma_charge_some(g, cat[t].pattern, k, tk);
            assert(tile_total(g, cat[t], k, tk) is Some);
            lemma_best_is_candidate(g, cat, k, tk, cat.len() as int);
        }
    }
}

/// Coverage is complete: when every node that `root` reaches is matched by
/// some tile, every such node has a cover, selection succeeds as soon as
/// their costs fit in a `u128`, and what it records then holds a choice for
/// every one of them.
pub proof fn lemma_coverage_complete(g: ValueGraph, cat: Seq<Tile>, root: int, c: Seq<Option<Choice>>)
    requires
        g.wf(),
        0 <= root < g.len(),
        forall|j: int| 0 <= j < g.len() && #[trigger] reaches(g, root, j) ==>
            exists|t: int| 0 <= t < cat.len() && matches_at(g, #[trigger] cat[t].pattern, j),
    ensures
        forall|j: int| 0 <= j < g.len() && #[trigger] reaches(g, root, j) ==> best_cover(g, cat, j) is Some,
        (forall|j: int| 0 <= j < g.len() && #[trigger] reaches(g, root, j)
            ==> best_cover(g, cat, j)->Some_0.1 <= u128::MAX) ==> selectable(g, cat, root),
        records(g, cat, root, c) ==> forall|j: int| 0 <= j < g.len() && #[trigger] reaches(g, root, j)
            ==> c[j] is Some,
{
    lemma_covered_upto(g, cat, root, g.len());
    if records(g, cat, root, c) {
        assert forall|j: int| 0 <= j < g.len() && #[trigger] reaches(g, root, j) implies c[j] is Some by {
            assert(entry_view(c[j]) == outcome(g, cat, root, j));
        }
    }
}

} // verus!
