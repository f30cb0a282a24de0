//! Walks through an adjacency mapping and their costs: the mathematical
//! model against which the shortest-path search is stated.

use vstd::prelude::*;
use crate::graph::Edge;

verus! {

/// Node id to the edges that leave that node.
pub type Adjacency = Map<i32, Seq<Edge>>;

/// The cost returned when no walk is cheaper than it: `i32::MAX`.
pub open spec fn unreachable_cost() -> int {
    i32::MAX as int
}

/// The same connection, traversed the other way.
pub open spec fn reversed(e: Edge) -> Edge {
    Edge { node_a_id: e.node_b_id, node_b_id: e.node_a_id, weight: e.weight }
}

/// The edges leaving `k`; empty where `k` has no entry.
pub open spec fn edges_from(adj: Adjacency, k: i32) -> Seq<Edge> {
    if adj.contains_key(k) {
        adj[k]
    } else {
        Seq::empty()
    }
}

pub open spec fn has_edge(adj: Adjacency, e: Edge) -> bool {
    adj.contains_key(e.node_a_id) && adj[e.node_a_id].contains(e)
}

/// Every list holds only edges that leave its key, every weight is
/// non-negative, and every edge has its reverse in the mapping.
pub open spec fn adjacency_wf(adj: Adjacency) -> bool {
    forall|k: i32, i: int|
        #![trigger adj[k][i]]
        adj.contains_key(k) && 0 <= i < adj[k].len() ==> {
            &&& adj[k][i].node_a_id == k
            &&& adj[k][i].weight >= 0
            &&& has_edge(adj, reversed(adj[k][i]))
        }
}

/// `p` is a sequence of edges of `adj` leading from `a` to `b`, each edge
/// starting where the previous one ends.
pub open spec fn is_walk(adj: Adjacency, p: Seq<Edge>, a: i32, b: i32) -> bool
    decreases p.len(),
{
    if p.len() == 0 {
        a == b
    } else {
        &&& has_edge(adj, p[0])
        &&& p[0].node_a_id == a
        &&& is_walk(adj, p.drop_first(), p[0].node_b_id, b)
    }
}

pub open spec fn walk_cost(p: Seq<Edge>) -> int
    decreases p.len(),
{
    if p.len() == 0 {
        0
    } else {
        p[0].weight + walk_cost(p.drop_first())
    }
}

/// Some walk from `a` to `b` costs exactly `c`.
pub open spec fn reaches_with(adj: Adjacency, a: i32, b: i32, c: int) -> bool {
    exists|p: Seq<Edge>| is_walk(adj, p, a, b) && walk_cost(p) == c
}

/// `d` is the cost of the cheapest walk from `a` to `b`, or
/// `unreachable_cost()` where no walk costs less than that.
pub open spec fn is_capped_distance(adj: Adjacency, a: i32, b: i32, d: int) -> bool {
    &&& 0 <= d <= unreachable_cost()
    &&& d < unreachable_cost() ==> reaches_with(adj, a, b, d)
    &&& forall|p: Seq<Edge>| is_walk(adj, p, a, b) ==> walk_cost(p) >= d
}

/// The shortest-path cost from `a` to `b`, capped at `unreachable_cost()`.
pub open spec fn capped_distance(adj: Adjacency, a: i32, b: i32) -> int {
    choose|d: int| is_capped_distance(adj, a, b, d)
}

/// The walks reversed edge by edge.
pub open spec fn reverse_walk(p: Seq<Edge>) -> Seq<Edge>
    decreases p.len(),
{
    if p.len() == 0 {
        Seq::empty()
    } else {
        reverse_walk(p.drop_first()).push(reversed(p[0]))
    }
}

pub proof fn lemma_edge_weight_nonneg(adj: Adjacency, e: Edge)
    requires
        adjacency_wf(adj),
        has_edge(adj, e),
    ensures
        e.weight >= 0,
        has_edge(adj, reversed(e)),
{
    let k = e.node_a_id;
    let j = choose|j: int| 0 <= j < adj[k].len() && adj[k][j] == e;
    assert(adj[k][j].weight >= 0);
}

pub proof fn lemma_walk_cost_nonneg(adj: Adjacency, p: Seq<Edge>, a: i32, b: i32)
    requires
        adjacency_wf(adj),
        is_walk(adj, p, a, b),
    ensures
        walk_cost(p) >= 0,
    decreases p.len(),
{
    if p.len() > 0 {
        lemma_edge_weight_nonneg(adj, p[0]);
        lemma_walk_cost_nonneg(adj, p.drop_first(), p[0].node_b_id, b);
    }
}

pub proof fn lemma_single_edge_walk(adj: Adjacency, e: Edge)
    requires
        has_edge(adj, e),
    ensures
        is_walk(adj, seq![e], e.node_a_id, e.node_b_id),
        walk_cost(seq![e]) == e.weight,
{
    let p = seq![e];
    assert(p.drop_first() =~= Seq::<Edge>::empty());
    assert(is_walk(adj, p.drop_first(), e.node_b_id, e.node_b_id));
    assert(walk_cost(p.drop_first()) == 0);
}

pub proof fn lemma_walk_concat(adj: Adjacency, p: Seq<Edge>, q: Seq<Edge>, a: i32, b: i32, c: i32)
    requires
        is_walk(adj, p, a, b),
        is_walk(adj, q, b, c),
    ensures
        is_walk(adj, p + q, a, c),
        walk_cost(p + q) == walk_cost(p) + walk_cost(q),
    decreases p.len(),
{
    if p.len() == 0 {
        assert(p + q =~= q);
    } else {
        lemma_walk_concat(adj, p.drop_first(), q, p[0].node_b_id, b, c);
        assert((p + q).drop_first() =~= p.drop_first() + q);
        assert((p + q)[0] == p[0]);
    }
}

/// Extending a walk by one edge adds that edge's weight.
pub proof fn lemma_walk_extend(adj: Adjacency, p: Seq<Edge>, a: i32, e: Edge)
    requires
        is_walk(adj, p, a, e.node_a_id),
        has_edge(adj, e),
    ensures
        is_walk(adj, p.push(e), a, e.node_b_id),
        walk_cost(p.push(e)) == walk_cost(p) + e.weight,
{
    lemma_single_edge_walk(adj, e);
    lemma_walk_concat(adj, p, seq![e], a, e.node_a_id, e.node_b_id);
    assert(p + seq![e] =~= p.push(e));
}

pub proof fn lemma_walk_reverse(adj: Adjacency, p: Seq<Edge>, a: i32, b: i32)
    requires
        adjacency_wf(adj),
        is_walk(adj, p, a, b),
    ensures
        is_walk(adj, reverse_walk(p), b, a),
        walk_cost(reverse_walk(p)) == walk_cost(p),
    decreases p.len(),
{
    if p.len() > 0 {
        let e = p[0];
        lemma_walk_reverse(adj, p.drop_first(), e.node_b_id, b);
        lemma_edge_weight_nonneg(adj, e);
        lemma_walk_extend(adj, reverse_walk(p.drop_first()), b, reversed(e));
    }
}

pub proof fn lemma_capped_distance_unique(adj: Adjacency, a: i32, b: i32, d1: int, d2: int)
    requires
        is_capped_distance(adj, a, b, d1),
        is_capped_distance(adj, a, b, d2),
    ensures
        d1 == d2,
{
    if d1 < unreachable_cost() {
        let p = choose|p: Seq<Edge>| is_walk(adj, p, a, b) && walk_cost(p) == d1;
        assert(walk_cost(p) >= d2);
    }
    if d2 < unreachable_cost() {
        let p = choose|p: Seq<Edge>| is_walk(adj, p, a, b) && walk_cost(p) == d2;
        assert(walk_cost(p) >= d1);
    }
}

/// Any value that meets the definition is the capped distance.
pub proof fn lemma_capped_distance_is(adj: Adjacency, a: i32, b: i32, d: int)
    requires
        is_capped_distance(adj, a, b, d),
    ensures
        capped_distance(adj, a, b) == d,
{
    lemma_capped_distance_unique(adj, a, b, capped_distance(adj, a, b), d);
}

proof fn lemma_minimum_below(adj: Adjacency, a: i32, b: i32, c: nat)
    requires
        adjacency_wf(adj),
        reaches_with(adj, a, b, c as int),
    ensures
        exists|d: int| is_capped_distance(adj, a, b, d),
    decreases c,
{
    if forall|p: Seq<Edge>| is_walk(adj, p, a, b) ==> walk_cost(p) >= c {
        if c < unreachable_cost() {
            assert(is_capped_distance(adj, a, b, c as int));
        } else {
            assert(is_capped_distance(adj, a, b, unreachable_cost()));
        }
    } else {
        let p = choose|p: Seq<Edge>| is_walk(adj, p, a, b) && walk_cost(p) < c;
        lemma_walk_cost_nonneg(adj, p, a, b);
        lemma_minimum_below(adj, a, b, walk_cost(p) as nat);
    }
}

/// On a well-formed mapping every pair has a capped distance.
pub proof fn lemma_capped_distance_exists(adj: Adjacency, a: i32, b: i32)
    requires
        adjacency_wf(adj),
    ensures
        is_capped_distance(adj, a, b, capped_distance(adj, a, b)),
{
    if exists|p: Seq<Edge>| is_walk(adj, p, a, b) {
        let p = choose|p: Seq<Edge>| is_walk(adj, p, a, b);
        lemma_walk_cost_nonneg(adj, p, a, b);
        lemma_minimum_below(adj, a, b, walk_cost(p) as nat);
    } else {
        assert(is_capped_distance(adj, a, b, unreachable_cost()));
    }
}

} // verus!
