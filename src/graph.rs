use vstd::prelude::*;
use std::collections::HashMap;
use crate::search::{
    State, all_relaxed, edge_relaxed, lemma_drop_stale, lemma_relax_step, lemma_settle_step,
    lemma_walk_meets_frontier, min_index, relaxed_but, search_state,
};
use crate::walk::{
    Adjacency, adjacency_wf, capped_distance, edges_from, has_edge, is_capped_distance, is_walk,
    lemma_capped_distance_exists, lemma_capped_distance_is, lemma_edge_weight_nonneg,
    lemma_single_edge_walk, lemma_walk_concat, lemma_walk_cost_nonneg, lemma_walk_reverse,
    reaches_with, reversed, unreachable_cost, walk_cost,
};
use vstd::set_lib::{lemma_int_range, lemma_len_subset, set_int_range};

verus! {

broadcast use vstd::std_specs::hash::group_hash_axioms;

/// A point of the road network.
#[derive(Clone, Copy, Debug)]
pub struct Node {
    pub id: i32,
    pub x: i32,
    pub y: i32,
}

/// A weighted connection from `node_a_id` to `node_b_id`.
#[derive(Clone, Copy, Debug)]
pub struct Edge {
    pub node_a_id: i32,
    pub node_b_id: i32,
    pub weight: i32,
}

/// The node records, and for each node id the edges that leave it.
#[derive(Debug)]
pub struct Graph {
    pub nodes: HashMap<i32, Node>,
    pub edges: HashMap<i32, Vec<Edge>>,
}

/// The adjacency mapping after inserting `e` and its reverse.
pub open spec fn with_edge(adj: Adjacency, e: Edge) -> Adjacency {
    let first = adj.insert(e.node_a_id, edges_from(adj, e.node_a_id).push(e));
    first.insert(e.node_b_id, edges_from(first, e.node_b_id).push(reversed(e)))
}

impl Graph {
    /// For each node id, the edges that leave it.
    pub open spec fn adjacency(&self) -> Adjacency {
        self.edges@.map_values(|v: Vec<Edge>| v@)
    }

    /// Edge lists are keyed by their start, weights are non-negative and
    /// every edge is stored in both directions.
    pub open spec fn wf(&self) -> bool {
        adjacency_wf(self.adjacency())
    }

    /// An empty graph.
    pub fn new() -> (g: Self)
        ensures
            g.nodes@ == Map::<i32, Node>::empty(),
            g.adjacency() == Map::<i32, Seq<Edge>>::empty(),
            g.wf(),
    {
        let g = Graph { nodes: HashMap::new(), edges: HashMap::new() };
        assert(g.adjacency() =~= Map::<i32, Seq<Edge>>::empty());
        g
    }

    /// Inserts the node record under its id; a record already there is replaced.
    pub fn add_node(&mut self, node: Node)
        ensures
            final(self).nodes@ == old(self).nodes@.insert(node.id, node),
            final(self).adjacency() == old(self).adjacency(),
    {
        self.nodes.insert(node.id, node);
    }

    /// Appends `v` to the list of edges that leave `k`.
    fn append_edge(&mut self, k: i32, v: Edge)
        ensures
            final(self).nodes@ == old(self).nodes@,
            final(self).adjacency() == old(self).adjacency().insert(
                k,
                edges_from(old(self).adjacency(), k).push(v),
            ),
    {
        let mut list = match self.edges.remove(&k) {
            Some(l) => l,
            None => Vec::new(),
        };
        list.push(v);
        self.edges.insert(k, list);
        assert(self.adjacency() =~= old(self).adjacency().insert(
            k,
            edges_from(old(self).adjacency(), k).push(v),
        ));
    }

    /// Inserts `edge` and its reverse, so that it can be walked both ways.
    pub fn add_edge(&mut self, edge: Edge)
        requires
            old(self).wf(),
            edge.weight >= 0,
        ensures
            final(self).wf(),
            final(self).nodes@ == old(self).nodes@,
            final(self).adjacency() == with_edge(old(self).adjacency(), edge),
    {
        let reverse_edge = Edge {
            node_a_id: edge.node_b_id,
            node_b_id: edge.node_a_id,
            weight: edge.weight,
        };
        self.append_edge(edge.node_a_id, edge);
        self.append_edge(reverse_edge.node_a_id, reverse_edge);
        proof {
            lemma_with_edge_wf(old(self).adjacency(), edge);
        }
    }

    /// Cost of the cheapest walk from `from_node_id` to `to_node_id`, or
    /// `i32::MAX` where none costs less than that.
    pub fn shortest_path(&self, from_node_id: i32, to_node_id: i32) -> (r: i32)
        requires
            self.wf(),
        ensures
            r as int == capped_distance(self.adjacency(), from_node_id, to_node_id),
    {
        let ghost adj = self.adjacency();
        let mut distances: HashMap<i32, i32> = HashMap::new();
        let mut front: Vec<State> = Vec::new();
        distances.insert(from_node_id, 0);
        front.push(State { cost: 0, node_id: from_node_id });
        let ghost mut settled: Set<int> = Set::empty();
        proof {
            assert(is_walk(adj, Seq::empty(), from_node_id, from_node_id));
            assert(walk_cost(Seq::<Edge>::empty()) == 0);
            assert(reaches_with(adj, from_node_id, from_node_id, 0));
            assert(front@.len() == 1 && front@[0] == State { cost: 0, node_id: from_node_id });
            assert(distances@ == Map::<i32, i32>::empty().insert(from_node_id, 0));
            assert forall|n: i32| #[trigger] distances@.contains_key(n) && !settled.contains(n as int)
                implies exists|i: int| 0 <= i < front@.len() && front@[i].cost == distances@[n]
                    && front@[i].node_id == n by {
                assert(front@[0].node_id == n);
            }
        }
        while front.len() > 0
            invariant
                adj == self.adjacency(),
                search_state(adj, distances@, front@, settled, from_node_id, to_node_id),
                all_relaxed(adj, distances@, settled),
            decreases 0x1_0000_0000 - settled.len(), front.len(),
        {
            proof {
                lemma_int_range(i32::MIN as int, i32::MAX as int + 1);
                lemma_len_subset(settled, set_int_range(i32::MIN as int, i32::MAX as int + 1));
            }
            let m = min_index(&front);
            let ghost f0 = front@;
            let ghost d0 = distances@;
            let st = front.remove(m);
            let cost = st.cost;
            let u = st.node_id;
            proof {
                f0.remove_ensures(m as int);
                assert(f0[m as int] == st);
            }
            let stale = match distances.get(&u) {
                Some(d) => cost > *d,
                None => false,
            };
            if stale {
                proof {
                    lemma_drop_stale(adj, d0, f0, settled, from_node_id, to_node_id, m as int, front@);
                }
            } else {
                proof {
                    assert(f0[m as int].cost == d0[u]);
                    assert(!settled.contains(u as int));
                }
                if u == to_node_id {
                    proof {
                        assert forall|p: Seq<Edge>| is_walk(adj, p, from_node_id, to_node_id)
                            implies walk_cost(p) >= cost by {
                            lemma_walk_meets_frontier(adj, d0, f0, settled, from_node_id, to_node_id, p);
                        }
                        assert(is_capped_distance(adj, from_node_id, to_node_id, cost as int));
                        lemma_capped_distance_is(adj, from_node_id, to_node_id, cost as int);
                    }
                    return cost;
                }
                let ghost old_settled = settled;
                proof {
                    settled = settled.insert(u as int);
                    lemma_settle_step(adj, d0, f0, old_settled, from_node_id, to_node_id, m as int, front@);
                }
                match self.edges.get(&u) {
                    Some(edges) => {
                        let mut j: usize = 0;
                        while j < edges.len()
                            invariant
                                adj == self.adjacency(),
                                adj.contains_key(u),
                                adj[u] == edges@,
                                settled.contains(u as int),
                                distances@.contains_key(u),
                                distances@[u] == cost,
                                reaches_with(adj, from_node_id, u, cost as int),
                                forall|n: i32| #[trigger] settled.contains(n as int) ==> distances@[n] <= cost,
                                search_state(adj, distances@, front@, settled, from_node_id, to_node_id),
                                relaxed_but(adj, distances@, settled, u, j as int),
                                j <= edges.len(),
                            decreases edges.len() - j,
                        {
                            let e = edges[j];
                            let next_cost: i64 = cost as i64 + e.weight as i64;
                            let known: i64 = match distances.get(&e.node_b_id) {
                                Some(d) => *d as i64,
                                None => i32::MAX as i64,
                            };
                            let ghost d1 = distances@;
                            let ghost f1 = front@;
                            proof {
                                assert(adj[u][j as int] == e);
                                assert(e.node_a_id == u && e.weight >= 0);
                                assert(has_edge(adj, e));
                            }
                            if next_cost < known {
                                distances.insert(e.node_b_id, next_cost as i32);
                                front.push(State { cost: next_cost as i32, node_id: e.node_b_id });
                                proof {
                                    lemma_relax_step(adj, d1, f1, settled, from_node_id, to_node_id, u, cost as int, j as int, distances@, front@);
                                }
                            }
                            proof {
                                assert forall|s: i32, k: int|
                                    settled.contains(s as int) && adj.contains_key(s) && 0 <= k < adj[s].len()
                                        && (s != u || k < j + 1)
                                    implies #[trigger] edge_relaxed(adj, distances@, s, k) by {
                                    if s == u && k == j {
                                    } else {
                                        assert(edge_relaxed(adj, d1, s, k));
                                        if d1[s] + adj[s][k].weight < unreachable_cost() {
                                            assert(d1.contains_key(adj[s][k].node_b_id));
                                        }
                                    }
                                }
                            }
                            j += 1;
                        }
                    }
                    None => {}
                }
            }
        }
        proof {
            assert forall|p: Seq<Edge>| is_walk(adj, p, from_node_id, to_node_id)
                implies walk_cost(p) >= unreachable_cost() by {
                lemma_walk_meets_frontier(adj, distances@, front@, settled, from_node_id, to_node_id, p);
            }
            assert(is_capped_distance(adj, from_node_id, to_node_id, unreachable_cost()));
            lemma_capped_distance_is(adj, from_node_id, to_node_id, unreachable_cost());
        }
        i32::MAX
    }
}

/// A node is at distance zero from itself, whether or not any edge touches it.
pub proof fn lemma_distance_to_self(g: Graph, a: i32)
    requires
        g.wf(),
    ensures
        capped_distance(g.adjacency(), a, a) == 0,
{
    let adj = g.adjacency();
    assert(is_walk(adj, Seq::empty(), a, a));
    assert(walk_cost(Seq::<Edge>::empty()) == 0);
    assert forall|p: Seq<Edge>| is_walk(adj, p, a, a) implies walk_cost(p) >= 0 by {
        lemma_walk_cost_nonneg(adj, p, a, a);
    }
    assert(is_capped_distance(adj, a, a, 0));
    lemma_capped_distance_is(adj, a, a, 0);
}

/// After inserting an edge of weight `w` between `u` and `v`, the distance
/// from `u` to `v`, and from `v` to `u`, is at most `w`.
pub proof fn lemma_added_edge_bounds_distance(g: Graph, e: Edge)
    requires
        g.wf(),
        e.weight >= 0,
    ensures
        capped_distance(with_edge(g.adjacency(), e), e.node_a_id, e.node_b_id) <= e.weight,
        capped_distance(with_edge(g.adjacency(), e), e.node_b_id, e.node_a_id) <= e.weight,
{
    let adj = with_edge(g.adjacency(), e);
    lemma_with_edge_wf(g.adjacency(), e);
    lemma_single_edge_walk(adj, e);
    lemma_single_edge_walk(adj, reversed(e));
    lemma_capped_distance_exists(adj, e.node_a_id, e.node_b_id);
    lemma_capped_distance_exists(adj, e.node_b_id, e.node_a_id);
}

/// The distance from `a` to `b` equals the distance from `b` to `a`: every
/// edge is stored in both directions.
pub proof fn lemma_distance_symmetric(g: Graph, a: i32, b: i32)
    requires
        g.wf(),
    ensures
        capped_distance(g.adjacency(), a, b) == capped_distance(g.adjacency(), b, a),
{
    let adj = g.adjacency();
    lemma_distance_bounded_by_reverse(adj, a, b);
    lemma_distance_bounded_by_reverse(adj, b, a);
}

proof fn lemma_distance_bounded_by_reverse(adj: Adjacency, a: i32, b: i32)
    requires
        adjacency_wf(adj),
    ensures
        capped_distance(adj, a, b) <= capped_distance(adj, b, a),
{
    lemma_capped_distance_exists(adj, a, b);
    lemma_capped_distance_exists(adj, b, a);
    let d = capped_distance(adj, b, a);
    if d < unreachable_cost() {
        let p = choose|p: Seq<Edge>| is_walk(adj, p, b, a) && walk_cost(p) == d;
        lemma_walk_reverse(adj, p, b, a);
    }
}

/// The distance from `a` to `c` is at most the distance from `a` to `b`
/// plus the distance from `b` to `c`.
pub proof fn lemma_distance_triangle(g: Graph, a: i32, b: i32, c: i32)
    requires
        g.wf(),
    ensures
        capped_distance(g.adjacency(), a, c) <= capped_distance(g.adjacency(), a, b)
            + capped_distance(g.adjacency(), b, c),
{
    let adj = g.adjacency();
    lemma_capped_distance_exists(adj, a, b);
    lemma_capped_distance_exists(adj, b, c);
    lemma_capped_distance_exists(adj, a, c);
    let d1 = capped_distance(adj, a, b);
    let d2 = capped_distance(adj, b, c);
    if d1 < unreachable_cost() && d2 < unreachable_cost() {
        let p = choose|p: Seq<Edge>| is_walk(adj, p, a, b) && walk_cost(p) == d1;
        let q = choose|q: Seq<Edge>| is_walk(adj, q, b, c) && walk_cost(q) == d2;
        lemma_walk_concat(adj, p, q, a, b, c);
    }
}

/// Where no walk leads from `a` to `b` the distance is `i32::MAX`; a
/// distance below it is always the cost of a real walk.
pub proof fn lemma_unreachable_is_sentinel(g: Graph, a: i32, b: i32)
    requires
        g.wf(),
    ensures
        capped_distance(g.adjacency(), a, b) < unreachable_cost() ==> reaches_with(
            g.adjacency(),
            a,
            b,
            capped_distance(g.adjacency(), a, b),
        ),
        (forall|p: Seq<Edge>| !is_walk(g.adjacency(), p, a, b)) ==> capped_distance(
            g.adjacency(),
            a,
            b,
        ) == unreachable_cost(),
{
    let adj = g.adjacency();
    lemma_capped_distance_exists(adj, a, b);
    if forall|p: Seq<Edge>| !is_walk(adj, p, a, b) {
        assert(is_capped_distance(adj, a, b, unreachable_cost()));
        lemma_capped_distance_is(adj, a, b, unreachable_cost());
    }
}

proof fn lemma_with_edge_wf(adj: Adjacency, e: Edge)
    requires
        adjacency_wf(adj),
        e.weight >= 0,
    ensures
        adjacency_wf(with_edge(adj, e)),
        has_edge(with_edge(adj, e), e),
        has_edge(with_edge(adj, e), reversed(e)),
        forall|x: Edge| has_edge(adj, x) ==> has_edge(with_edge(adj, e), x),
{
    let a = e.node_a_id;
    let b = e.node_b_id;
    let first = adj.insert(a, edges_from(adj, a).push(e));
    let second = with_edge(adj, e);
    assert forall|x: Edge| has_edge(adj, x) implies has_edge(second, x) by {
        let k = x.node_a_id;
        let j = choose|j: int| 0 <= j < adj[k].len() && adj[k][j] == x;
        assert(first[k][j] == x);
        assert(has_edge(first, x));
        let j2 = choose|j2: int| 0 <= j2 < first[k].len() && first[k][j2] == x;
        assert(second[k][j2] == x);
    }
    assert(first[a][edges_from(adj, a).len() as int] == e);
    assert(has_edge(first, e));
    let j = choose|j: int| 0 <= j < first[a].len() && first[a][j] == e;
    assert(second[a][j] == e);
    assert(second[b][edges_from(first, b).len() as int] == reversed(e));
    assert forall|k: i32, i: int| second.contains_key(k) && 0 <= i < second[k].len() implies {
        &&& #[trigger] second[k][i].node_a_id == k
        &&& second[k][i].weight >= 0
        &&& has_edge(second, reversed(second[k][i]))
    } by {
        let x = second[k][i];
        if k == b && i == edges_from(first, b).len() {
            assert(reversed(x) == e);
        } else if k == a && (k != b || i < edges_from(first, b).len()) && i == edges_from(adj, a).len() {
            assert(x == e);
            assert(reversed(x) == reversed(e));
        } else {
            assert(has_edge(adj, x));
            lemma_edge_weight_nonneg(adj, x);
            let j3 = choose|j3: int| 0 <= j3 < adj[x.node_a_id].len() && adj[x.node_a_id][j3] == x;
            assert(adj[x.node_a_id][j3].node_a_id == x.node_a_id);
        }
    }
}

} // verus!
