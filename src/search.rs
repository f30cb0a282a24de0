//! The frontier of the shortest-path search and the facts that the search
//! keeps about it.

use vstd::prelude::*;
use crate::graph::Edge;
use crate::walk::{
    Adjacency, adjacency_wf, has_edge, is_walk, lemma_edge_weight_nonneg, lemma_walk_cost_nonneg,
    lemma_walk_extend, reaches_with, unreachable_cost, walk_cost,
};
use vstd::set_lib::{lemma_int_range, lemma_len_subset, set_int_range};

verus! {

/// A frontier entry: a node and the cost of the walk that reached it.
/// The entry with the lowest cost is taken first.
#[derive(Clone, Copy)]
pub(crate) struct State {
    pub(crate) cost: i32,
    pub(crate) node_id: i32,
}

/// Index of an entry of least cost.
pub(crate) fn min_index(front: &Vec<State>) -> (m: usize)
    requires
        front.len() > 0,
    ensures
        m < front.len(),
        forall|i: int| 0 <= i < front.len() ==> front[m as int].cost <= #[trigger] front[i].cost,
{
    let mut m: usize = 0;
    let mut i: usize = 1;
    while i < front.len()
        invariant
            0 <= m < i <= front.len(),
            forall|k: int| 0 <= k < i ==> front[m as int].cost <= #[trigger] front[k].cost,
        decreases front.len() - i,
    {
        if front[i].cost < front[m].cost {
            m = i;
        }
        i += 1;
    }
    m
}

/// The `j`-th edge leaving `s` has been relaxed: its far end is known at a
/// cost no higher than through `s`.
pub(crate) open spec fn edge_relaxed(adj: Adjacency, dist: Map<i32, i32>, s: i32, j: int) -> bool {
    let e = adj[s][j];
    dist[s] + e.weight < unreachable_cost() ==> {
        &&& dist.contains_key(e.node_b_id)
        &&& dist[e.node_b_id] <= dist[s] + e.weight
    }
}

/// Every edge leaving a settled node has been relaxed, but for those of `u`
/// from index `bound` on.
pub(crate) open spec fn relaxed_but(
    adj: Adjacency,
    dist: Map<i32, i32>,
    settled: Set<int>,
    u: i32,
    bound: int,
) -> bool {
    forall|s: i32, j: int|
        settled.contains(s as int) && adj.contains_key(s) && 0 <= j < adj[s].len() && (s != u
            || j < bound) ==> #[trigger] edge_relaxed(adj, dist, s, j)
}

pub(crate) open spec fn all_relaxed(adj: Adjacency, dist: Map<i32, i32>, settled: Set<int>) -> bool {
    forall|s: i32, j: int|
        settled.contains(s as int) && adj.contains_key(s) && 0 <= j < adj[s].len()
            ==> #[trigger] edge_relaxed(adj, dist, s, j)
}

/// Every known node that is not settled has an entry at its known cost.
pub(crate) open spec fn frontier_covers(
    dist: Map<i32, i32>,
    front: Seq<State>,
    settled: Set<int>,
) -> bool {
    forall|n: i32|
        #[trigger] dist.contains_key(n) && !settled.contains(n as int) ==> exists|i: int|
            0 <= i < front.len() && front[i].cost == dist[n] && front[i].node_id == n
}

/// What holds of the search state between two steps, apart from relaxation.
pub(crate) open spec fn search_state(
    adj: Adjacency,
    dist: Map<i32, i32>,
    front: Seq<State>,
    settled: Set<int>,
    src: i32,
    dst: i32,
) -> bool {
    &&& adjacency_wf(adj)
    &&& dist.contains_key(src)
    &&& dist[src] == 0
    &&& forall|n: i32| #[trigger] dist.contains_key(n) ==> 0 <= dist[n] < unreachable_cost()
    &&& forall|i: int|
        #![trigger front[i]]
        0 <= i < front.len() ==> {
            &&& 0 <= front[i].cost < unreachable_cost()
            &&& dist.contains_key(front[i].node_id)
            &&& dist[front[i].node_id] <= front[i].cost
            &&& reaches_with(adj, src, front[i].node_id, front[i].cost as int)
            &&& settled.contains(front[i].node_id as int) ==> dist[front[i].node_id]
                < front[i].cost
        }
    &&& frontier_covers(dist, front, settled)
    &&& forall|i: int, j: int|
        0 <= i < front.len() && 0 <= j < front.len() && i != j && #[trigger] front[i].node_id
            == #[trigger] front[j].node_id && front[i].cost == dist[front[i].node_id]
            ==> front[j].cost != dist[front[j].node_id]
    &&& settled.finite()
    &&& forall|s: int| #[trigger] settled.contains(s) ==> i32::MIN <= s <= i32::MAX
    &&& forall|n: i32| #[trigger] settled.contains(n as int) ==> dist.contains_key(n)
    &&& forall|n: i32, i: int|
        settled.contains(n as int) && 0 <= i < front.len() ==> dist[n] <= #[trigger] front[i].cost
            && #[trigger] dist.contains_key(n)
    &&& !settled.contains(dst as int)
}

proof fn lemma_walk_from_settled(
    adj: Adjacency,
    dist: Map<i32, i32>,
    front: Seq<State>,
    settled: Set<int>,
    p: Seq<Edge>,
    x: i32,
    y: i32,
    k: int,
)
    requires
        adjacency_wf(adj),
        all_relaxed(adj, dist, settled),
        frontier_covers(dist, front, settled),
        settled.contains(x as int),
        dist.contains_key(x),
        dist[x] <= k,
        is_walk(adj, p, x, y),
        !settled.contains(y as int),
    ensures
        k + walk_cost(p) >= unreachable_cost() || exists|i: int|
            0 <= i < front.len() && front[i].cost <= k + walk_cost(p),
    decreases p.len(),
{
    let e = p[0];
    let z = e.node_b_id;
    let tail = p.drop_first();
    lemma_edge_weight_nonneg(adj, e);
    lemma_walk_cost_nonneg(adj, tail, z, y);
    let j = choose|j: int| 0 <= j < adj[x].len() && adj[x][j] == e;
    assert(edge_relaxed(adj, dist, x, j));
    if dist[x] + e.weight < unreachable_cost() {
        if settled.contains(z as int) {
            lemma_walk_from_settled(adj, dist, front, settled, tail, z, y, k + e.weight);
        } else {
            assert(dist.contains_key(z));
            let i = choose|i: int|
                0 <= i < front.len() && front[i].cost == dist[z] && front[i].node_id == z;
            assert(front[i].cost <= k + walk_cost(p));
        }
    }
}

/// Every walk from `src` to a node that is not settled costs at least as
/// much as some frontier entry, or at least `unreachable_cost()`.
pub(crate) proof fn lemma_walk_meets_frontier(
    adj: Adjacency,
    dist: Map<i32, i32>,
    front: Seq<State>,
    settled: Set<int>,
    src: i32,
    dst: i32,
    p: Seq<Edge>,
)
    requires
        search_state(adj, dist, front, settled, src, dst),
        all_relaxed(adj, dist, settled),
        is_walk(adj, p, src, dst),
    ensures
        walk_cost(p) >= unreachable_cost() || exists|i: int|
            0 <= i < front.len() && front[i].cost <= walk_cost(p),
{
    lemma_walk_cost_nonneg(adj, p, src, dst);
    if settled.contains(src as int) {
        lemma_walk_from_settled(adj, dist, front, settled, p, src, dst, 0);
    } else {
        assert(dist.contains_key(src));
    }
}


/// Dropping a stale entry, one whose cost is above the known cost of its
/// node, keeps the search state.
pub(crate) proof fn lemma_drop_stale(
    adj: Adjacency,
    dist: Map<i32, i32>,
    f0: Seq<State>,
    settled: Set<int>,
    src: i32,
    dst: i32,
    m: int,
    f1: Seq<State>,
)
    requires
        search_state(adj, dist, f0, settled, src, dst),
        0 <= m < f0.len(),
        f1 == f0.remove(m),
        f0[m].cost > dist[f0[m].node_id],
    ensures
        search_state(adj, dist, f1, settled, src, dst),
{
    f0.remove_ensures(m);
    assert forall|i: int| 0 <= i < f1.len() implies #[trigger] f1[i] == f0[if i < m { i } else { i + 1 }] by {}
    assert forall|n: i32| #[trigger] dist.contains_key(n) && !settled.contains(n as int) implies exists|i: int|
        0 <= i < f1.len() && f1[i].cost == dist[n] && f1[i].node_id == n by {
        let i = choose|i: int| 0 <= i < f0.len() && f0[i].cost == dist[n] && f0[i].node_id == n;
        if i < m {
            assert(f1[i] == f0[i]);
        } else {
            assert(f1[i - 1] == f0[i]);
        }
    }
    assert forall|i: int, j: int|
        0 <= i < f1.len() && 0 <= j < f1.len() && i != j && #[trigger] f1[i].node_id
            == #[trigger] f1[j].node_id && f1[i].cost == dist[f1[i].node_id]
        implies f1[j].cost != dist[f1[j].node_id] by {
        let i0 = if i < m { i } else { i + 1 };
        let j0 = if j < m { j } else { j + 1 };
        assert(f1[i] == f0[i0]);
        assert(f1[j] == f0[j0]);
    }
    assert forall|n: i32, i: int| settled.contains(n as int) && 0 <= i < f1.len() implies dist[n]
        <= #[trigger] f1[i].cost && #[trigger] dist.contains_key(n) by {
        let i0 = if i < m { i } else { i + 1 };
        assert(f1[i] == f0[i0]);
    }
}

/// Taking a least entry that is not stale settles its node.
pub(crate) proof fn lemma_settle_step(
    adj: Adjacency,
    dist: Map<i32, i32>,
    f0: Seq<State>,
    settled: Set<int>,
    src: i32,
    dst: i32,
    m: int,
    f1: Seq<State>,
)
    requires
        search_state(adj, dist, f0, settled, src, dst),
        all_relaxed(adj, dist, settled),
        0 <= m < f0.len(),
        f1 == f0.remove(m),
        forall|i: int| 0 <= i < f0.len() ==> f0[m].cost <= #[trigger] f0[i].cost,
        f0[m].cost == dist[f0[m].node_id],
        f0[m].node_id != dst,
    ensures
        !settled.contains(f0[m].node_id as int),
        search_state(adj, dist, f1, settled.insert(f0[m].node_id as int), src, dst),
        relaxed_but(adj, dist, settled.insert(f0[m].node_id as int), f0[m].node_id, 0),
        forall|n: i32|
            #[trigger] settled.insert(f0[m].node_id as int).contains(n as int) ==> dist[n]
                <= f0[m].cost,
        settled.insert(f0[m].node_id as int).len() == settled.len() + 1,
        settled.insert(f0[m].node_id as int).len() <= 0x1_0000_0000,
{
    let u = f0[m].node_id;
    let s1 = settled.insert(u as int);
    f0.remove_ensures(m);
    assert(!settled.contains(u as int));
    assert forall|i: int| 0 <= i < f1.len() implies #[trigger] f1[i] == f0[if i < m { i } else { i + 1 }] by {}
    assert forall|i: int|
        #![trigger f1[i]]
        0 <= i < f1.len() implies {
            &&& 0 <= f1[i].cost < unreachable_cost()
            &&& dist.contains_key(f1[i].node_id)
            &&& dist[f1[i].node_id] <= f1[i].cost
            &&& reaches_with(adj, src, f1[i].node_id, f1[i].cost as int)
            &&& s1.contains(f1[i].node_id as int) ==> dist[f1[i].node_id] < f1[i].cost
        } by {
        let i0 = if i < m { i } else { i + 1 };
        assert(f1[i] == f0[i0]);
        if f0[i0].node_id == u {
            assert(f0[i0].cost != dist[u]);
        }
    }
    assert forall|n: i32| #[trigger] dist.contains_key(n) && !s1.contains(n as int) implies exists|i: int|
        0 <= i < f1.len() && f1[i].cost == dist[n] && f1[i].node_id == n by {
        let i = choose|i: int| 0 <= i < f0.len() && f0[i].cost == dist[n] && f0[i].node_id == n;
        if i < m {
            assert(f1[i] == f0[i]);
        } else {
            assert(f1[i - 1] == f0[i]);
        }
    }
    assert forall|i: int, j: int|
        0 <= i < f1.len() && 0 <= j < f1.len() && i != j && #[trigger] f1[i].node_id
            == #[trigger] f1[j].node_id && f1[i].cost == dist[f1[i].node_id]
        implies f1[j].cost != dist[f1[j].node_id] by {
        let i0 = if i < m { i } else { i + 1 };
        let j0 = if j < m { j } else { j + 1 };
        assert(f1[i] == f0[i0]);
        assert(f1[j] == f0[j0]);
    }
    assert forall|n: i32, i: int| s1.contains(n as int) && 0 <= i < f1.len() implies dist[n]
        <= #[trigger] f1[i].cost && #[trigger] dist.contains_key(n) by {
        let i0 = if i < m { i } else { i + 1 };
        assert(f1[i] == f0[i0]);
        if n != u {
            assert(settled.contains(n as int));
            assert(dist[n] <= f0[i0].cost);
        }
    }
    assert forall|n: i32| #[trigger] s1.contains(n as int) implies dist[n] <= f0[m].cost by {
        if n != u {
            assert(dist[n] <= f0[m].cost && dist.contains_key(n));
        }
    }
    assert forall|s: i32, j: int|
        s1.contains(s as int) && adj.contains_key(s) && 0 <= j < adj[s].len() && (s != u || j < 0)
        implies #[trigger] edge_relaxed(adj, dist, s, j) by {
        assert(settled.contains(s as int));
    }
    let range = set_int_range(i32::MIN as int, i32::MAX as int + 1);
    lemma_int_range(i32::MIN as int, i32::MAX as int + 1);
    assert(s1.subset_of(range));
    lemma_len_subset(s1, range);
}

/// Lowering the known cost of the far end of an edge of the node being
/// settled, and queueing it, keeps the search state.
pub(crate) proof fn lemma_relax_step(
    adj: Adjacency,
    d1: Map<i32, i32>,
    f1: Seq<State>,
    settled: Set<int>,
    src: i32,
    dst: i32,
    u: i32,
    c0: int,
    j: int,
    d2: Map<i32, i32>,
    f2: Seq<State>,
)
    requires
        search_state(adj, d1, f1, settled, src, dst),
        settled.contains(u as int),
        d1.contains_key(u),
        d1[u] == c0,
        reaches_with(adj, src, u, c0),
        forall|n: i32| #[trigger] settled.contains(n as int) ==> d1[n] <= c0,
        adj.contains_key(u),
        0 <= j < adj[u].len(),
        c0 + adj[u][j].weight < unreachable_cost(),
        d1.contains_key(adj[u][j].node_b_id) ==> c0 + adj[u][j].weight < d1[adj[u][j].node_b_id],
        d2 == d1.insert(adj[u][j].node_b_id, (c0 + adj[u][j].weight) as i32),
        f2 == f1.push(State { cost: (c0 + adj[u][j].weight) as i32, node_id: adj[u][j].node_b_id }),
    ensures
        search_state(adj, d2, f2, settled, src, dst),
        !settled.contains(adj[u][j].node_b_id as int),
        forall|n: i32| #[trigger] settled.contains(n as int) ==> d2[n] == d1[n],
        edge_relaxed(adj, d2, u, j),
{
    let e = adj[u][j];
    let v = e.node_b_id;
    let nc = c0 + e.weight;
    assert(e.node_a_id == u && e.weight >= 0);
    assert(has_edge(adj, e));
    if settled.contains(v as int) {
        assert(d1[v] <= c0);
    }
    let p = choose|p: Seq<Edge>| is_walk(adj, p, src, u) && walk_cost(p) == c0;
    lemma_walk_extend(adj, p, src, e);
    assert(reaches_with(adj, src, v, nc));
    let last = f1.len() as int;
    assert(f2[last] == State { cost: nc as i32, node_id: v });
    assert forall|i: int|
        #![trigger f2[i]]
        0 <= i < f2.len() implies {
            &&& 0 <= f2[i].cost < unreachable_cost()
            &&& d2.contains_key(f2[i].node_id)
            &&& d2[f2[i].node_id] <= f2[i].cost
            &&& reaches_with(adj, src, f2[i].node_id, f2[i].cost as int)
            &&& settled.contains(f2[i].node_id as int) ==> d2[f2[i].node_id] < f2[i].cost
        } by {
        if i < last {
            assert(f2[i] == f1[i]);
        }
    }
    assert forall|n: i32| #[trigger] d2.contains_key(n) && !settled.contains(n as int) implies exists|i: int|
        0 <= i < f2.len() && f2[i].cost == d2[n] && f2[i].node_id == n by {
        if n != v {
            let i = choose|i: int| 0 <= i < f1.len() && f1[i].cost == d1[n] && f1[i].node_id == n;
            assert(f2[i] == f1[i]);
        }
    }
    assert forall|i: int, k: int|
        0 <= i < f2.len() && 0 <= k < f2.len() && i != k && #[trigger] f2[i].node_id
            == #[trigger] f2[k].node_id && f2[i].cost == d2[f2[i].node_id]
        implies f2[k].cost != d2[f2[k].node_id] by {
        if i < last {
            assert(f2[i] == f1[i]);
        }
        if k < last {
            assert(f2[k] == f1[k]);
        }
    }
    assert forall|n: i32, i: int| settled.contains(n as int) && 0 <= i < f2.len() implies d2[n]
        <= #[trigger] f2[i].cost && #[trigger] d2.contains_key(n) by {
        if i < last {
            assert(f2[i] == f1[i]);
        }
        assert(d1[n] <= c0);
        assert(d1.contains_key(n));
    }
    assert forall|n: i32| #[trigger] settled.contains(n as int) implies d2[n] == d1[n] by {}
    assert forall|n: i32| #[trigger] d2.contains_key(n) implies 0 <= d2[n] < unreachable_cost() by {
        if n != v {
            assert(d1.contains_key(n));
        }
    }
}

} // verus!
