use vstd::prelude::*;

use crate::components::{SphereConnection, SpherePoint};
use crate::vertex::{GraphNode, VertexBuffer, nodes_wf};

verus! {

/// Node `from` has an adjacency entry towards node `to` (with some cost).
pub open spec fn edge_exists(nodes: Seq<GraphNode>, from: int, to: int) -> bool {
    &&& 0 <= from < nodes.len()
    &&& exists|k: int| 0 <= k < nodes[from].1.len() && (#[trigger] nodes[from].1[k]).0 == to
}

/// A walk through the graph: a non-empty sequence of node indices in which
/// every consecutive pair is joined by a recorded edge.
pub open spec fn valid_index_path(nodes: Seq<GraphNode>, path: Seq<int>) -> bool {
    &&& path.len() >= 1
    &&& forall|k: int| 0 <= k < path.len() ==> 0 <= #[trigger] path[k] < nodes.len()
    &&& forall|k: int| 0 <= k < path.len() - 1 ==> edge_exists(nodes, #[trigger] path[k], path[k + 1])
}

/// Node `finish` can be reached from node `start` along recorded edges.
pub open spec fn reachable(nodes: Seq<GraphNode>, start: int, finish: int) -> bool {
    exists|path: Seq<int>|
        #[trigger] valid_index_path(nodes, path) && path.first() == start && path.last() == finish
}

/// The connection sequence traced by an index path: one connection per
/// consecutive index pair, oriented along the walk.
pub open spec fn path_connections(nodes: Seq<GraphNode>, path: Seq<int>) -> Seq<SphereConnection> {
    Seq::new(
        (path.len() - 1) as nat,
        |k: int| (SphereConnection { start: nodes[path[k]].0, finish: nodes[path[k + 1]].0 }),
    )
}

/// Addition of costs, saturating at the largest representable cost. The
/// search saturates instead of overflowing: a route whose cost exceeds the
/// representable range is simply never preferred over a cheaper one.
pub open spec fn saturating_add(a: u64, b: u64) -> u64 {
    if a + b > u64::MAX {
        u64::MAX
    } else {
        (a + b) as u64
    }
}

/// A walk through the graph together with, for each step, the position of
/// the adjacency entry that the step takes: `picks[k]` indexes the entry of
/// node `path[k]` that leads to `path[k + 1]`.
pub open spec fn costed_path(nodes: Seq<GraphNode>, path: Seq<int>, picks: Seq<int>) -> bool {
    &&& valid_index_path(nodes, path)
    &&& picks.len() == path.len() - 1
    &&& forall|k: int|
        0 <= k < picks.len() ==> 0 <= #[trigger] picks[k] < nodes[path[k]].1.len()
            && nodes[path[k]].1[picks[k]].0 == path[k + 1]
}

/// The total cost of a walk: the saturating sum of the costs of the taken
/// adjacency entries.
pub open spec fn costed_path_cost(nodes: Seq<GraphNode>, path: Seq<int>, picks: Seq<int>) -> u64
    decreases path.len(),
{
    if path.len() <= 1 {
        0
    } else {
        saturating_add(
            costed_path_cost(nodes, path.drop_last(), picks.drop_last()),
            nodes[path[path.len() - 2]].1[picks[picks.len() - 1]].1,
        )
    }
}

/// Every walk along recorded edges can be assigned entry picks: the
/// cost-quantified statements about costed walks therefore cover every
/// valid walk through the graph.
pub proof fn lemma_valid_path_has_picks(nodes: Seq<GraphNode>, path: Seq<int>)
    requires
        valid_index_path(nodes, path),
    ensures
        exists|picks: Seq<int>| #[trigger] costed_path(nodes, path, picks),
    decreases path.len(),
{
    if path.len() == 1 {
        assert(costed_path(nodes, path, Seq::<int>::empty()));
    } else {
        let prefix = path.drop_last();
        assert(forall|j: int| 0 <= j < prefix.len() ==> prefix[j] == path[j]);
        assert(valid_index_path(nodes, prefix));
        lemma_valid_path_has_picks(nodes, prefix);
        let prefix_picks = choose|q: Seq<int>| #[trigger] costed_path(nodes, prefix, q);
        let tail = path.len() - 2;
        assert(edge_exists(nodes, path[tail], path[tail + 1]));
        let pick = choose|k: int|
            0 <= k < nodes[path[tail]].1.len() && (#[trigger] nodes[path[tail]].1[k]).0 == path[
                tail + 1
            ];
        let picks = prefix_picks.push(pick);
        assert forall|j: int|
            0 <= j < picks.len() implies 0 <= #[trigger] picks[j] < nodes[path[j]].1.len()
            && nodes[path[j]].1[picks[j]].0 == path[j + 1] by {
            if j < prefix_picks.len() {
                assert(0 <= prefix_picks[j] < nodes[prefix[j]].1.len());
                assert(nodes[prefix[j]].1[prefix_picks[j]].0 == prefix[j + 1]);
            }
        }
        assert(costed_path(nodes, path, picks));
    }
}

proof fn lemma_saturating_add_assoc(a: u64, b: u64, c: u64)
    ensures
        saturating_add(a, saturating_add(b, c)) == saturating_add(saturating_add(a, b), c),
{
}

/// Dropping steps from the end of a walk never increases its cost.
proof fn lemma_costed_path_cost_prefix(
    nodes: Seq<GraphNode>,
    path: Seq<int>,
    picks: Seq<int>,
    prefix_len: int,
)
    requires
        1 <= prefix_len <= path.len(),
        picks.len() == path.len() - 1,
    ensures
        costed_path_cost(nodes, path.take(prefix_len), picks.take(prefix_len - 1))
            <= costed_path_cost(nodes, path, picks),
    decreases path.len(),
{
    if prefix_len == path.len() {
        assert(path.take(prefix_len) =~= path);
        assert(picks.take(prefix_len - 1) =~= picks);
    } else {
        lemma_costed_path_cost_prefix(nodes, path.drop_last(), picks.drop_last(), prefix_len);
        assert(path.drop_last().take(prefix_len) =~= path.take(prefix_len));
        assert(picks.drop_last().take(prefix_len - 1) =~= picks.take(prefix_len - 1));
    }
}

/// Prepending one step to a walk adds that step's cost at the front.
proof fn lemma_costed_path_cost_prepend(
    nodes: Seq<GraphNode>,
    node: int,
    pick: int,
    path: Seq<int>,
    picks: Seq<int>,
)
    requires
        path.len() >= 1,
        picks.len() == path.len() - 1,
    ensures
        costed_path_cost(nodes, seq![node] + path, seq![pick] + picks) == saturating_add(
            nodes[node].1[pick].1,
            costed_path_cost(nodes, path, picks),
        ),
    decreases path.len(),
{
    let full_path = seq![node] + path;
    let full_picks = seq![pick] + picks;
    if path.len() == 1 {
        assert(full_path.drop_last() =~= seq![node]);
        assert(full_picks.drop_last() =~= Seq::<int>::empty());
        assert(costed_path_cost(nodes, seq![node], Seq::empty()) == 0);
        assert(full_path[full_path.len() - 2] == node);
        assert(full_picks[full_picks.len() - 1] == pick);
    } else {
        lemma_costed_path_cost_prepend(nodes, node, pick, path.drop_last(), picks.drop_last());
        assert(full_path.drop_last() =~= seq![node] + path.drop_last());
        assert(full_picks.drop_last() =~= seq![pick] + picks.drop_last());
        assert(full_path[full_path.len() - 2] == path[path.len() - 2]);
        assert(full_picks[full_picks.len() - 1] == picks[picks.len() - 1]);
        lemma_saturating_add_assoc(
            nodes[node].1[pick].1,
            costed_path_cost(nodes, path.drop_last(), picks.drop_last()),
            nodes[path[path.len() - 2]].1[picks[picks.len() - 1]].1,
        );
    }
}

/// In a walk whose first node satisfies `settled` and whose last node does
/// not, some step crosses the boundary: returns the position of the first
/// node that is not settled.
proof fn first_unsettled_position(settled: Seq<bool>, path: Seq<int>) -> (position: int)
    requires
        path.len() >= 1,
        forall|k: int| 0 <= k < path.len() ==> 0 <= #[trigger] path[k] < settled.len(),
        settled[path.first()],
        !settled[path.last()],
    ensures
        1 <= position < path.len(),
        !settled[path[position]],
        settled[path[position - 1]],
    decreases path.len(),
{
    if !settled[path[1]] {
        1
    } else {
        let rest = path.drop_first();
        assert(forall|k: int| 0 <= k < rest.len() ==> rest[k] == path[k + 1]);
        let position = first_unsettled_position(settled, rest) + 1;
        position
    }
}

/// Node `u` has an adjacency entry towards `v` whose cost explains `v`'s
/// recorded cost: the recorded cost of `v` is the saturating sum of `u`'s
/// recorded cost and that entry's cost.
spec fn parent_step_recorded(
    nodes: Seq<GraphNode>,
    costs: Seq<Option<u64>>,
    u: int,
    v: int,
) -> bool {
    exists|k: int|
        0 <= k < nodes[u].1.len() && (#[trigger] nodes[u].1[k]).0 == v && costs[v]->0
            == saturating_add(costs[u]->0, nodes[u].1[k].1)
}

proof fn lemma_saturating_add_monotone(a1: u64, a2: u64, b: u64)
    requires
        a1 <= a2,
    ensures
        saturating_add(a1, b) <= saturating_add(a2, b),
{
}

/// Every settled node's recorded cost under-approximates the cost of every
/// walk reaching it from the start node.
#[verifier::opaque]
spec fn costs_underapproximate(
    nodes: Seq<GraphNode>,
    costs: Seq<Option<u64>>,
    processed: Seq<bool>,
    start: int,
) -> bool {
    forall|v: int, p: Seq<int>, q: Seq<int>|
        #![trigger processed[v], costed_path(nodes, p, q)]
        0 <= v < nodes.len() && processed[v] && costed_path(nodes, p, q) && p.first() == start
            && p.last() == v ==> costs[v] is Some && costs[v]->0 <= costed_path_cost(nodes, p, q)
}

/// Every node with a recorded cost other than the start node has its cost
/// explained by one adjacency entry out of its recorded predecessor.
#[verifier::opaque]
spec fn parents_explain_costs(
    nodes: Seq<GraphNode>,
    costs: Seq<Option<u64>>,
    parents: Seq<Option<usize>>,
    start: int,
) -> bool {
    forall|v: int|
        0 <= v < nodes.len() && (#[trigger] costs[v]) is Some && v != start
            ==> parent_step_recorded(nodes, costs, parents[v]->0 as int, v)
}

/// Every adjacency entry out of a settled node other than `exception` has
/// been relaxed: its target holds a recorded cost, and an unsettled target's
/// cost is no larger than the settled node's cost plus the entry's cost.
#[verifier::opaque]
spec fn relaxed_edges(
    nodes: Seq<GraphNode>,
    costs: Seq<Option<u64>>,
    processed: Seq<bool>,
    exception: int,
) -> bool {
    forall|u: int, k: int|
        0 <= u < nodes.len() && processed[u] && u != exception && 0 <= k < nodes[u].1.len() ==> costs[(
        #[trigger] nodes[u].1[k]).0] is Some && (!processed[nodes[u].1[k].0]
            ==> costs[nodes[u].1[k].0]->0 <= saturating_add(costs[u]->0, nodes[u].1[k].1))
}

/// Relaxing one adjacency entry of the settled node `current` towards the
/// unsettled node `neighbor` preserves the search's cost invariants.
proof fn lemma_relax_update(
    nodes: Seq<GraphNode>,
    costs: Seq<Option<u64>>,
    parents: Seq<Option<usize>>,
    processed: Seq<bool>,
    start: int,
    current: usize,
    neighbor: usize,
    entry: int,
    child: u64,
)
    requires
        nodes_wf(nodes),
        costs.len() == nodes.len(),
        parents.len() == nodes.len(),
        processed.len() == nodes.len(),
        0 <= start < nodes.len(),
        processed[start],
        (current as int) < nodes.len(),
        processed[current as int],
        (neighbor as int) < nodes.len(),
        !processed[neighbor as int],
        0 <= entry < nodes[current as int].1.len(),
        nodes[current as int].1[entry].0 == neighbor as int,
        costs[current as int] is Some,
        child == saturating_add(costs[current as int]->0, nodes[current as int].1[entry].1),
        costs[neighbor as int] is Some ==> child <= costs[neighbor as int]->0,
        forall|v: int|
            0 <= v < nodes.len() && (#[trigger] parents[v]) is Some ==> 0 <= parents[v]->0
                < nodes.len() && processed[parents[v]->0 as int],
        forall|v: int|
            0 <= v < nodes.len() && (#[trigger] costs[v]) is Some && v != start ==> parents[v] is Some,
        costs_underapproximate(nodes, costs, processed, start),
        parents_explain_costs(nodes, costs, parents, start),
        relaxed_edges(nodes, costs, processed, current as int),
    ensures
        costs_underapproximate(
            nodes,
            costs.update(neighbor as int, Some(child)),
            processed,
            start,
        ),
        parents_explain_costs(
            nodes,
            costs.update(neighbor as int, Some(child)),
            parents.update(neighbor as int, Some(current)),
            start,
        ),
        relaxed_edges(nodes, costs.update(neighbor as int, Some(child)), processed, current as int),
{
    reveal(costs_underapproximate);
    reveal(parents_explain_costs);
    reveal(relaxed_edges);
    let new_costs = costs.update(neighbor as int, Some(child));
    let new_parents = parents.update(neighbor as int, Some(current));
    assert forall|v: int, p: Seq<int>, q: Seq<int>|
        #![trigger processed[v], costed_path(nodes, p, q)]
        0 <= v < nodes.len() && processed[v] && costed_path(nodes, p, q) && p.first() == start
            && p.last() == v implies new_costs[v] is Some && new_costs[v]->0 <= costed_path_cost(
        nodes,
        p,
        q,
    ) by {
        assert(v != neighbor as int);
        assert(new_costs[v] == costs[v]);
    }
    assert forall|v: int|
        0 <= v < nodes.len() && (#[trigger] new_costs[v]) is Some && v != start
        implies parent_step_recorded(nodes, new_costs, new_parents[v]->0 as int, v) by {
        if v == neighbor as int {
            assert(new_parents[v]->0 as int == current as int);
            assert((nodes[current as int].1[entry]).0 == v);
            assert(new_costs[v]->0 == saturating_add(
                new_costs[current as int]->0,
                nodes[current as int].1[entry].1,
            ));
        } else {
            assert(costs[v] is Some);
            assert(parents[v] is Some);
            let u = parents[v]->0 as int;
            assert(0 <= u < nodes.len() && processed[u]);
            assert(parent_step_recorded(nodes, costs, u, v));
            let k0 = choose|k0: int|
                0 <= k0 < nodes[u].1.len() && (#[trigger] nodes[u].1[k0]).0 == v && costs[v]->0
                    == saturating_add(costs[u]->0, nodes[u].1[k0].1);
            assert(processed[u]);
            assert(u != neighbor as int);
            assert(new_parents[v] == parents[v]);
            assert(new_costs[v] == costs[v]);
            assert(new_costs[u] == costs[u]);
            assert((nodes[u].1[k0]).0 == v && new_costs[v]->0 == saturating_add(
                new_costs[u]->0,
                nodes[u].1[k0].1,
            ));
        }
    }
    assert forall|u: int, k: int|
        0 <= u < nodes.len() && processed[u] && u != current as int && 0 <= k < nodes[u].1.len()
        implies new_costs[(#[trigger] nodes[u].1[k]).0] is Some && (!processed[nodes[u].1[k].0]
            ==> new_costs[nodes[u].1[k].0]->0 <= saturating_add(
            new_costs[u]->0,
            nodes[u].1[k].1,
        )) by {
        let t = nodes[u].1[k].0;
        assert(0 <= t < nodes.len());
        assert(costs[t] is Some);
        assert(u != neighbor as int);
        assert(new_costs[u] == costs[u]);
        if t == neighbor as int {
            assert(new_costs[t]->0 == child);
            assert(child <= costs[t]->0);
        } else {
            assert(new_costs[t] == costs[t]);
        }
    }
}

/// Settling the unsettled node `chosen`, which holds the smallest recorded
/// cost among unsettled nodes and whose every settled neighborhood entry has
/// been relaxed, preserves the search's cost invariants.
proof fn lemma_settle_update(
    nodes: Seq<GraphNode>,
    costs: Seq<Option<u64>>,
    processed: Seq<bool>,
    start: int,
    current: usize,
    chosen: usize,
)
    requires
        nodes_wf(nodes),
        costs.len() == nodes.len(),
        processed.len() == nodes.len(),
        0 <= start < nodes.len(),
        processed[start],
        (current as int) < nodes.len(),
        processed[current as int],
        (chosen as int) < nodes.len(),
        !processed[chosen as int],
        costs[chosen as int] is Some,
        forall|k: int|
            0 <= k < nodes[current as int].1.len() ==> costs[(#[trigger] nodes[current as int].1[k]).0] is Some
                && (!processed[nodes[current as int].1[k].0]
                ==> costs[nodes[current as int].1[k].0]->0 <= saturating_add(
                costs[current as int]->0,
                nodes[current as int].1[k].1,
            )),
        forall|v: int|
            0 <= v < nodes.len() && !processed[v] && (#[trigger] costs[v]) is Some
                ==> costs[chosen as int]->0 <= costs[v]->0,
        costs_underapproximate(nodes, costs, processed, start),
        relaxed_edges(nodes, costs, processed, current as int),
    ensures
        costs_underapproximate(nodes, costs, processed.update(chosen as int, true), start),
        relaxed_edges(nodes, costs, processed.update(chosen as int, true), chosen as int),
{
    reveal(costs_underapproximate);
    reveal(relaxed_edges);
    let new_processed = processed.update(chosen as int, true);
    assert forall|u: int, k: int|
        0 <= u < nodes.len() && processed[u] && 0 <= k < nodes[u].1.len() && !processed[(
        #[trigger] nodes[u].1[k]).0] implies costs[nodes[u].1[k].0] is Some && costs[nodes[u].1[k].0]->0
        <= saturating_add(costs[u]->0, nodes[u].1[k].1) by {
        if u != current as int {
            assert(relaxed_edges(nodes, costs, processed, current as int));
        }
    }
    assert forall|v: int, p: Seq<int>, q: Seq<int>|
        #![trigger new_processed[v], costed_path(nodes, p, q)]
        0 <= v < nodes.len() && new_processed[v] && costed_path(nodes, p, q) && p.first() == start
            && p.last() == v implies costs[v] is Some && costs[v]->0 <= costed_path_cost(
        nodes,
        p,
        q,
    ) by {
        if v == chosen as int {
            lemma_settled_minimum(nodes, costs, processed, start, chosen as int, p, q);
        } else {
            assert(processed[v]);
        }
    }
    assert forall|u: int, k: int|
        0 <= u < nodes.len() && new_processed[u] && u != chosen as int && 0 <= k < nodes[u].1.len()
        implies costs[(#[trigger] nodes[u].1[k]).0] is Some && (!new_processed[nodes[u].1[k].0]
            ==> costs[nodes[u].1[k].0]->0 <= saturating_add(
            costs[u]->0,
            nodes[u].1[k].1,
        )) by {
        assert(processed[u]);
        let t = nodes[u].1[k].0;
        if u == current as int {
            assert(costs[t] is Some);
        } else {
            assert(relaxed_edges(nodes, costs, processed, current as int));
        }
        if !new_processed[t] {
            assert(!processed[t]);
        }
    }
}

/// The settling step is sound: when every settled node's cost
/// under-approximates the cost of every walk reaching it from the start,
/// every adjacency entry leading from a settled node to an unsettled one has
/// been relaxed, and `chosen` carries the smallest cost among unsettled
/// nodes with a known cost, then `chosen`'s cost under-approximates the cost
/// of every walk from the start to `chosen`.
proof fn lemma_settled_minimum(
    nodes: Seq<GraphNode>,
    costs: Seq<Option<u64>>,
    processed: Seq<bool>,
    start: int,
    chosen: int,
    path: Seq<int>,
    picks: Seq<int>,
)
    requires
        costs.len() == nodes.len(),
        processed.len() == nodes.len(),
        0 <= start < nodes.len(),
        processed[start],
        0 <= chosen < nodes.len(),
        !processed[chosen],
        costs[chosen] is Some,
        forall|v: int, p: Seq<int>, q: Seq<int>|
            #![trigger processed[v], costed_path(nodes, p, q)]
            0 <= v < nodes.len() && processed[v] && costed_path(nodes, p, q) && p.first() == start
                && p.last() == v ==> costs[v] is Some && costs[v]->0 <= costed_path_cost(
                nodes,
                p,
                q,
            ),
        forall|u: int, k: int|
            0 <= u < nodes.len() && processed[u] && 0 <= k < nodes[u].1.len() && !processed[(
            #[trigger] nodes[u].1[k]).0] ==> costs[nodes[u].1[k].0] is Some && costs[nodes[u].1[k].0]->0
                <= saturating_add(costs[u]->0, nodes[u].1[k].1),
        forall|v: int|
            0 <= v < nodes.len() && !processed[v] && (#[trigger] costs[v]) is Some ==> costs[chosen]->0
                <= costs[v]->0,
        costed_path(nodes, path, picks),
        path.first() == start,
        path.last() == chosen,
    ensures
        costs[chosen]->0 <= costed_path_cost(nodes, path, picks),
{
    let m = first_unsettled_position(processed, path);
    let boundary_prev = path[m - 1];
    let boundary = path[m];
    let pick = picks[m - 1];
    assert(nodes[boundary_prev].1[pick].0 == boundary);
    let prefix = path.take(m);
    let prefix_picks = picks.take(m - 1);
    assert(forall|k: int| 0 <= k < prefix.len() ==> prefix[k] == path[k]);
    assert(costed_path(nodes, prefix, prefix_picks));
    assert(prefix.first() == start && prefix.last() == boundary_prev);
    assert(costs[boundary_prev] is Some && costs[boundary_prev]->0 <= costed_path_cost(
        nodes,
        prefix,
        prefix_picks,
    ));
    assert(costs[boundary] is Some && costs[boundary]->0 <= saturating_add(
        costs[boundary_prev]->0,
        nodes[boundary_prev].1[pick].1,
    ));
    let prefix1 = path.take(m + 1);
    let prefix1_picks = picks.take(m);
    assert(prefix1.drop_last() =~= prefix);
    assert(prefix1_picks.drop_last() =~= prefix_picks);
    assert(prefix1[prefix1.len() - 2] == boundary_prev);
    assert(prefix1_picks[prefix1_picks.len() - 1] == pick);
    assert(costed_path_cost(nodes, prefix1, prefix1_picks) == saturating_add(
        costed_path_cost(nodes, prefix, prefix_picks),
        nodes[boundary_prev].1[pick].1,
    ));
    lemma_saturating_add_monotone(
        costs[boundary_prev]->0,
        costed_path_cost(nodes, prefix, prefix_picks),
        nodes[boundary_prev].1[pick].1,
    );
    lemma_costed_path_cost_prefix(nodes, path, picks, m + 1);
    assert(costs[chosen]->0 <= costs[boundary]->0);
}

/// The first index of a minimal element: the returned index holds a value no
/// larger than any element, and every earlier element is strictly larger.
pub open spec fn first_min_index(distances: Seq<u64>) -> int
    decreases distances.len(),
{
    if distances.len() <= 1 {
        0
    } else {
        let prior = first_min_index(distances.drop_last());
        if distances.last() < distances[prior] {
            distances.len() - 1
        } else {
            prior
        }
    }
}

pub proof fn lemma_first_min_index(distances: Seq<u64>)
    requires
        distances.len() > 0,
    ensures
        0 <= first_min_index(distances) < distances.len(),
        forall|j: int|
            0 <= j < distances.len() ==> distances[first_min_index(distances)] <= #[trigger]
            distances[j],
        forall|j: int|
            0 <= j < first_min_index(distances) ==> #[trigger] distances[j] > distances[
                first_min_index(distances)
            ],
    decreases distances.len(),
{
    if distances.len() > 1 {
        lemma_first_min_index(distances.drop_last());
        assert(forall|j: int|
            0 <= j < distances.len() - 1 ==> #[trigger] distances[j] == distances.drop_last()[j]);
    }
}

/// Index of the graph node nearest to a query point, given the geodesic
/// distance from the query point to each node, in node order. Ties resolve
/// to the lowest node index.
pub fn get_closest_point(distances: &Vec<u64>) -> (index: usize)
    requires
        distances@.len() > 0,
    ensures
        index as int == first_min_index(distances@),
        index < distances@.len(),
        forall|j: int| 0 <= j < distances@.len() ==> distances@[index as int] <= #[trigger]
            distances@[j],
        forall|j: int| 0 <= j < index ==> #[trigger] distances@[j] > distances@[index as int],
{
    let mut index: usize = 0;
    let mut best: u64 = distances[0];
    let mut i: usize = 1;
    while i < distances.len()
        invariant
            1 <= i <= distances@.len(),
            index < i,
            best == distances@[index as int],
            index as int == first_min_index(distances@.take(i as int)),
        decreases distances@.len() - i,
    {
        proof {
            let taken = distances@.take(i + 1);
            assert(taken.drop_last() =~= distances@.take(i as int));
            assert(taken.last() == distances@[i as int]);
        }
        if distances[i] < best {
            best = distances[i];
            index = i;
        }
        i += 1;
    }
    proof {
        assert(distances@.take(i as int) =~= distances@);
        lemma_first_min_index(distances@);
    }
    index
}

/// A set of nodes that is closed under the adjacency relation and contains
/// the first node of a walk contains the walk's last node as well: a path
/// cannot escape a closed set.
proof fn lemma_closed_path_stays(nodes: Seq<GraphNode>, settled: Seq<bool>, path: Seq<int>)
    requires
        nodes_wf(nodes),
        settled.len() == nodes.len(),
        valid_index_path(nodes, path),
        forall|v: int, k: int|
            0 <= v < nodes.len() && settled[v] && 0 <= k < nodes[v].1.len() ==> settled[(#[trigger]
            nodes[v].1[k]).0],
        settled[path.first()],
    ensures
        settled[path.last()],
    decreases path.len(),
{
    if path.len() > 1 {
        assert(edge_exists(nodes, path[0], path[1]));
        let k = choose|k: int|
            0 <= k < nodes[path[0]].1.len() && (#[trigger] nodes[path[0]].1[k]).0 == path[1];
        assert(settled[nodes[path[0]].1[k].0]);
        let rest = path.drop_first();
        assert(forall|j: int| 0 <= j < rest.len() ==> rest[j] == path[j + 1]);
        assert(valid_index_path(nodes, rest));
        lemma_closed_path_stays(nodes, settled, rest);
        assert(rest.last() == path.last());
    }
}

/// Transient state of a single shortest-path search: the table of smallest
/// known costs, the predecessor table used for path reconstruction, the set
/// of settled nodes, and the node settled most recently.
///
/// The ghost fields record the order in which nodes were settled: they tie
/// every predecessor link to a strictly earlier settling step, which bounds
/// the predecessor walk during path reconstruction.
pub struct Dijkstra {
    costs: Vec<Option<u64>>,
    parents: Vec<Option<usize>>,
    start_index: usize,
    finish_index: usize,
    processed: Vec<bool>,
    cheapest_vertex_index: usize,
    settled_set: Ghost<Set<int>>,
    settle_rank: Ghost<Map<int, nat>>,
}

impl Dijkstra {
    /// The node index the search starts from.
    pub closed spec fn start(self) -> int {
        self.start_index as int
    }

    /// The node index the search aims for.
    pub closed spec fn finish(self) -> int {
        self.finish_index as int
    }

    /// The search has recorded a cost for node `v`.
    spec fn known(self, v: int) -> bool {
        self.costs@[v] is Some
    }

    /// Node `v` has been settled: its table entries are final.
    spec fn settled(self, v: int) -> bool {
        self.processed@[v]
    }

    /// The target node has been settled.
    pub closed spec fn finish_settled(self) -> bool {
        self.processed@[self.finish_index as int]
    }

    spec fn lengths_ok(self, nodes: Seq<GraphNode>) -> bool {
        &&& self.costs@.len() == nodes.len()
        &&& self.parents@.len() == nodes.len()
        &&& self.processed@.len() == nodes.len()
        &&& 0 <= self.start() < nodes.len()
        &&& 0 <= self.finish() < nodes.len()
        &&& self.start() != self.finish()
        &&& 0 <= self.cheapest_vertex_index < nodes.len()
    }

    /// Invariant of the search state between relaxation rounds.
    spec fn search_inv(self, nodes: Seq<GraphNode>) -> bool {
        &&& self.lengths_ok(nodes)
        &&& self.settled(self.start())
        &&& self.settled(self.cheapest_vertex_index as int)
        &&& self.parents@[self.start()] is None
        &&& forall|v: int| 0 <= v < nodes.len() && #[trigger] self.settled(v) ==> self.known(v)
        &&& forall|v: int|
            0 <= v < nodes.len() && #[trigger] self.known(v) && v != self.start()
                ==> self.parents@[v] is Some
        &&& forall|v: int|
            0 <= v < nodes.len() && (#[trigger] self.parents@[v]) is Some ==> {
                &&& 0 <= self.parents@[v]->0 < nodes.len()
                &&& self.settled(self.parents@[v]->0 as int)
                &&& edge_exists(nodes, self.parents@[v]->0 as int, v)
            }
        &&& forall|v: int|
            0 <= v < nodes.len() ==> (#[trigger] self.settled(v) <==> self.settled_set@.contains(v))
        &&& forall|v: int| #[trigger] self.settled_set@.contains(v) ==> 0 <= v < nodes.len()
        &&& self.settled_set@.finite()
        &&& self.settled_set@.len() <= nodes.len()
        &&& forall|v: int|
            0 <= v < nodes.len() && #[trigger] self.settled(v) ==> self.settle_rank@.contains_key(v)
                && self.settle_rank@[v] < self.settled_set@.len()
        &&& forall|v: int|
            0 <= v < nodes.len() && #[trigger] self.settled(v) && v != self.start()
                ==> self.settle_rank@[self.parents@[v]->0 as int] < self.settle_rank@[v]
        &&& self.costs@[self.start()] == Some(0u64)
        &&& costs_underapproximate(nodes, self.costs@, self.processed@, self.start())
        &&& parents_explain_costs(nodes, self.costs@, self.parents@, self.start())
        &&& relaxed_edges(nodes, self.costs@, self.processed@, self.cheapest_vertex_index as int)
    }

    /// The state a freshly created search holds for a graph of `n` nodes:
    /// only the start node is settled and known (with cost zero), no
    /// predecessor links exist yet.
    pub closed spec fn is_initial_for(self, n: int) -> bool {
        &&& self.costs@.len() == n
        &&& self.parents@.len() == n
        &&& self.processed@.len() == n
        &&& 0 <= self.start() < n
        &&& 0 <= self.finish() < n
        &&& self.start() != self.finish()
        &&& self.costs@[self.start()] == Some(0u64)
        &&& forall|v: int| 0 <= v < n && v != self.start() ==> (#[trigger] self.costs@[v]) is None
        &&& forall|v: int| 0 <= v < n ==> (#[trigger] self.parents@[v]) is None
        &&& forall|v: int| 0 <= v < n ==> ((#[trigger] self.processed@[v]) <==> v == self.start())
        &&& self.cheapest_vertex_index as int == self.start()
        &&& self.settled_set@ == Set::empty().insert(self.start())
        &&& self.settle_rank@ == Map::<int, nat>::empty().insert(self.start(), 0nat)
    }

    /// Fresh search state for one query on `vertex`, from node `start_index`
    /// to node `finish_index`: the start node is settled with cost zero and
    /// everything else is unexplored.
    pub fn new(start_index: usize, finish_index: usize, vertex: &VertexBuffer) -> (search: Self)
        requires
            start_index < vertex.nodes().len(),
            finish_index < vertex.nodes().len(),
            start_index != finish_index,
        ensures
            search.is_initial_for(vertex.nodes().len() as int),
            search.start() == start_index as int,
            search.finish() == finish_index as int,
    {
        let n = vertex.len();
        let mut costs: Vec<Option<u64>> = Vec::new();
        let mut parents: Vec<Option<usize>> = Vec::new();
        let mut processed: Vec<bool> = Vec::new();
        let mut i: usize = 0;
        while i < n
            invariant
                i <= n,
                costs@.len() == i as int,
                parents@.len() == i as int,
                processed@.len() == i as int,
                forall|v: int| 0 <= v < i ==> (#[trigger] costs@[v]) is None,
                forall|v: int| 0 <= v < i ==> (#[trigger] parents@[v]) is None,
                forall|v: int| 0 <= v < i ==> !(#[trigger] processed@[v]),
            decreases n - i,
        {
            costs.push(None);
            parents.push(None);
            processed.push(false);
            i += 1;
        }
        costs[start_index] = Some(0);
        processed[start_index] = true;
        Self {
            costs,
            parents,
            start_index,
            finish_index,
            processed,
            cheapest_vertex_index: start_index,
            settled_set: Ghost(Set::empty().insert(start_index as int)),
            settle_rank: Ghost(Map::<int, nat>::empty().insert(start_index as int, 0nat)),
        }
    }

    /// One round of the search: relax every adjacency entry of the most
    /// recently settled node, then settle the unsettled node with the
    /// smallest known cost (ties resolve to the lowest node index). Returns
    /// `false` when no unsettled node with a known cost is left: the
    /// reachable part of the graph is exhausted.
    #[verifier::loop_isolation(false)]
    #[verifier::rlimit(100)]
    #[verifier::spinoff_prover]
    fn relax_and_settle(&mut self, vertex: &VertexBuffer) -> (settled_one: bool)
        requires
            vertex.wf(),
            old(self).search_inv(vertex.nodes()),
        ensures
            final(self).search_inv(vertex.nodes()),
            final(self).start_index == old(self).start_index,
            final(self).finish_index == old(self).finish_index,
            settled_one ==> final(self).settled_set@.len() == old(self).settled_set@.len() + 1,
            !settled_one ==> final(self).settled_set@ == old(self).settled_set@,
            !settled_one ==> final(self).processed@ == old(self).processed@ && ((forall|v: int|
                0 <= v < vertex.nodes().len() && #[trigger] final(self).known(v)
                    ==> final(self).settled(v)) && (forall|v: int, k: int|
                0 <= v < vertex.nodes().len() && final(self).settled(v) && 0 <= k
                    < vertex.nodes()[v].1.len() ==> final(self).known(
                    (#[trigger] vertex.nodes()[v].1[k]).0,
                ))),
    {
        let ghost nodes = vertex.nodes();
        let current = self.cheapest_vertex_index;
        let ghost pre = *self;
        let neighbor_count = vertex.vector[current].graphs.len();
        proof {
            assert(nodes[current as int].1.len() == neighbor_count as int);
        }
        let mut k: usize = 0;
        while k < neighbor_count
            invariant
                k <= neighbor_count,
                neighbor_count as int == nodes[current as int].1.len(),
                self.search_inv(nodes),
                self.cheapest_vertex_index == pre.cheapest_vertex_index,
                self.processed@ == pre.processed@,
                self.settled_set@ == pre.settled_set@,
                self.settle_rank@ == pre.settle_rank@,
                self.start_index == pre.start_index,
                self.finish_index == pre.finish_index,
                forall|j: int|
                    0 <= j < k ==> self.known((#[trigger] nodes[current as int].1[j]).0),
                forall|j: int|
                    0 <= j < k && !self.settled((#[trigger] nodes[current as int].1[j]).0)
                        ==> self.costs@[nodes[current as int].1[j].0]->0 <= saturating_add(
                        self.costs@[current as int]->0,
                        nodes[current as int].1[j].1,
                    ),
                forall|v: int| 0 <= v < nodes.len() && pre.known(v) ==> self.known(v),
            decreases neighbor_count - k,
        {
            let ghost head = *self;
            let relation = vertex.vector[current].graphs[k];
            let neighbor = relation.vertex_index;
            proof {
                assert(nodes[current as int].1[k as int] == relation@);
                assert((neighbor as int) < nodes.len());
            }
            if !self.processed[neighbor] {
                proof {
                    assert(self.settled(current as int));
                    assert(self.known(current as int));
                    assert(!self.settled(neighbor as int));
                    assert(neighbor as int != self.start());
                }
                let parent_cost = self.costs[current].unwrap();
                let child_cost = if parent_cost > u64::MAX - relation.cost {
                    u64::MAX
                } else {
                    parent_cost + relation.cost
                };
                let should_update = match self.costs[neighbor] {
                    Some(existing) => existing > child_cost,
                    None => true,
                };
                if should_update {
                    self.costs[neighbor] = Some(child_cost);
                    self.parents[neighbor] = Some(current);
                    proof {
                        assert(edge_exists(nodes, current as int, neighbor as int));
                        assert(self.known(neighbor as int));
                        assert(current as int != neighbor as int);
                        assert(self.costs@[current as int] == head.costs@[current as int]);
                        assert(child_cost == saturating_add(
                            parent_cost,
                            nodes[current as int].1[k as int].1,
                        ));
                        assert(self.costs@[neighbor as int]->0 == saturating_add(
                            self.costs@[current as int]->0,
                            nodes[current as int].1[k as int].1,
                        ));
                        assert forall|v2: int|
                            0 <= v2 < nodes.len() && (#[trigger] head.costs@[v2]) is Some && v2
                                != head.start() implies head.parents@[v2] is Some by {
                            assert(head.known(v2));
                        }
                        lemma_relax_update(
                            nodes,
                            head.costs@,
                            head.parents@,
                            head.processed@,
                            head.start(),
                            current,
                            neighbor,
                            k as int,
                            child_cost,
                        );
                        assert(self.costs@ == head.costs@.update(
                            neighbor as int,
                            Some(child_cost),
                        ));
                        assert(self.parents@ == head.parents@.update(
                            neighbor as int,
                            Some(current),
                        ));
                        assert forall|j: int|
                            0 <= j < k + 1 && !self.settled((#[trigger] nodes[current as int].1[j]).0)
                            implies self.costs@[nodes[current as int].1[j].0]->0
                            <= saturating_add(
                            self.costs@[current as int]->0,
                            nodes[current as int].1[j].1,
                        ) by {
                            let t = nodes[current as int].1[j].0;
                            if j < k {
                                if t == neighbor as int {
                                    assert(head.costs@[t] is Some);
                                    assert(child_cost <= head.costs@[t]->0);
                                } else {
                                    assert(self.costs@[t] == head.costs@[t]);
                                }
                            }
                        }
                    }
                } else {
                    proof {
                        assert(self.known(neighbor as int));
                        assert(self.costs@[neighbor as int]->0 <= child_cost);
                        assert(self.costs@[neighbor as int]->0 <= saturating_add(
                            self.costs@[current as int]->0,
                            nodes[current as int].1[k as int].1,
                        ));
                    }
                }
            } else {
                proof {
                    assert(self.settled(neighbor as int));
                    assert(self.known(neighbor as int));
                }
            }
            proof {
                assert(self.processed@ == head.processed@);
                assert forall|v: int|
                    0 <= v < nodes.len() && #[trigger] self.settled(v) implies self.known(
                    v,
                ) by {
                    assert(head.settled(v));
                    assert(head.known(v));
                    assert(v != neighbor as int ==> self.costs@[v] == head.costs@[v]);
                }
                assert forall|v: int|
                    0 <= v < nodes.len() && #[trigger] self.known(v) && v != self.start()
                    implies self.parents@[v] is Some by {
                    if v != neighbor as int {
                        assert(head.known(v));
                    }
                }
                assert forall|v: int|
                    0 <= v < nodes.len() && (#[trigger] self.parents@[v]) is Some implies {
                    &&& 0 <= self.parents@[v]->0 < nodes.len()
                    &&& self.settled(self.parents@[v]->0 as int)
                    &&& edge_exists(nodes, self.parents@[v]->0 as int, v)
                } by {
                    if self.parents@[v] == head.parents@[v] {
                        assert(head.parents@[v] is Some);
                        assert(head.settled(head.parents@[v]->0 as int));
                    } else {
                        assert(v == neighbor as int);
                        assert(self.parents@[v] == Some(current));
                        assert(head.settled(current as int));
                    }
                }
                assert forall|v: int|
                    0 <= v < nodes.len() implies (#[trigger] self.settled(v)
                    <==> self.settled_set@.contains(v)) by {
                    assert(head.settled(v) <==> head.settled_set@.contains(v));
                }
                assert forall|v: int|
                    0 <= v < nodes.len() && #[trigger] self.settled(v) implies self
                    .settle_rank@.contains_key(v) && self.settle_rank@[v]
                    < self.settled_set@.len() by {
                    assert(head.settled(v));
                }
                assert forall|v: int|
                    0 <= v < nodes.len() && #[trigger] self.settled(v) && v != self.start()
                    implies self.settle_rank@[self.parents@[v]->0 as int]
                    < self.settle_rank@[v] by {
                    assert(head.settled(v));
                    if !head.settled(neighbor as int) {
                        assert(v != neighbor as int);
                    }
                    assert(self.parents@[v] == head.parents@[v]);
                }
            }
            k += 1;
        }
        let mut min_value_index: Option<usize> = None;
        let mut min_cost: u64 = 0;
        let mut v: usize = 0;
        while v < self.costs.len()
            invariant
                v <= self.costs@.len(),
                match min_value_index {
                    Some(m) => m < v && !self.settled(m as int) && self.costs@[m as int]
                        == Some(min_cost) && forall|j: int|
                        0 <= j < v && !self.settled(j) && (#[trigger] self.costs@[j]) is Some
                            ==> min_cost <= self.costs@[j]->0,
                    None => forall|j: int|
                        0 <= j < v && !self.settled(j) ==> (#[trigger] self.costs@[j]) is None,
                },
            decreases self.costs@.len() - v,
        {
            if !self.processed[v] {
                match self.costs[v] {
                    Some(c) => {
                        let better = match min_value_index {
                            Some(_) => min_cost > c,
                            None => true,
                        };
                        if better {
                            min_cost = c;
                            min_value_index = Some(v);
                        }
                    },
                    None => {},
                }
            }
            v += 1;
        }
        match min_value_index {
            Some(x) => {
                let ghost before = *self;
                proof {
                    assert(before.known(x as int));
                    assert(!before.settled(x as int));
                    assert(x as int != before.start());
                    assert(before.parents@[x as int] is Some);
                }
                self.cheapest_vertex_index = x;
                self.processed[x] = true;
                let ghost new_rank = self.settled_set@.len();
                self.settle_rank = Ghost(self.settle_rank@.insert(x as int, new_rank));
                self.settled_set = Ghost(self.settled_set@.insert(x as int));
                proof {
                    broadcast use vstd::set::group_set_axioms;

                    reveal(relaxed_edges);
                    assert(!before.settled_set@.contains(x as int));
                    assert(self.settled_set@.len() == before.settled_set@.len() + 1);
                    let range = vstd::set_lib::set_int_range(0, nodes.len() as int);
                    assert(self.settled_set@.subset_of(range));
                    vstd::set_lib::lemma_int_range(0, nodes.len() as int);
                    vstd::set_lib::lemma_len_subset(self.settled_set@, range);
                    assert forall|v: int|
                        0 <= v < nodes.len() && #[trigger] self.settled(v) implies self.known(
                        v,
                    ) by {
                        if v != x as int {
                            assert(before.settled(v));
                        }
                    }
                    assert forall|v: int|
                        0 <= v < nodes.len() && #[trigger] self.known(v) && v != self.start()
                        implies self.parents@[v] is Some by {
                        assert(before.known(v));
                    }
                    assert forall|v: int|
                        0 <= v < nodes.len() implies (#[trigger] self.settled(v)
                        <==> self.settled_set@.contains(v)) by {
                        if v != x as int {
                            assert(before.settled(v) <==> before.settled_set@.contains(v));
                        }
                    }
                    assert forall|v: int|
                        0 <= v < nodes.len() && #[trigger] self.settled(v) implies self
                        .settle_rank@.contains_key(v) && self.settle_rank@[v]
                        < self.settled_set@.len() by {
                        if v != x as int {
                            assert(before.settled(v));
                            assert(before.settle_rank@[v] < before.settled_set@.len());
                        }
                    }
                    assert forall|v: int|
                        0 <= v < nodes.len() && #[trigger] self.settled(v) && v != self.start()
                        implies self.settle_rank@[self.parents@[v]->0 as int]
                        < self.settle_rank@[v] by {
                        if v == x as int {
                            let u = self.parents@[v]->0 as int;
                            assert(before.settled(u));
                            assert(u != x as int);
                            assert(self.settle_rank@[u] == before.settle_rank@[u]);
                            assert(before.settle_rank@[u] < before.settled_set@.len());
                        } else {
                            assert(before.settled(v));
                            let u = self.parents@[v]->0 as int;
                            assert(before.settled(u));
                            assert(u != x as int && v != x as int);
                        }
                    }
                    assert forall|k2: int|
                        0 <= k2 < nodes[current as int].1.len() implies before.costs@[(
                    #[trigger] nodes[current as int].1[k2]).0] is Some && (!before.processed@[
                    nodes[current as int].1[k2].0] ==> before.costs@[nodes[current as int].1[k2].0]->0
                        <= saturating_add(
                        before.costs@[current as int]->0,
                        nodes[current as int].1[k2].1,
                    )) by {
                        assert(before.known(nodes[current as int].1[k2].0));
                        if !before.settled(nodes[current as int].1[k2].0) {
                            assert(before.costs@[nodes[current as int].1[k2].0]->0
                                <= saturating_add(
                                before.costs@[current as int]->0,
                                nodes[current as int].1[k2].1,
                            ));
                        }
                    }
                    assert forall|w: int|
                        0 <= w < nodes.len() && !before.processed@[w] && (#[trigger]
                    before.costs@[w]) is Some implies before.costs@[x as int]->0
                        <= before.costs@[w]->0 by {
                        assert(before.known(w) && !before.settled(w));
                    }
                    lemma_settle_update(
                        nodes,
                        before.costs@,
                        before.processed@,
                        before.start(),
                        current,
                        x,
                    );
                    assert(self.processed@ == before.processed@.update(x as int, true));
                    assert(self.costs@ == before.costs@);
                    assert(self.parents@ == before.parents@);
                    assert(self.search_inv(nodes));
                }
                true
            },
            None => {
                proof {
                    reveal(relaxed_edges);
                    assert forall|v2: int, k2: int|
                        0 <= v2 < nodes.len() && self.settled(v2) && 0 <= k2 < nodes[v2].1.len()
                        implies self.known((#[trigger] nodes[v2].1[k2]).0) by {
                        if v2 == current as int {
                            assert(self.known(nodes[current as int].1[k2].0));
                        } else {
                            assert(self.processed@[v2]);
                            assert(self.costs@[nodes[v2].1[k2].0] is Some);
                        }
                    }
                    assert forall|v2: int|
                        0 <= v2 < nodes.len() && #[trigger] self.known(v2) implies self.settled(
                        v2,
                    ) by {
                        if !self.settled(v2) {
                            assert(self.costs@[v2] is None);
                        }
                    }
                }
                false
            },
        }
    }

    /// The label-correcting search: repeatedly relax the neighbors of the
    /// most recently settled node, then settle the unsettled node with the
    /// smallest known cost (ties resolve to the lowest node index), until the
    /// target node is settled or no unsettled node with a known cost is left.
    /// In the latter case the target is unreachable from the start node.
    #[verifier::loop_isolation(false)]
    #[verifier::rlimit(100)]
    #[verifier::spinoff_prover]
    fn search_for_shortest_path_in_vertex(&mut self, vertex: &VertexBuffer)
        requires
            vertex.wf(),
            old(self).is_initial_for(vertex.nodes().len() as int),
        ensures
            final(self).search_inv(vertex.nodes()),
            final(self).start() == old(self).start(),
            final(self).finish() == old(self).finish(),
            !final(self).finish_settled() ==> !reachable(
                vertex.nodes(),
                old(self).start(),
                old(self).finish(),
            ),
    {
        let ghost nodes = vertex.nodes();
        proof {
            broadcast use vstd::set::group_set_axioms;

            reveal(costs_underapproximate);
            reveal(parents_explain_costs);
            reveal(relaxed_edges);
            assert(self.settled_set@.len() == 1);
            assert(self.search_inv(nodes));
        }
        let mut exhausted = false;
        while !exhausted && !self.processed[self.finish_index]
            invariant
                self.search_inv(nodes),
                self.start_index == old(self).start_index,
                self.finish_index == old(self).finish_index,
                exhausted ==> ((forall|v: int|
                    0 <= v < nodes.len() && #[trigger] self.known(v) ==> self.settled(v)) && (
                forall|v: int, k: int|
                    0 <= v < nodes.len() && self.settled(v) && 0 <= k < nodes[v].1.len()
                        ==> self.known((#[trigger] nodes[v].1[k]).0))),
            decreases nodes.len() - self.settled_set@.len(), (if exhausted { 0int } else { 1int }),
        {
            let settled_one = self.relax_and_settle(vertex);
            if !settled_one {
                exhausted = true;
            }
        }
        proof {
            if !self.processed@[self.finish_index as int] {
                let start = old(self).start();
                let finish = old(self).finish();
                assert(!reachable(nodes, start, finish)) by {
                    if reachable(nodes, start, finish) {
                        let path = choose|path: Seq<int>|
                            #[trigger] valid_index_path(nodes, path) && path.first() == start
                                && path.last() == finish;
                        lemma_closed_path_stays(nodes, self.processed@, path);
                    }
                }
            }
        }
    }

    /// Runs the search, then reconstructs the ordered connection sequence by
    /// walking the predecessor table backwards from the finish node and
    /// reversing the collected segments. Returns `None` exactly when the
    /// finish node is unreachable from the start node.
    #[verifier::loop_isolation(false)]
    pub fn calculate_path(&mut self, vertex: &VertexBuffer) -> (result: Option<
        Vec<SphereConnection>,
    >)
        requires
            vertex.wf(),
            old(self).is_initial_for(vertex.nodes().len() as int),
        ensures
            result is Some <==> reachable(vertex.nodes(), old(self).start(), old(self).finish()),
            match result {
                Some(path) => exists|indices: Seq<int>, picks: Seq<int>|
                    {
                        &&& #[trigger] costed_path(vertex.nodes(), indices, picks)
                        &&& indices.first() == old(self).start()
                        &&& indices.last() == old(self).finish()
                        &&& path@ == path_connections(vertex.nodes(), indices)
                        &&& forall|other: Seq<int>, other_picks: Seq<int>|
                            #[trigger] costed_path(vertex.nodes(), other, other_picks)
                                && other.first() == old(self).start() && other.last() == old(
                                self,
                            ).finish() ==> costed_path_cost(vertex.nodes(), indices, picks)
                                <= costed_path_cost(vertex.nodes(), other, other_picks)
                    },
                None => !reachable(vertex.nodes(), old(self).start(), old(self).finish()),
            },
    {
        let ghost nodes = vertex.nodes();
        self.search_for_shortest_path_in_vertex(vertex);
        if !self.processed[self.finish_index] {
            return None;
        }
        let mut backwards: Vec<SphereConnection> = Vec::new();
        let mut actual_index_from_parent: usize = self.finish_index;
        let ghost mut indices: Seq<int> = seq![old(self).finish()];
        let ghost mut picks: Seq<int> = Seq::empty();
        let mut current_end_point: SpherePoint = vertex.vector[self.finish_index].coordinates;
        while actual_index_from_parent != self.start_index
            invariant
                self.settled(actual_index_from_parent as int),
                actual_index_from_parent < nodes.len(),
                valid_index_path(nodes, indices),
                costed_path(nodes, indices, picks),
                indices.first() == actual_index_from_parent as int,
                indices.last() == old(self).finish(),
                current_end_point == nodes[actual_index_from_parent as int].0,
                backwards@ == path_connections(nodes, indices).reverse(),
                saturating_add(
                    self.costs@[actual_index_from_parent as int]->0,
                    costed_path_cost(nodes, indices, picks),
                ) == self.costs@[old(self).finish()]->0,
            decreases self.settle_rank@[actual_index_from_parent as int],
        {
            proof {
                assert(self.known(actual_index_from_parent as int));
            }
            let parent = self.parents[actual_index_from_parent].unwrap();
            proof {
                assert(self.settled(parent as int));
                let actual = actual_index_from_parent as int;
                assert(self.settle_rank@[parent as int] < self.settle_rank@[actual]);
                assert(edge_exists(nodes, parent as int, actual_index_from_parent as int));
            }
            let current_start_point = vertex.vector[parent].coordinates;
            backwards.push(SphereConnection::new(current_start_point, current_end_point));
            proof {
                reveal(parents_explain_costs);
                let actual = actual_index_from_parent as int;
                assert(parent_step_recorded(nodes, self.costs@, parent as int, actual));
                let pick = choose|pick: int|
                    0 <= pick < nodes[parent as int].1.len() && (#[trigger] nodes[parent as int].1[pick]).0
                        == actual && self.costs@[actual]->0 == saturating_add(
                        self.costs@[parent as int]->0,
                        nodes[parent as int].1[pick].1,
                    );
                let extended = seq![parent as int] + indices;
                let extended_picks = seq![pick] + picks;
                assert(forall|j: int| 0 <= j < indices.len() ==> extended[j + 1] == indices[j]);
                assert(forall|j: int| 0 <= j < picks.len() ==> extended_picks[j + 1] == picks[j]);
                assert(extended.first() == parent as int);
                assert(valid_index_path(nodes, extended));
                assert(costed_path(nodes, extended, extended_picks));
                assert(path_connections(nodes, extended) =~= seq![
                    (SphereConnection {
                        start: nodes[parent as int].0,
                        finish: nodes[actual_index_from_parent as int].0,
                    }),
                ] + path_connections(nodes, indices));
                assert(backwards@ =~= path_connections(nodes, extended).reverse());
                lemma_costed_path_cost_prepend(nodes, parent as int, pick, indices, picks);
                lemma_saturating_add_assoc(
                    self.costs@[parent as int]->0,
                    nodes[parent as int].1[pick].1,
                    costed_path_cost(nodes, indices, picks),
                );
                assert(saturating_add(
                    self.costs@[parent as int]->0,
                    costed_path_cost(nodes, extended, extended_picks),
                ) == self.costs@[old(self).finish()]->0);
                indices = extended;
                picks = extended_picks;
            }
            current_end_point = current_start_point;
            actual_index_from_parent = parent;
        }
        let mut result: Vec<SphereConnection> = Vec::new();
        let mut remaining = backwards.len();
        while remaining > 0
            invariant
                remaining <= backwards@.len(),
                result@.len() == backwards@.len() - remaining,
                forall|j: int|
                    0 <= j < result@.len() ==> result@[j] == backwards@[backwards@.len() - 1 - j],
            decreases remaining,
        {
            remaining -= 1;
            result.push(backwards[remaining]);
        }
        proof {
            assert(result@ =~= path_connections(nodes, indices));
            assert(self.costs@[old(self).start()] == Some(0u64));
            assert(costed_path_cost(nodes, indices, picks) == self.costs@[old(self).finish()]->0);
            reveal(costs_underapproximate);
            assert forall|other: Seq<int>, other_picks: Seq<int>|
                #[trigger] costed_path(nodes, other, other_picks) && other.first() == old(
                self,
            ).start() && other.last() == old(self).finish() implies costed_path_cost(
                nodes,
                indices,
                picks,
            ) <= costed_path_cost(nodes, other, other_picks) by {
                assert(self.processed@[old(self).finish()]);
                assert(self.costs@[old(self).finish()]->0 <= costed_path_cost(
                    nodes,
                    other,
                    other_picks,
                ));
            }
            assert(costed_path(nodes, indices, picks) && indices.first() == old(self).start()
                && indices.last() == old(self).finish() && result@ == path_connections(
                nodes,
                indices,
            ));
            assert(valid_index_path(nodes, indices));
            assert(reachable(nodes, old(self).start(), old(self).finish()));
        }
        Some(result)
    }
}

/// Finds the minimum-cost route between the graph nodes nearest to two raw
/// query points.
///
/// The caller supplies, for each query point, the geodesic distance from
/// that point to every graph node, in node order and in any fixed linear
/// unit (`start_distances[i]` is the distance from `start` to node `i`).
/// Each query point resolves to its nearest node, ties going to the lowest
/// node index.
///
/// Absence is a normal result, never an error. `None` is returned when the
/// two raw points are equal, when the graph has no nodes, when both points
/// resolve to the same nearest node ("already there"), or when the graph is
/// disconnected between the two resolved nodes; otherwise the reconstructed
/// connection sequence from the start node to the finish node is returned.
pub fn find_shortest_path(
    start: &SpherePoint,
    finish: &SpherePoint,
    vertex: &VertexBuffer,
    start_distances: &Vec<u64>,
    finish_distances: &Vec<u64>,
) -> (result: Option<Vec<SphereConnection>>)
    requires
        vertex.wf(),
        start_distances@.len() == vertex.nodes().len(),
        finish_distances@.len() == vertex.nodes().len(),
    ensures
        ({
            let nodes = vertex.nodes();
            let start_node = first_min_index(start_distances@);
            let finish_node = first_min_index(finish_distances@);
            if *start == *finish || nodes.len() == 0 || start_node == finish_node {
                result is None
            } else {
                &&& (result is Some <==> reachable(nodes, start_node, finish_node))
                &&& match result {
                    Some(path) => exists|indices: Seq<int>, picks: Seq<int>|
                        {
                            &&& #[trigger] costed_path(nodes, indices, picks)
                            &&& indices.first() == start_node
                            &&& indices.last() == finish_node
                            &&& path@ == path_connections(nodes, indices)
                            &&& forall|other: Seq<int>, other_picks: Seq<int>|
                                #[trigger] costed_path(nodes, other, other_picks) && other.first()
                                    == start_node && other.last() == finish_node
                                    ==> costed_path_cost(nodes, indices, picks)
                                    <= costed_path_cost(nodes, other, other_picks)
                        },
                    None => !reachable(nodes, start_node, finish_node),
                }
            }
        }),
{
    if *start == *finish || vertex.len() == 0 {
        return None;
    }
    let start_index = get_closest_point(start_distances);
    let finish_index = get_closest_point(finish_distances);
    if start_index == finish_index {
        return None;
    }
    let mut dijkstra = Dijkstra::new(start_index, finish_index, vertex);
    dijkstra.calculate_path(vertex)
}

} // verus!
