use vstd::prelude::*;

use crate::components::{SphereConnection, SpherePoint};
use crate::data::CelestialObject;
use crate::errors::ErrorKind;

verus! {

/// Mathematical picture of one graph node: its coordinates together with its
/// adjacency list as (neighbor index, cost) pairs.
pub type GraphNode = (SpherePoint, Seq<(int, u64)>);

/// One adjacency entry of a graph node: the index of a neighboring node in
/// the owning [`VertexBuffer`], and the travel cost of the edge between them.
#[derive(Clone, Copy, Debug, PartialEq, Eq, Structural)]
pub struct GraphRelation {
    pub vertex_index: usize,
    pub cost: u64,
}

impl GraphRelation {
    pub fn new(vertex_index: usize, cost: u64) -> (relation: Self)
        ensures
            relation == (GraphRelation { vertex_index, cost }),
    {
        Self { vertex_index, cost }
    }
}

impl View for GraphRelation {
    type V = (int, u64);

    open spec fn view(&self) -> (int, u64) {
        (self.vertex_index as int, self.cost)
    }
}

/// One node of the graph: a coordinate pair and the relations to the nodes
/// it is directly connected with.
#[derive(Clone, Debug)]
pub struct VertexSpherePoint {
    pub coordinates: SpherePoint,
    pub graphs: Vec<GraphRelation>,
}

impl VertexSpherePoint {
    fn new(coordinates: SpherePoint) -> (node: Self)
        ensures
            node@ == ((coordinates, Seq::<(int, u64)>::empty())),
    {
        let graphs = Vec::new();
        Self { coordinates, graphs }
    }

    fn has_point(&self, other: &SpherePoint) -> (same: bool)
        ensures
            same == (self.coordinates == *other),
    {
        self.coordinates == *other
    }
}

impl View for VertexSpherePoint {
    type V = GraphNode;

    open spec fn view(&self) -> GraphNode {
        (self.coordinates, self.graphs@.map_values(|relation: GraphRelation| relation@))
    }
}

/// Whether some node of `nodes` carries the coordinates `point`.
pub open spec fn contains_coords(nodes: Seq<GraphNode>, point: SpherePoint) -> bool {
    exists|i: int| 0 <= i < nodes.len() && (#[trigger] nodes[i]).0 == point
}

/// The first index of `nodes` whose coordinates equal `point`, or
/// `nodes.len()` when no node carries them.
pub open spec fn index_of_coords(nodes: Seq<GraphNode>, point: SpherePoint) -> int
    decreases nodes.len(),
{
    if nodes.len() == 0 {
        0
    } else if nodes.first().0 == point {
        0
    } else {
        1 + index_of_coords(nodes.drop_first(), point)
    }
}

/// `nodes`, extended with a fresh node for `point` (with an empty adjacency
/// list) when no node carries those coordinates yet.
pub open spec fn add_node_if_absent(nodes: Seq<GraphNode>, point: SpherePoint) -> Seq<GraphNode> {
    if contains_coords(nodes, point) {
        nodes
    } else {
        nodes.push((point, Seq::empty()))
    }
}

/// Whether an adjacency list already records an edge towards `neighbor`.
pub open spec fn has_relation(graphs: Seq<(int, u64)>, neighbor: int) -> bool {
    exists|k: int| 0 <= k < graphs.len() && (#[trigger] graphs[k]).0 == neighbor
}

/// `nodes`, with the entry `(to, cost)` appended to node `from`'s adjacency
/// list unless that node already records an edge towards `to` (re-insertion
/// of the same logical edge is idempotent, keeping the first cost).
pub open spec fn add_relation(nodes: Seq<GraphNode>, from: int, to: int, cost: u64) -> Seq<GraphNode>
    recommends
        0 <= from < nodes.len(),
{
    if has_relation(nodes[from].1, to) {
        nodes
    } else {
        nodes.update(from, (nodes[from].0, nodes[from].1.push((to, cost))))
    }
}

/// The effect of folding one connection with its cost into the node list:
/// both endpoints are looked up (appending fresh nodes where absent), then
/// the edge is recorded symmetrically in both adjacency lists.
pub open spec fn apply_connection(
    nodes: Seq<GraphNode>,
    connection: SphereConnection,
    cost: u64,
) -> Seq<GraphNode> {
    let start_index = index_of_coords(nodes, connection.start);
    let with_start = add_node_if_absent(nodes, connection.start);
    let finish_index = index_of_coords(with_start, connection.finish);
    let with_both = add_node_if_absent(with_start, connection.finish);
    add_relation(add_relation(with_both, start_index, finish_index, cost), finish_index, start_index, cost)
}

/// The node list obtained by folding every connection, in input order, into
/// an initially empty graph.
pub open spec fn build_nodes(connections: Seq<SphereConnection>, costs: Seq<u64>) -> Seq<GraphNode>
    decreases connections.len(),
{
    if connections.len() == 0 {
        Seq::empty()
    } else {
        apply_connection(
            build_nodes(connections.drop_last(), costs.drop_last()),
            connections.last(),
            costs.last(),
        )
    }
}

/// A connection list is acceptable input for graph construction when it is
/// non-empty and no connection is a self-loop.
pub open spec fn connections_correct(connections: Seq<SphereConnection>) -> bool {
    &&& connections.len() > 0
    &&& forall|i: int|
        0 <= i < connections.len() ==> (#[trigger] connections[i]).start != connections[i].finish
}

/// Every adjacency entry points at a valid node index.
pub open spec fn nodes_wf(nodes: Seq<GraphNode>) -> bool {
    forall|i: int, k: int|
        0 <= i < nodes.len() && 0 <= k < nodes[i].1.len()
            ==> 0 <= (#[trigger] nodes[i].1[k]).0 < nodes.len()
}

/// Node `from` records an edge towards node `to` with cost `cost`.
pub open spec fn relation_recorded(nodes: Seq<GraphNode>, from: int, to: int, cost: u64) -> bool {
    &&& 0 <= from < nodes.len()
    &&& exists|k: int| 0 <= k < nodes[from].1.len() && (#[trigger] nodes[from].1[k]) == ((to, cost))
}

/// The adjacency relation is symmetric: whenever node `i` records an edge
/// towards node `j` with some cost, node `j` records an edge back towards
/// node `i` with the same cost.
pub open spec fn adjacency_symmetric(nodes: Seq<GraphNode>) -> bool {
    forall|i: int, k: int|
        0 <= i < nodes.len() && 0 <= k < nodes[i].1.len()
            ==> relation_recorded(nodes, (#[trigger] nodes[i].1[k]).0, i, nodes[i].1[k].1)
}

/// No coordinate pair produces two distinct node entries.
pub open spec fn coords_distinct(nodes: Seq<GraphNode>) -> bool {
    forall|i: int, j: int|
        0 <= i < nodes.len() && 0 <= j < nodes.len() && i != j
            ==> (#[trigger] nodes[i]).0 != (#[trigger] nodes[j]).0
}

/// The coordinates of the nodes, in node order.
pub open spec fn coords_of(nodes: Seq<GraphNode>) -> Seq<SpherePoint> {
    nodes.map_values(|node: GraphNode| node.0)
}

/// `points` with `point` appended unless already present.
pub open spec fn insert_new_point(points: Seq<SpherePoint>, point: SpherePoint) -> Seq<SpherePoint> {
    if points.contains(point) {
        points
    } else {
        points.push(point)
    }
}

/// The distinct coordinates occurring among the connections' endpoints, in
/// first-occurrence order (each connection contributes start, then finish).
pub open spec fn distinct_points(connections: Seq<SphereConnection>) -> Seq<SpherePoint>
    decreases connections.len(),
{
    if connections.len() == 0 {
        Seq::empty()
    } else {
        insert_new_point(
            insert_new_point(distinct_points(connections.drop_last()), connections.last().start),
            connections.last().finish,
        )
    }
}

/// All endpoints of the connections, in order, with repetitions.
pub open spec fn endpoints(connections: Seq<SphereConnection>) -> Seq<SpherePoint>
    decreases connections.len(),
{
    if connections.len() == 0 {
        Seq::empty()
    } else {
        endpoints(connections.drop_last()).push(connections.last().start).push(
            connections.last().finish,
        )
    }
}

/// `index_of_coords` finds the first node carrying `point`, and equals the
/// node count exactly when no node carries `point`.
pub proof fn lemma_index_of_coords(nodes: Seq<GraphNode>, point: SpherePoint)
    ensures
        0 <= index_of_coords(nodes, point) <= nodes.len(),
        index_of_coords(nodes, point) < nodes.len() ==> nodes[index_of_coords(nodes, point)].0
            == point,
        forall|j: int| 0 <= j < index_of_coords(nodes, point) ==> (#[trigger] nodes[j]).0 != point,
        (index_of_coords(nodes, point) < nodes.len()) == contains_coords(nodes, point),
    decreases nodes.len(),
{
    if nodes.len() == 0 {
        assert(!contains_coords(nodes, point));
    } else if nodes.first().0 == point {
        assert(contains_coords(nodes, point));
    } else {
        let rest = nodes.drop_first();
        lemma_index_of_coords(rest, point);
        assert(forall|j: int| 0 <= j < rest.len() ==> (#[trigger] rest[j]) == nodes[j + 1]);
        let index = index_of_coords(nodes, point);
        assert(forall|j: int| 1 <= j < index ==> (#[trigger] nodes[j]).0 == rest[j - 1].0);
        if index < nodes.len() {
            assert(contains_coords(nodes, point));
        } else {
            assert(forall|j: int| 0 <= j < nodes.len() ==> (#[trigger] nodes[j]).0 != point);
        }
    }
}

proof fn lemma_add_node_preserves_wf(nodes: Seq<GraphNode>, point: SpherePoint)
    requires
        nodes_wf(nodes),
    ensures
        nodes_wf(add_node_if_absent(nodes, point)),
{
    let extended = add_node_if_absent(nodes, point);
    if !contains_coords(nodes, point) {
        assert forall|i: int, k: int|
            0 <= i < extended.len() && 0 <= k < extended[i].1.len() implies 0 <= (#[trigger]
        extended[i].1[k]).0 < extended.len() by {
            if i < nodes.len() {
                assert(extended[i] == nodes[i]);
                assert(0 <= nodes[i].1[k].0 < nodes.len());
            }
        }
    }
}

proof fn lemma_add_relation_preserves_wf(nodes: Seq<GraphNode>, from: int, to: int, cost: u64)
    requires
        nodes_wf(nodes),
        0 <= from < nodes.len(),
        0 <= to < nodes.len(),
    ensures
        nodes_wf(add_relation(nodes, from, to, cost)),
{
    let updated = add_relation(nodes, from, to, cost);
    if !has_relation(nodes[from].1, to) {
        assert forall|i: int, k: int|
            0 <= i < updated.len() && 0 <= k < updated[i].1.len() implies 0 <= (#[trigger]
        updated[i].1[k]).0 < updated.len() by {
            if i == from && k == nodes[from].1.len() {
                assert(updated[i].1[k] == ((to, cost)));
            } else {
                assert(updated[i].1[k] == nodes[i].1[k]);
                assert(0 <= nodes[i].1[k].0 < nodes.len());
            }
        }
    }
}

proof fn lemma_apply_connection_wf(nodes: Seq<GraphNode>, connection: SphereConnection, cost: u64)
    requires
        nodes_wf(nodes),
    ensures
        nodes_wf(apply_connection(nodes, connection, cost)),
{
    let start_index = index_of_coords(nodes, connection.start);
    let with_start = add_node_if_absent(nodes, connection.start);
    let finish_index = index_of_coords(with_start, connection.finish);
    let with_both = add_node_if_absent(with_start, connection.finish);
    lemma_index_of_coords(nodes, connection.start);
    lemma_index_of_coords(with_start, connection.finish);
    lemma_add_node_preserves_wf(nodes, connection.start);
    lemma_add_node_preserves_wf(with_start, connection.finish);
    assert(0 <= start_index < with_both.len());
    assert(0 <= finish_index < with_both.len());
    lemma_add_relation_preserves_wf(with_both, start_index, finish_index, cost);
    lemma_add_relation_preserves_wf(
        add_relation(with_both, start_index, finish_index, cost),
        finish_index,
        start_index,
        cost,
    );
}

/// Every graph produced by the construction fold has only in-range neighbor
/// indices in its adjacency lists.
pub proof fn lemma_build_nodes_wf(connections: Seq<SphereConnection>, costs: Seq<u64>)
    ensures
        nodes_wf(build_nodes(connections, costs)),
    decreases connections.len(),
{
    if connections.len() > 0 {
        lemma_build_nodes_wf(connections.drop_last(), costs.drop_last());
        lemma_apply_connection_wf(
            build_nodes(connections.drop_last(), costs.drop_last()),
            connections.last(),
            costs.last(),
        );
    }
}

proof fn lemma_add_node_preserves_symmetric(nodes: Seq<GraphNode>, point: SpherePoint)
    requires
        adjacency_symmetric(nodes),
    ensures
        adjacency_symmetric(add_node_if_absent(nodes, point)),
{
    let extended = add_node_if_absent(nodes, point);
    if !contains_coords(nodes, point) {
        assert forall|i: int, k: int|
            0 <= i < extended.len() && 0 <= k < extended[i].1.len() implies relation_recorded(
            extended,
            (#[trigger] extended[i].1[k]).0,
            i,
            extended[i].1[k].1,
        ) by {
            assert(i < nodes.len());
            assert(extended[i].1[k] == nodes[i].1[k]);
            assert(relation_recorded(nodes, nodes[i].1[k].0, i, nodes[i].1[k].1));
            let target = nodes[i].1[k].0;
            let witness = choose|w: int|
                0 <= w < nodes[target].1.len() && (#[trigger] nodes[target].1[w]) == ((
                i,
                nodes[i].1[k].1,
            ));
            assert(extended[target].1[witness] == ((i, nodes[i].1[k].1)));
        }
    }
}

proof fn lemma_add_relation_pair_symmetric(nodes: Seq<GraphNode>, from: int, to: int, cost: u64)
    requires
        adjacency_symmetric(nodes),
        0 <= from < nodes.len(),
        0 <= to < nodes.len(),
    ensures
        adjacency_symmetric(add_relation(add_relation(nodes, from, to, cost), to, from, cost)),
{
    let once = add_relation(nodes, from, to, cost);
    let twice = add_relation(once, to, from, cost);
    if has_relation(nodes[from].1, to) {
        let k = choose|k: int|
            0 <= k < nodes[from].1.len() && (#[trigger] nodes[from].1[k]).0 == to;
        assert(relation_recorded(nodes, to, from, nodes[from].1[k].1));
        assert(has_relation(nodes[to].1, from)) by {
            let w = choose|w: int|
                0 <= w < nodes[to].1.len() && (#[trigger] nodes[to].1[w]) == ((
                from,
                nodes[from].1[k].1,
            ));
            assert(nodes[to].1[w].0 == from);
        }
        assert(once == nodes);
        assert(twice == nodes);
    } else if from == to {
        let fresh: int = nodes[from].1.len() as int;
        assert(once[from].1[fresh] == ((to, cost)));
        assert(has_relation(once[to].1, from));
        assert(twice == once);
        assert forall|i: int, k: int|
            0 <= i < once.len() && 0 <= k < once[i].1.len() implies relation_recorded(
            once,
            (#[trigger] once[i].1[k]).0,
            i,
            once[i].1[k].1,
        ) by {
            if i == from && k == fresh {
                assert(once[from].1[fresh] == ((i, cost)));
            } else {
                assert(once[i].1[k] == nodes[i].1[k]);
                lemma_relation_recorded_after_push(nodes, once, from, to, cost, i, k);
            }
        }
    } else {
        assert(!has_relation(nodes[to].1, from)) by {
            if has_relation(nodes[to].1, from) {
                let k = choose|k: int|
                    0 <= k < nodes[to].1.len() && (#[trigger] nodes[to].1[k]).0 == from;
                assert(relation_recorded(nodes, from, to, nodes[to].1[k].1));
                let w = choose|w: int|
                    0 <= w < nodes[from].1.len() && (#[trigger] nodes[from].1[w]) == ((
                    to,
                    nodes[to].1[k].1,
                ));
                assert(nodes[from].1[w].0 == to);
            }
        }
        assert(once[to].1 == nodes[to].1);
        assert(!has_relation(once[to].1, from));
        let fresh_from: int = nodes[from].1.len() as int;
        let fresh_to: int = nodes[to].1.len() as int;
        assert(twice[from].1 == nodes[from].1.push((to, cost)));
        assert(twice[to].1 == nodes[to].1.push((from, cost)));
        assert forall|i: int, k: int|
            0 <= i < twice.len() && 0 <= k < twice[i].1.len() implies relation_recorded(
            twice,
            (#[trigger] twice[i].1[k]).0,
            i,
            twice[i].1[k].1,
        ) by {
            if i == from && k == fresh_from {
                assert(twice[from].1[fresh_from] == ((to, cost)));
                assert(twice[to].1[fresh_to] == ((from, cost)));
            } else if i == to && k == fresh_to {
                assert(twice[to].1[fresh_to] == ((from, cost)));
                assert(twice[from].1[fresh_from] == ((to, cost)));
            } else {
                assert(twice[i].1[k] == nodes[i].1[k]);
                let target = nodes[i].1[k].0;
                let value = nodes[i].1[k].1;
                assert(relation_recorded(nodes, target, i, value));
                let w = choose|w: int|
                    0 <= w < nodes[target].1.len() && (#[trigger] nodes[target].1[w]) == ((
                    i,
                    value,
                ));
                assert(twice[target].1[w] == ((i, value)));
            }
        }
    }
}

proof fn lemma_relation_recorded_after_push(
    nodes: Seq<GraphNode>,
    once: Seq<GraphNode>,
    from: int,
    to: int,
    cost: u64,
    i: int,
    k: int,
)
    requires
        adjacency_symmetric(nodes),
        0 <= from < nodes.len(),
        !has_relation(nodes[from].1, to),
        once == add_relation(nodes, from, to, cost),
        0 <= i < nodes.len(),
        0 <= k < nodes[i].1.len(),
    ensures
        relation_recorded(once, nodes[i].1[k].0, i, nodes[i].1[k].1),
{
    let target = nodes[i].1[k].0;
    let value = nodes[i].1[k].1;
    assert(relation_recorded(nodes, target, i, value));
    let w = choose|w: int|
        0 <= w < nodes[target].1.len() && (#[trigger] nodes[target].1[w]) == ((i, value));
    assert(once[target].1[w] == ((i, value)));
}

proof fn lemma_apply_connection_symmetric(
    nodes: Seq<GraphNode>,
    connection: SphereConnection,
    cost: u64,
)
    requires
        adjacency_symmetric(nodes),
    ensures
        adjacency_symmetric(apply_connection(nodes, connection, cost)),
{
    let start_index = index_of_coords(nodes, connection.start);
    let with_start = add_node_if_absent(nodes, connection.start);
    let finish_index = index_of_coords(with_start, connection.finish);
    let with_both = add_node_if_absent(with_start, connection.finish);
    lemma_index_of_coords(nodes, connection.start);
    lemma_index_of_coords(with_start, connection.finish);
    lemma_add_node_preserves_symmetric(nodes, connection.start);
    lemma_add_node_preserves_symmetric(with_start, connection.finish);
    lemma_add_relation_pair_symmetric(with_both, start_index, finish_index, cost);
}

/// Adjacency symmetry of construction: every edge the fold records at one
/// endpoint is recorded, with the same cost, at the other endpoint.
pub proof fn lemma_build_adjacency_symmetric(connections: Seq<SphereConnection>, costs: Seq<u64>)
    ensures
        adjacency_symmetric(build_nodes(connections, costs)),
    decreases connections.len(),
{
    if connections.len() > 0 {
        lemma_build_adjacency_symmetric(connections.drop_last(), costs.drop_last());
        lemma_apply_connection_symmetric(
            build_nodes(connections.drop_last(), costs.drop_last()),
            connections.last(),
            costs.last(),
        );
    }
}

proof fn lemma_contains_coords_iff(nodes: Seq<GraphNode>, point: SpherePoint)
    ensures
        contains_coords(nodes, point) == coords_of(nodes).contains(point),
{
    if contains_coords(nodes, point) {
        let i = choose|i: int| 0 <= i < nodes.len() && (#[trigger] nodes[i]).0 == point;
        assert(coords_of(nodes)[i] == point);
    }
    if coords_of(nodes).contains(point) {
        let i = choose|i: int|
            0 <= i < coords_of(nodes).len() && (#[trigger] coords_of(nodes)[i]) == point;
        assert(nodes[i].0 == point);
    }
}

proof fn lemma_apply_connection_coords(
    nodes: Seq<GraphNode>,
    connection: SphereConnection,
    cost: u64,
)
    ensures
        coords_of(apply_connection(nodes, connection, cost)) == insert_new_point(
            insert_new_point(coords_of(nodes), connection.start),
            connection.finish,
        ),
{
    let start_index = index_of_coords(nodes, connection.start);
    let with_start = add_node_if_absent(nodes, connection.start);
    let finish_index = index_of_coords(with_start, connection.finish);
    let with_both = add_node_if_absent(with_start, connection.finish);
    let once = add_relation(with_both, start_index, finish_index, cost);
    let twice = add_relation(once, finish_index, start_index, cost);
    lemma_index_of_coords(nodes, connection.start);
    lemma_index_of_coords(with_start, connection.finish);
    lemma_contains_coords_iff(nodes, connection.start);
    lemma_contains_coords_iff(with_start, connection.finish);
    assert(coords_of(with_start) =~= insert_new_point(coords_of(nodes), connection.start));
    assert(coords_of(with_both) =~= insert_new_point(coords_of(with_start), connection.finish));
    assert(coords_of(once) =~= coords_of(with_both));
    assert(coords_of(twice) =~= coords_of(once));
}

/// Node coordinates of construction: the fold's nodes carry exactly the
/// distinct endpoint coordinates, in first-occurrence order.
pub proof fn lemma_build_nodes_coords(connections: Seq<SphereConnection>, costs: Seq<u64>)
    ensures
        coords_of(build_nodes(connections, costs)) == distinct_points(connections),
    decreases connections.len(),
{
    if connections.len() == 0 {
        assert(coords_of(build_nodes(connections, costs)) =~= distinct_points(connections));
    } else {
        lemma_build_nodes_coords(connections.drop_last(), costs.drop_last());
        lemma_apply_connection_coords(
            build_nodes(connections.drop_last(), costs.drop_last()),
            connections.last(),
            costs.last(),
        );
    }
}

proof fn lemma_insert_new_point_set(points: Seq<SpherePoint>, point: SpherePoint)
    requires
        points.no_duplicates(),
    ensures
        insert_new_point(points, point).no_duplicates(),
        insert_new_point(points, point).to_set() == points.to_set().insert(point),
{
    let inserted = insert_new_point(points, point);
    if points.contains(point) {
        assert(inserted.to_set() =~= points.to_set().insert(point));
    } else {
        assert forall|i: int, j: int|
            0 <= i < inserted.len() && 0 <= j < inserted.len() && i != j implies inserted[i]
            != inserted[j] by {
            if j == points.len() {
                assert(!points.contains(inserted[i]) ==> points[i] != point);
            } else if i == points.len() {
                assert(inserted[j] == points[j]);
            }
        }
        assert forall|q: SpherePoint| #[trigger]
            inserted.to_set().contains(q) == points.to_set().insert(point).contains(q) by {
            if inserted.contains(q) {
                let i = choose|i: int| 0 <= i < inserted.len() && (#[trigger] inserted[i]) == q;
                if i < points.len() {
                    assert(points.contains(q));
                }
            }
            if points.contains(q) {
                let i = choose|i: int| 0 <= i < points.len() && (#[trigger] points[i]) == q;
                assert(inserted[i] == q);
            }
            if q == point {
                assert(inserted[points.len() as int] == q);
            }
        }
        assert(inserted.to_set() =~= points.to_set().insert(point));
    }
}

/// The distinct endpoint list has no duplicates and covers exactly the set
/// of all endpoint coordinates.
pub proof fn lemma_distinct_points_set(connections: Seq<SphereConnection>)
    ensures
        distinct_points(connections).no_duplicates(),
        distinct_points(connections).to_set() == endpoints(connections).to_set(),
    decreases connections.len(),
{
    if connections.len() == 0 {
        assert(distinct_points(connections).to_set() =~= endpoints(connections).to_set());
    } else {
        let shorter = connections.drop_last();
        lemma_distinct_points_set(shorter);
        let with_start = insert_new_point(distinct_points(shorter), connections.last().start);
        lemma_insert_new_point_set(distinct_points(shorter), connections.last().start);
        lemma_insert_new_point_set(with_start, connections.last().finish);
        assert(endpoints(connections).to_set() =~= endpoints(shorter).to_set().insert(
            connections.last().start,
        ).insert(connections.last().finish)) by {
            lemma_push_to_set(endpoints(shorter), connections.last().start);
            lemma_push_to_set(
                endpoints(shorter).push(connections.last().start),
                connections.last().finish,
            );
        }
    }
}

proof fn lemma_push_to_set(points: Seq<SpherePoint>, point: SpherePoint)
    ensures
        points.push(point).to_set() == points.to_set().insert(point),
{
    assert forall|q: SpherePoint| #[trigger]
        points.push(point).to_set().contains(q) == points.to_set().insert(point).contains(q) by {
        if points.push(point).contains(q) {
            let i = choose|i: int|
                0 <= i < points.push(point).len() && (#[trigger] points.push(point)[i]) == q;
            if i < points.len() {
                assert(points.contains(q));
            }
        }
        if points.contains(q) {
            let i = choose|i: int| 0 <= i < points.len() && (#[trigger] points[i]) == q;
            assert(points.push(point)[i] == q);
        }
        if q == point {
            assert(points.push(point)[points.len() as int] == q);
        }
    }
    assert(points.push(point).to_set() =~= points.to_set().insert(point));
}

/// Node count of construction: the fold produces exactly one node per
/// distinct endpoint coordinate.
pub proof fn lemma_build_nodes_count(connections: Seq<SphereConnection>, costs: Seq<u64>)
    ensures
        build_nodes(connections, costs).len() == endpoints(connections).to_set().len(),
        coords_distinct(build_nodes(connections, costs)),
{
    let nodes = build_nodes(connections, costs);
    lemma_build_nodes_coords(connections, costs);
    lemma_distinct_points_set(connections);
    distinct_points(connections).unique_seq_to_set();
    assert(coords_of(nodes).len() == nodes.len());
    assert forall|i: int, j: int|
        0 <= i < nodes.len() && 0 <= j < nodes.len() && i != j implies (#[trigger] nodes[i]).0
        != (#[trigger] nodes[j]).0 by {
        assert(coords_of(nodes)[i] == nodes[i].0);
        assert(coords_of(nodes)[j] == nodes[j].0);
    }
}

/// The graph: deduplicated nodes and a symmetric, per-edge-costed adjacency
/// list, built once from a connection list and immutable afterwards.
#[derive(Debug, Clone)]
pub struct VertexBuffer {
    pub celestial_object: CelestialObject,
    pub vector: Vec<VertexSpherePoint>,
}

impl VertexBuffer {
    /// The mathematical node list this buffer holds.
    pub open spec fn nodes(self) -> Seq<GraphNode> {
        self.vector@.map_values(|node: VertexSpherePoint| node@)
    }

    /// Every recorded neighbor index is a valid position in the node list.
    pub open spec fn wf(self) -> bool {
        nodes_wf(self.nodes())
    }

    /// The number of nodes in the graph.
    pub fn len(&self) -> (length: usize)
        ensures
            length == self.nodes().len(),
    {
        self.vector.len()
    }

    /// First node index carrying `point`, if any.
    fn position_of_coords(&self, point: &SpherePoint) -> (position: Option<usize>)
        ensures
            match position {
                Some(i) => i < self.nodes().len() && i as int == index_of_coords(
                    self.nodes(),
                    *point,
                ),
                None => index_of_coords(self.nodes(), *point) == self.nodes().len(),
            },
    {
        proof {
            lemma_index_of_coords(self.nodes(), *point);
        }
        let mut i: usize = 0;
        while i < self.vector.len()
            invariant
                i <= self.vector@.len(),
                forall|j: int| 0 <= j < i ==> (#[trigger] self.nodes()[j]).0 != *point,
            decreases self.vector@.len() - i,
        {
            if self.vector[i].has_point(point) {
                proof {
                    lemma_index_of_coords(self.nodes(), *point);
                    assert(self.nodes()[i as int].0 == *point);
                }
                return Some(i);
            }
            i += 1;
        }
        None
    }

    /// Appends a fresh node for `coordinates` and returns its index.
    fn add(&mut self, coordinates: SpherePoint) -> (index: usize)
        ensures
            final(self).nodes() == old(self).nodes().push((coordinates, Seq::<(int, u64)>::empty())),
            index == old(self).nodes().len(),
            final(self).celestial_object == old(self).celestial_object,
    {
        let index = self.vector.len();
        self.vector.push(VertexSpherePoint::new(coordinates));
        proof {
            assert(self.nodes() =~= old(self).nodes().push(
                (coordinates, Seq::<(int, u64)>::empty()),
            ));
        }
        index
    }

    /// Records the edge `(index_related, cost)` at node `index_to_update`
    /// unless an entry for `index_related` is already present.
    fn update(&mut self, index_to_update: usize, index_related: usize, cost: u64)
        requires
            index_to_update < old(self).nodes().len(),
        ensures
            final(self).nodes() == add_relation(
                old(self).nodes(),
                index_to_update as int,
                index_related as int,
                cost,
            ),
            final(self).celestial_object == old(self).celestial_object,
    {
        let ghost old_nodes = self.nodes();
        let mut k: usize = 0;
        let relation_count = self.vector[index_to_update].graphs.len();
        while k < relation_count
            invariant
                k <= relation_count,
                index_to_update < self.vector@.len(),
                relation_count == self.nodes()[index_to_update as int].1.len(),
                forall|j: int|
                    0 <= j < k ==> (#[trigger] self.nodes()[index_to_update as int].1[j]).0
                        != index_related as int,
            decreases relation_count - k,
        {
            if self.vector[index_to_update].graphs[k].vertex_index == index_related {
                assert(self.nodes()[index_to_update as int].1[k as int].0 == index_related as int);
                assert(has_relation(self.nodes()[index_to_update as int].1, index_related as int));
                return ;
            }
            k += 1;
        }
        assert(!has_relation(old_nodes[index_to_update as int].1, index_related as int));
        let node = &mut self.vector[index_to_update];
        node.graphs.push(GraphRelation::new(index_related, cost));
        proof {
            assert(self.nodes() =~~= add_relation(
                old_nodes,
                index_to_update as int,
                index_related as int,
                cost,
            ));
        }
    }

    /// Folds one connection with its cost into the graph.
    fn append(&mut self, connection: &SphereConnection, cost: u64)
        ensures
            final(self).nodes() == apply_connection(old(self).nodes(), *connection, cost),
            final(self).celestial_object == old(self).celestial_object,
    {
        proof {
            lemma_index_of_coords(old(self).nodes(), connection.start);
        }
        let start_vertex_index = match self.position_of_coords(&connection.start) {
            Some(existing) => existing,
            None => self.add(connection.start),
        };
        proof {
            assert(self.nodes() == add_node_if_absent(old(self).nodes(), connection.start));
            assert(start_vertex_index as int == index_of_coords(old(self).nodes(), connection.start));
            lemma_index_of_coords(self.nodes(), connection.finish);
        }
        let ghost with_start = self.nodes();
        let finish_vertex_index = match self.position_of_coords(&connection.finish) {
            Some(existing) => existing,
            None => self.add(connection.finish),
        };
        proof {
            assert(self.nodes() == add_node_if_absent(with_start, connection.finish));
            assert(finish_vertex_index as int == index_of_coords(with_start, connection.finish));
        }
        self.update(start_vertex_index, finish_vertex_index, cost);
        self.update(finish_vertex_index, start_vertex_index, cost);
    }

    /// Whether a connection list is acceptable input: non-empty, and free of
    /// self-loop connections.
    fn is_connections_vec_correct(&self, connections: &Vec<SphereConnection>) -> (correct: bool)
        ensures
            correct == connections_correct(connections@),
    {
        if connections.len() == 0 {
            return false;
        }
        let mut k: usize = 0;
        while k < connections.len()
            invariant
                k <= connections@.len(),
                forall|j: int|
                    0 <= j < k ==> (#[trigger] connections@[j]).start != connections@[j].finish,
            decreases connections@.len() - k,
        {
            if connections[k].start == connections[k].finish {
                return false;
            }
            k += 1;
        }
        true
    }

    /// Builds the graph from a connection list whose per-connection travel
    /// costs have been evaluated by the caller (`costs[i]` is the geodesic
    /// cost of `connections[i]`, in any fixed linear unit).
    ///
    /// Fails with [`ErrorKind::DataItemIncorrect`] exactly when the list is
    /// empty or some connection is a self-loop; no partial graph is returned.
    /// On success the graph is precisely the fold of the connections, in
    /// input order, into an initially empty node list.
    pub fn new(
        connections: Vec<SphereConnection>,
        costs: Vec<u64>,
        celestial_object: CelestialObject,
    ) -> (result: Result<Self, ErrorKind>)
        requires
            costs@.len() == connections@.len(),
        ensures
            result is Err <==> !connections_correct(connections@),
            match result {
                Err(kind) => kind == ErrorKind::DataItemIncorrect,
                Ok(graph) => {
                    &&& graph.celestial_object == celestial_object
                    &&& graph.nodes() == build_nodes(connections@, costs@)
                    &&& graph.wf()
                    &&& adjacency_symmetric(graph.nodes())
                    &&& coords_distinct(graph.nodes())
                    &&& graph.nodes().len() == endpoints(connections@).to_set().len()
                },
            },
    {
        let vector: Vec<VertexSpherePoint> = Vec::new();
        let mut vertex_buffer = Self { celestial_object, vector };
        if !vertex_buffer.is_connections_vec_correct(&connections) {
            return Err(ErrorKind::DataItemIncorrect);
        }
        assert(vertex_buffer.nodes() =~= build_nodes(
            connections@.take(0),
            costs@.take(0),
        ));
        let mut k: usize = 0;
        while k < connections.len()
            invariant
                costs@.len() == connections@.len(),
                k <= connections@.len(),
                vertex_buffer.celestial_object == celestial_object,
                vertex_buffer.nodes() == build_nodes(connections@.take(k as int), costs@.take(k as int)),
            decreases connections@.len() - k,
        {
            vertex_buffer.append(&connections[k], costs[k]);
            proof {
                let taken = connections@.take(k + 1);
                let taken_costs = costs@.take(k + 1);
                assert(taken.drop_last() =~= connections@.take(k as int));
                assert(taken_costs.drop_last() =~= costs@.take(k as int));
                assert(taken.last() == connections@[k as int]);
                assert(taken_costs.last() == costs@[k as int]);
            }
            k += 1;
        }
        proof {
            assert(connections@.take(k as int) =~= connections@);
            assert(costs@.take(k as int) =~= costs@);
            lemma_build_nodes_wf(connections@, costs@);
            lemma_build_adjacency_symmetric(connections@, costs@);
            lemma_build_nodes_count(connections@, costs@);
        }
        Ok(vertex_buffer)
    }
}

} // verus!
