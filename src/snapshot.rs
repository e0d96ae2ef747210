//! A read-only export of the graph for consumers such as a visualizer:
//! the nodes that are still present with their boxes-on-targets counts,
//! the edges, and the initial node.

use vstd::prelude::*;
use crate::board::{num_boxes_on_targets, SharedGameState};
use crate::graph::{Edge, StateGraph};
use crate::model::Vec2;
use crate::unique_node::{key_boxes, key_player, node_key};

verus! {

/// One node of a snapshot.
#[derive(Clone, Copy, PartialEq, Eq, Debug, Structural)]
pub struct SnapshotNode {
    pub id: usize,
    pub boxes_on_targets_count: usize,
    pub seed_min_player: Vec2,
}

/// Nodes, edges and summary values of a state graph.
#[derive(Clone, Debug)]
pub struct GraphSnapshot {
    pub nodes: Vec<SnapshotNode>,
    pub edges: Vec<Edge>,
    pub max_boxes_on_targets: usize,
    pub initial_node_id: usize,
}

/// `n` describes the node of `graph` with its id.
pub open spec fn describes(graph: StateGraph, board: SharedGameState, n: SnapshotNode) -> bool {
    exists|k: crate::id_map::KeyView|
        #[trigger] graph.pairs().contains_key(k) && graph.pairs()[k] == n.id && n.boxes_on_targets_count
            == num_boxes_on_targets(board, key_boxes(k).to_set()) && n.seed_min_player == key_player(k)
}

/// Some node of `graph` has id `id`.
pub open spec fn has_id(graph: StateGraph, id: int) -> bool {
    exists|k: crate::id_map::KeyView| #[trigger] graph.pairs().contains_key(k) && graph.pairs()[k] == id
}

/// Every edge of `graph`, in order of its source.
pub fn edge_list(graph: &StateGraph) -> (r: Vec<Edge>)
    ensures
        forall|e: Edge| #[trigger] r@.contains(e) <==> graph.has_edge(e.from as int, e.to),
{
    let mut edges: Vec<Edge> = Vec::new();
    let mut from: usize = 0;
    while from < graph.successors.len()
        invariant
            from <= graph.successors@.len(),
            forall|e: Edge| #[trigger] edges@.contains(e) <==> (e.from < from && graph.has_edge(e.from as int, e.to)),
        decreases graph.successors@.len() - from,
    {
        let row = &graph.successors[from];
        let mut k: usize = 0;
        while k < row.len()
            invariant
                from < graph.successors@.len(),
                *row == graph.successors@[from as int],
                k <= row@.len(),
                forall|e: Edge|
                    #[trigger] edges@.contains(e) <==> ((e.from < from && graph.has_edge(e.from as int, e.to)) || (e.from
                        == from && row@.subrange(0, k as int).contains(e.to))),
            decreases row@.len() - k,
        {
            let e = Edge { from, to: row[k] };
            let ghost before = edges@;
            edges.push(e);
            proof {
                let s0 = row@.subrange(0, k as int);
                let s1 = row@.subrange(0, k + 1);
                assert(s1 =~= s0.push(row@[k as int]));
                assert forall|f: Edge| #[trigger] edges@.contains(f) <==> ((f.from < from && graph.has_edge(f.from as int, f.to))
                    || (f.from == from && s1.contains(f.to))) by {
                    if edges@.contains(f) && f != e {
                        let m = choose|m: int| 0 <= m < edges@.len() && edges@[m] == f;
                        assert(before[m] == f);
                    }
                    if before.contains(f) {
                        let m = choose|m: int| 0 <= m < before.len() && before[m] == f;
                        assert(edges@[m] == f);
                    }
                    if f == e {
                        assert(edges@[before.len() as int] == f);
                        assert(s1[k as int] == f.to);
                    }
                    if f.from == from && s1.contains(f.to) && f != e {
                        let m = choose|m: int| 0 <= m < s1.len() && s1[m] == f.to;
                        if m < k {
                            assert(s0[m] == f.to);
                        } else {
                            assert(f.to == row@[k as int]);
                            assert(f == e);
                        }
                    }
                    if f.from == from && s0.contains(f.to) {
                        let m = choose|m: int| 0 <= m < s0.len() && s0[m] == f.to;
                        assert(s1[m] == f.to);
                    }
                }
            }
            k += 1;
        }
        proof {
            assert(row@.subrange(0, k as int) =~= row@);
        }
        from += 1;
    }
    proof {
        assert forall|e: Edge| #[trigger] edges@.contains(e) <==> graph.has_edge(e.from as int, e.to) by {}
    }
    edges
}

/// The snapshot of `graph`: one entry per node still present, in id order,
/// every edge in order of its source, and the largest boxes-on-targets
/// count (0 when there is no node).
pub fn snapshot(graph: &StateGraph, shared: &SharedGameState, initial_node_id: usize) -> (r: GraphSnapshot)
    requires
        shared.wf(),
        forall|k: crate::id_map::KeyView| #[trigger] graph.pairs().contains_key(k) ==> graph.pairs()[k] < graph.next_id,
    ensures
        r.initial_node_id == initial_node_id,
        forall|m: int| 0 <= m < r.nodes@.len() ==> describes(*graph, *shared, #[trigger] r.nodes@[m]),
        forall|m1: int, m2: int|
            0 <= m1 < m2 < r.nodes@.len() ==> #[trigger] r.nodes@[m1].id < #[trigger] r.nodes@[m2].id,
        forall|i: int|
            0 <= i < graph.next_id ==> (has_id(*graph, i) <==> exists|m: int|
                0 <= m < r.nodes@.len() && #[trigger] r.nodes@[m].id == i),
        forall|e: Edge| #[trigger] r.edges@.contains(e) <==> graph.has_edge(e.from as int, e.to),
        forall|m: int| 0 <= m < r.nodes@.len() ==> #[trigger] r.nodes@[m].boxes_on_targets_count <= r.max_boxes_on_targets,
        r.nodes@.len() == 0 ==> r.max_boxes_on_targets == 0,
        r.nodes@.len() > 0 ==> exists|m: int|
            0 <= m < r.nodes@.len() && #[trigger] r.nodes@[m].boxes_on_targets_count == r.max_boxes_on_targets,
{
    let mut nodes: Vec<SnapshotNode> = Vec::new();
    let mut max_boxes: usize = 0;
    let mut id: usize = 0;
    while id < graph.next_id
        invariant
            shared.wf(),
            id <= graph.next_id,
            forall|m: int| 0 <= m < nodes@.len() ==> describes(*graph, *shared, #[trigger] nodes@[m]),
            forall|m: int| 0 <= m < nodes@.len() ==> #[trigger] nodes@[m].id < id,
            forall|m1: int, m2: int|
                0 <= m1 < m2 < nodes@.len() ==> #[trigger] nodes@[m1].id < #[trigger] nodes@[m2].id,
            forall|i: int|
                0 <= i < id ==> (has_id(*graph, i) <==> exists|m: int|
                    0 <= m < nodes@.len() && #[trigger] nodes@[m].id == i),
            forall|m: int| 0 <= m < nodes@.len() ==> #[trigger] nodes@[m].boxes_on_targets_count <= max_boxes,
            nodes@.len() == 0 ==> max_boxes == 0,
            nodes@.len() > 0 ==> exists|m: int|
                0 <= m < nodes@.len() && #[trigger] nodes@[m].boxes_on_targets_count == max_boxes,
        decreases graph.next_id - id,
    {
        let ghost before = nodes@;
        match graph.node_of(id) {
            Some(node) => {
                let count = shared.count_boxes_on_goals(&node.environment);
                let entry = SnapshotNode {
                    id,
                    boxes_on_targets_count: count,
                    seed_min_player: node.minimum_reachable_player_position,
                };
                proof {
                    crate::unique_node::lemma_key_round_trip(node);
                    let k = node_key(node);
                    assert(graph.pairs().contains_key(k) && graph.pairs()[k] == id);
                    assert(key_boxes(k) == node.environment.boxes@);
                }
                nodes.push(entry);
                proof {
                    assert(nodes@ == before.push(entry));
                }
                let ghost old_max = max_boxes;
                if count > max_boxes || nodes.len() == 1 {
                    max_boxes = count;
                }
                proof {
                    assert(nodes@[before.len() as int] == entry);
                    assert forall|m: int| 0 <= m < nodes@.len() implies describes(*graph, *shared, #[trigger] nodes@[m]) by {
                        if m < before.len() {
                            assert(nodes@[m] == before[m]);
                        }
                    }
                    assert forall|i: int| 0 <= i < id + 1 implies (has_id(*graph, i) <==> exists|m: int|
                        0 <= m < nodes@.len() && #[trigger] nodes@[m].id == i) by {
                        if i < id {
                            if exists|m: int| 0 <= m < nodes@.len() && #[trigger] nodes@[m].id == i {
                                let m = choose|m: int| 0 <= m < nodes@.len() && #[trigger] nodes@[m].id == i;
                                assert(m < before.len());
                                assert(before[m].id == i);
                            }
                            if exists|m: int| 0 <= m < before.len() && #[trigger] before[m].id == i {
                                let m = choose|m: int| 0 <= m < before.len() && #[trigger] before[m].id == i;
                                assert(nodes@[m].id == i);
                            }
                        } else {
                            assert(nodes@[before.len() as int].id == i);
                            assert(has_id(*graph, i)) by {
                                assert(graph.pairs().contains_key(node_key(node)));
                            }
                        }
                    }
                    if before.len() > 0 && count <= old_max {
                        let m = choose|m: int| 0 <= m < before.len() && #[trigger] before[m].boxes_on_targets_count == old_max;
                        assert(nodes@[m] == before[m]);
                        assert(max_boxes == old_max);
                    } else {
                        assert(max_boxes == count);
                        assert(nodes@[before.len() as int].boxes_on_targets_count == max_boxes);
                    }
                    assert forall|m: int| 0 <= m < nodes@.len() implies #[trigger] nodes@[m].boxes_on_targets_count <= max_boxes by {
                        if m < before.len() {
                            assert(nodes@[m] == before[m]);
                        }
                    }
                }
            },
            None => {
                proof {
                    assert(!has_id(*graph, id as int));
                    assert forall|i: int| 0 <= i < id + 1 implies (has_id(*graph, i) <==> exists|m: int|
                        0 <= m < nodes@.len() && #[trigger] nodes@[m].id == i) by {
                        if i == id {
                            if exists|m: int| 0 <= m < nodes@.len() && #[trigger] nodes@[m].id == i {
                                let m = choose|m: int| 0 <= m < nodes@.len() && #[trigger] nodes@[m].id == i;
                                assert(nodes@[m].id < id);
                            }
                        }
                    }
                }
            },
        }
        id += 1;
    }
    let edges = edge_list(graph);
    let r = GraphSnapshot { nodes, edges, max_boxes_on_targets: max_boxes, initial_node_id };
    proof {
        assert forall|i: int| 0 <= i < graph.next_id implies (has_id(*graph, i) <==> exists|m: int|
            0 <= m < r.nodes@.len() && #[trigger] r.nodes@[m].id == i) by {
            assert(r.nodes@ == nodes@);
            if has_id(*graph, i) {
                assert(exists|m: int| 0 <= m < nodes@.len() && #[trigger] nodes@[m].id == i);
                let m = choose|m: int| 0 <= m < nodes@.len() && #[trigger] nodes@[m].id == i;
                assert(r.nodes@[m].id == i);
            }
            if exists|m: int| 0 <= m < r.nodes@.len() && #[trigger] r.nodes@[m].id == i {
                let m = choose|m: int| 0 <= m < r.nodes@.len() && #[trigger] r.nodes@[m].id == i;
                assert(nodes@[m].id == i);
            }
        }
    }
    r
}

} // verus!
