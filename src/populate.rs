//! The expansion engine: successors of a canonical node by single pushes,
//! and one step of breadth-first exploration of the state graph.

use vstd::prelude::*;
use crate::board::SharedGameState;
use crate::box_set::{lemma_sorted_of, sorted_of, strictly_sorted};
use crate::trim::is_path;
use crate::graph::{first_live, Edge, PopulateResult, StateGraph};
use crate::heuristics::{boxes_on_board, is_winnable, spec_winnable, WinnableState};
use crate::id_map::KeyView;
use crate::model::{dir_di, dir_dj, mk_pos, Direction, GameChangeType, UserAction, Vec2};
use crate::reach::{is_reach_mask, lemma_reachable_open, reachable, BoundedGrid};
use crate::state::{GameState, GameUpdate};
use crate::unique_node::{key_boxes, key_player, lemma_key_round_trip, node_key, pair_of, UniqueNode};
use crate::update::{on_board, step, step_result};

verus! {

/// Successors that the corner heuristic proves unwinnable are not generated.
pub const TRIM_HEURISTICAL_UNWINNABLE: bool = true;

/// Exploration is followed by win-reachability trimming.
pub const TRIM_UNWINNABLE: bool = true;

/// The push directions in enumeration order: a box is pushed down, up,
/// right, then left.
pub open spec fn push_dir(k: int) -> Direction {
    if k == 0 {
        Direction::Down
    } else if k == 1 {
        Direction::Up
    } else if k == 2 {
        Direction::Right
    } else {
        Direction::Left
    }
}

/// A node as a value: sorted boxes and canonical player position.
pub type NodeView = (Seq<Vec2>, Vec2);

pub open spec fn node_view(n: UniqueNode) -> NodeView {
    (n.environment.boxes@, n.minimum_reachable_player_position)
}

/// The key of a node value.
pub open spec fn view_key(v: NodeView) -> KeyView {
    (v.0.map_values(|b: Vec2| pair_of(b)), pair_of(v.1))
}

/// The node value a key describes.
pub open spec fn key_node(k: KeyView) -> NodeView {
    (key_boxes(k), key_player(k))
}

/// The successor obtained by pushing box `b` in direction `d` from the node
/// `(boxes, start)`, if the pusher's cell is reachable, the push is legal,
/// the heuristic keeps the result and it differs from the source.
pub open spec fn push_succ(
    board: SharedGameState,
    boxes: Seq<Vec2>,
    start: Vec2,
    b: Vec2,
    d: Direction,
) -> Option<NodeView> {
    let set = boxes.to_set();
    let pi = b.i - dir_di(d);
    let pj = b.j - dir_dj(d);
    let p = mk_pos(pi, pj);
    if !(on_board(board, pi, pj) && reachable(board, set, start, p)) {
        None
    } else {
        match step_result(board, p, set, UserAction::Move(d)) {
            Some(t) => if t.2 == GameChangeType::PlayerAndBoxMove {
                let ns = sorted_of(t.1);
                let m = crate::reach::canonical_player(board, t.1, t.0);
                if TRIM_HEURISTICAL_UNWINNABLE && !spec_winnable(board, ns) {
                    None
                } else if ns == boxes && m == start {
                    None
                } else {
                    Some((ns, m))
                }
            } else {
                None
            },
            None => None,
        }
    }
}

pub open spec fn opt_seq(o: Option<NodeView>) -> Seq<NodeView> {
    match o {
        Some(v) => seq![v],
        None => Seq::empty(),
    }
}

/// Successors through box `b` over the first `k` push directions.
pub open spec fn dir_succs(board: SharedGameState, boxes: Seq<Vec2>, start: Vec2, b: Vec2, k: int) -> Seq<
    NodeView,
>
    decreases k,
{
    if k <= 0 {
        Seq::empty()
    } else {
        dir_succs(board, boxes, start, b, k - 1) + opt_seq(
            push_succ(board, boxes, start, b, push_dir(k - 1)),
        )
    }
}

/// Successors through the first `n` boxes, box by box.
pub open spec fn box_succs(board: SharedGameState, boxes: Seq<Vec2>, start: Vec2, n: int) -> Seq<NodeView>
    decreases n,
{
    if n <= 0 {
        Seq::empty()
    } else {
        box_succs(board, boxes, start, n - 1) + dir_succs(board, boxes, start, boxes[n - 1], 4)
    }
}

/// All successors of the node `(boxes, start)`, in enumeration order.
pub open spec fn adjacent_spec(board: SharedGameState, v: NodeView) -> Seq<NodeView> {
    box_succs(board, v.0, v.1, v.0.len() as int)
}

/// A node value fit for expansion on `board`: boxes sorted and on the
/// board, canonical player on the board.
pub open spec fn node_valid(board: SharedGameState, v: NodeView) -> bool {
    &&& strictly_sorted(v.0)
    &&& boxes_on_board(board, v.0)
    &&& board.spec_in_bounds(v.1)
}

impl UserAction {
    /// The four cells from which box position `pos` can be pushed, each with
    /// the action that pushes, in enumeration order.
    pub fn all_push_actions_around(pos: &Vec2) -> (r: Vec<(Vec2, UserAction)>)
        requires
            -127 <= pos.i <= 126,
            -127 <= pos.j <= 126,
        ensures
            r@.len() == 4,
            forall|k: int|
                0 <= k < 4 ==> #[trigger] r@[k] == (
                    mk_pos(pos.i - dir_di(push_dir(k)), pos.j - dir_dj(push_dir(k))),
                    UserAction::Move(push_dir(k)),
                ),
    {
        let p = *pos;
        vec![
            (Vec2 { i: p.i - 1, j: p.j }, UserAction::Move(Direction::Down)),
            (Vec2 { i: p.i + 1, j: p.j }, UserAction::Move(Direction::Up)),
            (Vec2 { i: p.i, j: p.j - 1 }, UserAction::Move(Direction::Right)),
            (Vec2 { i: p.i, j: p.j + 1 }, UserAction::Move(Direction::Left)),
        ]
    }
}

/// The successor of `from_node` obtained by pushing box `b` in direction
/// `d`, as `push_succ` describes it.
fn try_push(
    shared: &SharedGameState,
    from_node: &UniqueNode,
    mask: &BoundedGrid,
    b: Vec2,
    pos: Vec2,
    action: UserAction,
) -> (r: Option<UniqueNode>)
    requires
        pos == mk_pos(b.i - dir_di(action.direction()), b.j - dir_dj(action.direction())),
        shared.wf(),
        node_valid(*shared, node_view(*from_node)),
        is_reach_mask(
            *mask,
            *shared,
            from_node.environment.box_set(),
            from_node.minimum_reachable_player_position,
        ),
        shared.spec_in_bounds(b),
    ensures
        match r {
            Some(n) => push_succ(
                *shared,
                from_node.environment.boxes@,
                from_node.minimum_reachable_player_position,
                b,
                action.direction(),
            ) == Some(node_view(n)) && n.environment.wf() && node_valid(*shared, node_view(n)),
            None => push_succ(
                *shared,
                from_node.environment.boxes@,
                from_node.minimum_reachable_player_position,
                b,
                action.direction(),
            ) is None,
        },
{
    let ghost set = from_node.environment.box_set();
    let ghost start = from_node.minimum_reachable_player_position;
    let ghost d = action.direction();
    match mask.get(&pos) {
        Some(v) => {
            if !v.is_reachable() {
                return None;
            }
        },
        None => {
            return None;
        },
    }
    proof {
        assert(shared.spec_in_bounds(pos));
        assert(pos == mk_pos(b.i - dir_di(d), b.j - dir_dj(d)));
        assert(reachable(*shared, set, start, pos));
    }
    let from_state = GameState { player: pos, environment: from_node.environment.duplicate() };
    proof {
        assert(action == UserAction::Move(d));
    }
    match step(shared, &from_state, action) {
        GameUpdate::NextState(new_state, change) => {
            if !change.did_box_move() {
                return None;
            }
            let ghost nb = new_state.environment.box_set();
            proof {
                lemma_sorted_of(new_state.environment.boxes@);
                let dest = new_state.player;
                let b2 = mk_pos(dest.i + dir_di(d), dest.j + dir_dj(d));
                assert(nb == set.remove(dest).insert(b2));
                assert(boxes_on_board(*shared, new_state.environment.boxes@)) by {
                    assert forall|k: int| 0 <= k < new_state.environment.boxes@.len() implies shared.spec_in_bounds(
                        #[trigger] new_state.environment.boxes@[k],
                    ) by {
                        let x = new_state.environment.boxes@[k];
                        assert(nb.contains(x));
                        if x != b2 {
                            assert(set.contains(x));
                            let m = choose|m: int| 0 <= m < from_node.environment.boxes@.len() && from_node.environment.boxes@[m] == x;
                            assert(shared.spec_in_bounds(from_node.environment.boxes@[m]));
                        }
                    }
                }
                assert(!nb.contains(dest));
            }
            if TRIM_HEURISTICAL_UNWINNABLE && is_winnable(shared, &new_state) == WinnableState::WinImpossible {
                return None;
            }
            let node = UniqueNode::from_game_state(new_state, shared);
            proof {
                lemma_reachable_open(*shared, nb, new_state.player, node.minimum_reachable_player_position);
            }
            if node == *from_node {
                return None;
            }
            Some(node)
        },
        GameUpdate::Error(_) => None,
    }
}

/// Every canonical successor of `from_node` by one push, in enumeration
/// order: boxes in ascending order, each pushed down, up, right, left.
pub fn get_all_adjacent_nodes(from_node: &UniqueNode, shared: &SharedGameState) -> (r: Vec<UniqueNode>)
    requires
        shared.wf(),
        node_valid(*shared, node_view(*from_node)),
    ensures
        r@.len() == adjacent_spec(*shared, node_view(*from_node)).len(),
        forall|k: int|
            0 <= k < r@.len() ==> #[trigger] node_view(r@[k]) == adjacent_spec(
                *shared,
                node_view(*from_node),
            )[k] && r@[k].environment.wf() && node_valid(*shared, node_view(r@[k])),
{
    let ghost boxes = from_node.environment.boxes@;
    let ghost start = from_node.minimum_reachable_player_position;
    let mask = shared.reachable_positions_visitation(
        &GameState {
            player: from_node.minimum_reachable_player_position,
            environment: from_node.environment.duplicate(),
        },
    );
    let box_list = from_node.environment.iter_boxes();
    let mut out: Vec<UniqueNode> = Vec::new();
    let mut bi: usize = 0;
    while bi < box_list.len()
        invariant
            shared.wf(),
            node_valid(*shared, node_view(*from_node)),
            boxes == from_node.environment.boxes@,
            start == from_node.minimum_reachable_player_position,
            box_list@ == boxes,
            is_reach_mask(mask, *shared, from_node.environment.box_set(), start),
            bi <= boxes.len(),
            out@.len() == box_succs(*shared, boxes, start, bi as int).len(),
            forall|k: int|
                0 <= k < out@.len() ==> #[trigger] node_view(out@[k]) == box_succs(
                    *shared,
                    boxes,
                    start,
                    bi as int,
                )[k] && out@[k].environment.wf() && node_valid(*shared, node_view(out@[k])),
        decreases boxes.len() - bi,
    {
        let b = box_list[bi];
        proof {
            assert(shared.spec_in_bounds(boxes[bi as int]));
        }
        let actions = UserAction::all_push_actions_around(&b);
        let ghost base = box_succs(*shared, boxes, start, bi as int);
        let mut k: usize = 0;
        while k < 4
            invariant
                shared.wf(),
                node_valid(*shared, node_view(*from_node)),
                boxes == from_node.environment.boxes@,
                start == from_node.minimum_reachable_player_position,
                is_reach_mask(mask, *shared, from_node.environment.box_set(), start),
                shared.spec_in_bounds(b),
                actions@.len() == 4,
                forall|m: int|
                    0 <= m < 4 ==> #[trigger] actions@[m] == (
                        mk_pos(b.i - dir_di(push_dir(m)), b.j - dir_dj(push_dir(m))),
                        UserAction::Move(push_dir(m)),
                    ),
                k <= 4,
                out@.len() == (base + dir_succs(*shared, boxes, start, b, k as int)).len(),
                forall|m: int|
                    0 <= m < out@.len() ==> #[trigger] node_view(out@[m]) == (base + dir_succs(
                        *shared,
                        boxes,
                        start,
                        b,
                        k as int,
                    ))[m] && out@[m].environment.wf() && node_valid(*shared, node_view(out@[m])),
            decreases 4 - k,
        {
            let (pos, action) = actions[k];
            proof {
                assert(actions@[k as int] == (pos, action));
                assert(action.direction() == push_dir(k as int));
            }
            let ghost prev = base + dir_succs(*shared, boxes, start, b, k as int);
            let ghost out_before = out@;
            match try_push(shared, from_node, &mask, b, pos, action) {
                Some(n) => {
                    out.push(n);
                },
                None => {},
            }
            proof {
                let next = base + dir_succs(*shared, boxes, start, b, k + 1);
                assert(next =~= prev + opt_seq(push_succ(*shared, boxes, start, b, push_dir(k as int))));
                assert forall|m: int| 0 <= m < out@.len() implies #[trigger] node_view(out@[m]) == next[m]
                    && out@[m].environment.wf() && node_valid(*shared, node_view(out@[m])) by {
                    if m < out_before.len() {
                        assert(out@[m] == out_before[m]);
                    }
                }
            }
            k += 1;
        }
        proof {
            assert(box_succs(*shared, boxes, start, bi + 1) =~= base + dir_succs(*shared, boxes, start, b, 4));
        }
        bi += 1;
    }
    out
}

/// Largest number of successors of one node: four pushes for each of at
/// most 127 x 127 boxes.
pub const MAX_SUCCESSORS: usize = 65536;

/// Ids below this bound leave room for one more expansion.
pub const NODE_CAPACITY: usize = usize::MAX - MAX_SUCCESSORS;

/// Row-major rank of an on-board position.
pub open spec fn rank(b: Vec2) -> int {
    b.i * 127 + b.j
}

proof fn lemma_rank_grows(board: SharedGameState, s: Seq<Vec2>, k: int)
    requires
        board.wf(),
        strictly_sorted(s),
        boxes_on_board(board, s),
        0 <= k < s.len(),
    ensures
        rank(s[k]) >= k,
    decreases k,
{
    if k > 0 {
        lemma_rank_grows(board, s, k - 1);
        assert(crate::model::pos_lt(s[k - 1], s[k]));
        assert(board.spec_in_bounds(s[k - 1]) && board.spec_in_bounds(s[k]));
    }
}

/// A valid box set holds at most 127 x 127 boxes.
pub proof fn lemma_box_count(board: SharedGameState, s: Seq<Vec2>)
    requires
        board.wf(),
        strictly_sorted(s),
        boxes_on_board(board, s),
    ensures
        s.len() <= 16129,
{
    if s.len() > 0 {
        lemma_rank_grows(board, s, s.len() - 1);
        assert(board.spec_in_bounds(s[s.len() - 1]));
    }
}

proof fn lemma_dir_succs_len(board: SharedGameState, boxes: Seq<Vec2>, start: Vec2, b: Vec2, k: int)
    ensures
        dir_succs(board, boxes, start, b, k).len() <= if k < 0 { 0 } else { k },
    decreases k,
{
    if k > 0 {
        lemma_dir_succs_len(board, boxes, start, b, k - 1);
    }
}

proof fn lemma_box_succs_len(board: SharedGameState, boxes: Seq<Vec2>, start: Vec2, n: int)
    requires
        n <= boxes.len(),
    ensures
        box_succs(board, boxes, start, n).len() <= if n < 0 { 0 } else { 4 * n },
    decreases n,
{
    if n > 0 {
        lemma_box_succs_len(board, boxes, start, n - 1);
        lemma_dir_succs_len(board, boxes, start, boxes[n - 1], 4);
    }
}

/// Node `id` has been expanded correctly: every successor is a node, and
/// the edges leaving `id` go exactly to the successors' ids.
pub open spec fn expanded_ok(g: StateGraph, board: SharedGameState, id: int) -> bool {
    let succs = adjacent_spec(board, key_node(g.keys@[id]));
    &&& forall|m: int| 0 <= m < succs.len() ==> g.pairs().contains_key(#[trigger] view_key(succs[m]))
    &&& forall|t: usize|
        #[trigger] g.has_edge(id, t) <==> exists|m: int|
            0 <= m < succs.len() && g.pairs()[#[trigger] view_key(succs[m])] == t
}

/// `id`'s node is one of the push successors of `u`'s node.
pub open spec fn is_child(g: StateGraph, board: SharedGameState, u: int, id: int) -> bool {
    exists|m: int|
        0 <= m < adjacent_spec(board, key_node(g.keys@[u])).len() && #[trigger] view_key(
            adjacent_spec(board, key_node(g.keys@[u]))[m],
        ) == g.keys@[id]
}

/// `id`'s node is a push successor of a node with a smaller id.
pub open spec fn has_parent(g: StateGraph, board: SharedGameState, id: int) -> bool {
    exists|u: int| 0 <= u < id && #[trigger] is_child(g, board, u, id)
}

/// The keys that expanding a node with successors `succs` appends, in
/// order: each successor's key unless `known` or an earlier successor
/// already holds it.
pub open spec fn added_keys(known: Set<KeyView>, succs: Seq<NodeView>) -> Seq<KeyView>
    decreases succs.len(),
{
    if succs.len() == 0 {
        Seq::empty()
    } else {
        let prev = added_keys(known, succs.drop_last());
        let k = view_key(succs.last());
        if known.contains(k) || prev.contains(k) {
            prev
        } else {
            prev.push(k)
        }
    }
}

/// The ids `a, a + 1, ..., b - 1`.
pub open spec fn id_range(a: int, b: int) -> Seq<usize> {
    Seq::new((b - a) as nat, |t: int| (a + t) as usize)
}

/// The exploration invariant: a well-formed graph of valid nodes in which
/// every unvisited node has no edge yet and every visited node other than
/// `pending` is expanded correctly; `pending`, when below `next_id`, is
/// visited and has no edge yet.
pub open spec fn explored_except(g: StateGraph, board: SharedGameState, pending: int) -> bool {
    let n = g.next_id as int;
    &&& g.wf()
    &&& forall|id: int| 0 <= id < n ==> node_valid(board, key_node(#[trigger] g.keys@[id]))
    &&& forall|id: int| 0 <= id < n && #[trigger] g.unvisited@[id] ==> g.successors@[id]@.len() == 0
    &&& forall|id: int|
        0 <= id < n && id != pending && !#[trigger] g.unvisited@[id] ==> expanded_ok(g, board, id)
    &&& 0 <= pending < n ==> !g.unvisited@[pending] && g.successors@[pending]@.len() == 0
    &&& forall|id: int| 1 <= id < n ==> #[trigger] has_parent(g, board, id)
}

/// The exploration invariant with nothing pending.
pub open spec fn explored_ok(g: StateGraph, board: SharedGameState) -> bool {
    explored_except(g, board, -1)
}

/// Expands node `from_id`: upserts each successor (new ones are queued as
/// unvisited) and adds an edge to it.
pub fn populate_node(graph: &mut StateGraph, from_id: usize, shared: &SharedGameState)
    requires
        shared.wf(),
        explored_except(*old(graph), *shared, from_id as int),
        from_id < old(graph).next_id,
        old(graph).next_id < NODE_CAPACITY,
    ensures
        explored_ok(*final(graph), *shared),
        final(graph).next_id >= old(graph).next_id,
        final(graph).next_id <= old(graph).next_id + MAX_SUCCESSORS,
        final(graph).keys@.subrange(0, old(graph).next_id as int) == old(graph).keys@,
        forall|id: int| 0 <= id < old(graph).next_id ==> #[trigger] final(graph).unvisited@[id] == old(graph).unvisited@[id],
        forall|id: int| old(graph).next_id <= id < final(graph).next_id ==> #[trigger] final(graph).unvisited@[id],
        final(graph).keys@ == old(graph).keys@ + added_keys(
            old(graph).pairs().dom(),
            adjacent_spec(*shared, key_node(old(graph).keys@[from_id as int])),
        ),
        final(graph).next_unvisited@ == old(graph).next_unvisited@ + id_range(
            old(graph).next_id as int,
            final(graph).next_id as int,
        ),
{
    let ghost g0 = *graph;
    let source_node = match graph.get_state(from_id) {
        Some(n) => n,
        None => {
            return;
        },
    };
    let ghost sv = node_view(source_node);
    proof {
        lemma_key_round_trip(source_node);
        assert(sv == key_node(g0.keys@[from_id as int]));
        assert(node_valid(*shared, sv));
    }
    let adjacent_nodes = get_all_adjacent_nodes(&source_node, shared);
    proof {
        lemma_box_count(*shared, sv.0);
        lemma_box_succs_len(*shared, sv.0, sv.1, sv.0.len() as int);
    }
    let ghost succs = adjacent_spec(*shared, sv);
    let ghost known = g0.pairs().dom();
    proof {
        assert(graph.keys@.subrange(0, g0.next_id as int) =~= g0.keys@);
        assert(succs.subrange(0, 0) =~= Seq::<NodeView>::empty());
        assert(graph.keys@ =~= g0.keys@ + added_keys(known, succs.subrange(0, 0)));
        assert(graph.next_unvisited@ =~= g0.next_unvisited@ + id_range(g0.next_id as int, graph.next_id as int));
    }
    let mut k: usize = 0;
    while k < adjacent_nodes.len()
        invariant
            shared.wf(),
            g0 == *old(graph),
            explored_except(g0, *shared, from_id as int),
            from_id < g0.next_id,
            g0.next_id < NODE_CAPACITY,
            succs == adjacent_spec(*shared, key_node(g0.keys@[from_id as int])),
            adjacent_nodes@.len() == succs.len(),
            succs.len() <= MAX_SUCCESSORS,
            forall|m: int|
                0 <= m < adjacent_nodes@.len() ==> #[trigger] node_view(adjacent_nodes@[m]) == succs[m]
                    && adjacent_nodes@[m].environment.wf() && node_valid(*shared, node_view(adjacent_nodes@[m])),
            k <= adjacent_nodes@.len(),
            graph.wf(),
            g0.next_id <= graph.next_id <= g0.next_id + k,
            graph.keys@.subrange(0, g0.next_id as int) == g0.keys@,
            forall|key: KeyView|
                #[trigger] g0.pairs().contains_key(key) ==> graph.pairs().contains_key(key)
                    && graph.pairs()[key] == g0.pairs()[key],
            forall|id: int| 0 <= id < graph.next_id ==> node_valid(*shared, key_node(#[trigger] graph.keys@[id])),
            forall|id: int| 0 <= id < g0.next_id ==> #[trigger] graph.unvisited@[id] == g0.unvisited@[id],
            forall|id: int| g0.next_id <= id < graph.next_id ==> #[trigger] graph.unvisited@[id],
            forall|id: int|
                0 <= id < g0.next_id && id != from_id ==> #[trigger] graph.successors@[id] == g0.successors@[id],
            forall|id: int| g0.next_id <= id < graph.next_id ==> (#[trigger] graph.successors@[id])@.len() == 0,
            forall|m: int| 0 <= m < k ==> graph.pairs().contains_key(#[trigger] view_key(succs[m])),
            forall|t: usize|
                #[trigger] graph.has_edge(from_id as int, t) <==> exists|m: int|
                    0 <= m < k && graph.pairs()[#[trigger] view_key(succs[m])] == t,
            known == g0.pairs().dom(),
            graph.keys@ == g0.keys@ + added_keys(known, succs.subrange(0, k as int)),
            forall|key: KeyView|
                #[trigger] graph.pairs().contains_key(key) <==> (g0.pairs().contains_key(key) || added_keys(
                    known,
                    succs.subrange(0, k as int),
                ).contains(key)),
            graph.next_unvisited@ == g0.next_unvisited@ + id_range(g0.next_id as int, graph.next_id as int),
            forall|id: int| g0.next_id <= id < graph.next_id ==> #[trigger] is_child(*graph, *shared, from_id as int, id),
        decreases adjacent_nodes@.len() - k,
    {
        let node = adjacent_nodes[k].duplicate();
        let ghost gb = *graph;
        proof {
            assert(node_view(adjacent_nodes@[k as int]) == succs[k as int]);
            assert(adjacent_nodes@[k as int].environment.wf());
            assert(node_view(node) == node_view(adjacent_nodes@[k as int]));
            assert(node_key(node) == view_key(succs[k as int]));
        }
        let to_id = graph.upsert_state(node);
        let ghost gm = *graph;
        graph.add_edge(Edge { from: from_id, to: to_id });
        proof {
            let nk = view_key(succs[k as int]);
            let aa = added_keys(known, succs.subrange(0, k as int));
            let s1 = succs.subrange(0, k + 1);
            assert(s1.drop_last() =~= succs.subrange(0, k as int));
            assert(s1.last() == succs[k as int]);
            let a2 = added_keys(known, s1);
            assert(gb.pairs().contains_key(nk) == (known.contains(nk) || aa.contains(nk)));
            if gb.pairs().contains_key(nk) {
                assert(a2 == aa);
                assert(graph.keys@ == gb.keys@);
                assert(graph.next_id == gb.next_id);
            } else {
                assert(a2 == aa.push(nk));
                assert(graph.keys@ =~= g0.keys@ + a2);
                assert(id_range(g0.next_id as int, gb.next_id + 1) =~= id_range(g0.next_id as int, gb.next_id as int).push(gb.next_id));
                assert(graph.next_unvisited@ =~= g0.next_unvisited@ + id_range(g0.next_id as int, graph.next_id as int));
            }
            assert forall|key: KeyView| #[trigger] graph.pairs().contains_key(key) <==> (g0.pairs().contains_key(key) || a2.contains(key)) by {
                if !gb.pairs().contains_key(nk) {
                    if a2.contains(key) && key != nk {
                        let j = choose|j: int| 0 <= j < a2.len() && a2[j] == key;
                        assert(aa[j] == key);
                    }
                    if aa.contains(key) {
                        let j = choose|j: int| 0 <= j < aa.len() && aa[j] == key;
                        assert(a2[j] == key);
                    }
                    if key == nk {
                        assert(a2[aa.len() as int] == nk);
                    }
                }
            }
            assert(graph.keys@[from_id as int] == g0.keys@[from_id as int]) by {
                assert(graph.keys@.subrange(0, g0.next_id as int)[from_id as int] == g0.keys@[from_id as int]);
            }
            assert forall|id: int| g0.next_id <= id < graph.next_id implies #[trigger] is_child(*graph, *shared, from_id as int, id) by {
                if id < gb.next_id {
                    assert(is_child(gb, *shared, from_id as int, id));
                    assert(gb.keys@[id] == graph.keys@[id]);
                    assert(gb.keys@[from_id as int] == graph.keys@[from_id as int]);
                    let m = choose|m: int|
                        0 <= m < adjacent_spec(*shared, key_node(gb.keys@[from_id as int])).len() && #[trigger] view_key(
                            adjacent_spec(*shared, key_node(gb.keys@[from_id as int]))[m],
                        ) == gb.keys@[id];
                    assert(view_key(adjacent_spec(*shared, key_node(graph.keys@[from_id as int]))[m]) == graph.keys@[id]);
                } else {
                    assert(graph.keys@[id] == nk);
                    assert(view_key(adjacent_spec(*shared, key_node(graph.keys@[from_id as int]))[k as int]) == graph.keys@[id]);
                }
            }
            assert(gm.pairs().contains_key(nk) && gm.pairs()[nk] == to_id);
            assert forall|key: KeyView| #[trigger] gb.pairs().contains_key(key) implies gm.pairs().contains_key(key)
                && gm.pairs()[key] == gb.pairs()[key] by {
                if !gb.pairs().contains_key(nk) {
                    assert(key != nk);
                }
            }
            assert(graph.keys@.subrange(0, g0.next_id as int) =~= g0.keys@) by {
                assert forall|i: int| 0 <= i < g0.next_id implies graph.keys@[i] == g0.keys@[i] by {
                    assert(gb.keys@.subrange(0, g0.next_id as int)[i] == g0.keys@[i]);
                }
            }
            assert forall|id: int| 0 <= id < graph.next_id implies node_valid(*shared, key_node(#[trigger] graph.keys@[id])) by {
                if id >= gb.next_id {
                    assert(graph.keys@[id] == nk);
                    lemma_key_round_trip(adjacent_nodes@[k as int]);
                    assert(key_node(nk) == node_view(adjacent_nodes@[k as int]));
                } else {
                    assert(graph.keys@[id] == gb.keys@[id]);
                }
            }
            assert forall|id: int| 0 <= id < g0.next_id && id != from_id implies #[trigger] graph.successors@[id] == g0.successors@[id] by {
                assert(gm.successors@[id] == gb.successors@[id]);
            }
            assert forall|id: int| g0.next_id <= id < graph.next_id implies (#[trigger] graph.successors@[id])@.len() == 0 by {
                assert(graph.successors@[id] == gm.successors@[id]);
                if id < gb.next_id {
                    assert(gm.successors@[id] == gb.successors@[id]);
                }
            }
            assert forall|id: int| g0.next_id <= id < graph.next_id implies #[trigger] graph.unvisited@[id] by {
                if id < gb.next_id {
                    assert(gm.unvisited@[id] == gb.unvisited@[id]);
                }
            }
            assert forall|m: int| 0 <= m < k + 1 implies graph.pairs().contains_key(#[trigger] view_key(succs[m])) by {
                if m < k {
                    assert(gb.pairs().contains_key(view_key(succs[m])));
                }
            }
            assert forall|t: usize| #[trigger] graph.has_edge(from_id as int, t) <==> exists|m: int|
                0 <= m < k + 1 && graph.pairs()[#[trigger] view_key(succs[m])] == t by {
                if graph.has_edge(from_id as int, t) {
                    if t != to_id {
                        assert(gb.has_edge(from_id as int, t)) by {
                            assert(gm.has_edge(from_id as int, t) == gb.has_edge(from_id as int, t));
                        }
                        let m = choose|m: int| 0 <= m < k && gb.pairs()[#[trigger] view_key(succs[m])] == t;
                        assert(gb.pairs().contains_key(view_key(succs[m])));
                        assert(graph.pairs()[view_key(succs[m])] == t);
                    } else {
                        assert(graph.pairs()[view_key(succs[k as int])] == t);
                    }
                }
                if exists|m: int| 0 <= m < k + 1 && graph.pairs()[#[trigger] view_key(succs[m])] == t {
                    let m = choose|m: int| 0 <= m < k + 1 && graph.pairs()[#[trigger] view_key(succs[m])] == t;
                    if m < k {
                        assert(gb.pairs().contains_key(view_key(succs[m])));
                        assert(gb.pairs()[view_key(succs[m])] == t);
                        assert(gb.has_edge(from_id as int, t));
                        assert(gm.has_edge(from_id as int, t) == gb.has_edge(from_id as int, t));
                    }
                }
            }
        }
        k += 1;
    }
    proof {
        let g = *graph;
        let n = g.next_id as int;
        assert(succs.subrange(0, k as int) =~= succs);
        assert forall|id: int| 1 <= id < n implies #[trigger] has_parent(g, *shared, id) by {
            if id < g0.next_id {
                assert(has_parent(g0, *shared, id));
                let u = choose|u: int| 0 <= u < id && #[trigger] is_child(g0, *shared, u, id);
                assert(g.keys@[u] == g0.keys@[u]) by {
                    assert(g.keys@.subrange(0, g0.next_id as int)[u] == g0.keys@[u]);
                }
                assert(g.keys@[id] == g0.keys@[id]) by {
                    assert(g.keys@.subrange(0, g0.next_id as int)[id] == g0.keys@[id]);
                }
                let m = choose|m: int|
                    0 <= m < adjacent_spec(*shared, key_node(g0.keys@[u])).len() && #[trigger] view_key(
                        adjacent_spec(*shared, key_node(g0.keys@[u]))[m],
                    ) == g0.keys@[id];
                assert(view_key(adjacent_spec(*shared, key_node(g.keys@[u]))[m]) == g.keys@[id]);
                assert(is_child(g, *shared, u, id));
            } else {
                assert(is_child(g, *shared, from_id as int, id));
            }
        }
        assert forall|id: int| 0 <= id < n && #[trigger] g.unvisited@[id] implies g.successors@[id]@.len() == 0 by {
            if id < g0.next_id {
                assert(id != from_id);
                assert(g.successors@[id] == g0.successors@[id]);
            }
        }
        assert forall|id: int| 0 <= id < n && id != -1 && !#[trigger] g.unvisited@[id] implies expanded_ok(g, *shared, id) by {
            assert(id < g0.next_id);
            assert(g.keys@[id] == g0.keys@[id]) by {
                assert(g.keys@.subrange(0, g0.next_id as int)[id] == g0.keys@[id]);
            }
            if id == from_id {
            } else {
                assert(expanded_ok(g0, *shared, id));
                assert(g.successors@[id] == g0.successors@[id]);
                let ss = adjacent_spec(*shared, key_node(g0.keys@[id]));
                assert forall|m: int| 0 <= m < ss.len() implies g.pairs().contains_key(#[trigger] view_key(ss[m])) by {
                    assert(g0.pairs().contains_key(view_key(ss[m])));
                }
                assert forall|t: usize| #[trigger] g.has_edge(id, t) <==> exists|m: int|
                    0 <= m < ss.len() && g.pairs()[#[trigger] view_key(ss[m])] == t by {
                    assert(g.has_edge(id, t) == g0.has_edge(id, t));
                    if g0.has_edge(id, t) {
                        let m = choose|m: int| 0 <= m < ss.len() && g0.pairs()[#[trigger] view_key(ss[m])] == t;
                        assert(g0.pairs().contains_key(view_key(ss[m])));
                    }
                    if exists|m: int| 0 <= m < ss.len() && g.pairs()[#[trigger] view_key(ss[m])] == t {
                        let m = choose|m: int| 0 <= m < ss.len() && g.pairs()[#[trigger] view_key(ss[m])] == t;
                        assert(g0.pairs().contains_key(view_key(ss[m])));
                    }
                }
            }
        }
    }
}

/// Number of ids still waiting for expansion.
pub open spec fn count_unvisited(s: Seq<bool>) -> nat
    decreases s.len(),
{
    if s.len() == 0 {
        0
    } else {
        count_unvisited(s.drop_last()) + if s.last() {
            1nat
        } else {
            0nat
        }
    }
}

proof fn lemma_count_le(s: Seq<bool>)
    ensures
        count_unvisited(s) <= s.len(),
    decreases s.len(),
{
    if s.len() > 0 {
        lemma_count_le(s.drop_last());
    }
}

proof fn lemma_count_clear(s: Seq<bool>, i: int)
    requires
        0 <= i < s.len(),
        s[i],
    ensures
        count_unvisited(s.update(i, false)) + 1 == count_unvisited(s),
    decreases s.len(),
{
    let t = s.update(i, false);
    if i == s.len() - 1 {
        assert(t.drop_last() =~= s.drop_last());
    } else {
        assert(t.drop_last() =~= s.drop_last().update(i, false));
        lemma_count_clear(s.drop_last(), i);
    }
}

proof fn lemma_count_extend(s1: Seq<bool>, s2: Seq<bool>)
    requires
        s1.len() <= s2.len(),
        forall|i: int| 0 <= i < s1.len() ==> s2[i] == s1[i],
        forall|i: int| s1.len() <= i < s2.len() ==> s2[i],
    ensures
        count_unvisited(s2) == count_unvisited(s1) + (s2.len() - s1.len()),
    decreases s2.len(),
{
    if s2.len() == s1.len() {
        assert(s2 =~= s1);
    } else {
        lemma_count_extend(s1, s2.drop_last());
    }
}

/// One expansion step from `before` to `after` took the first live id
/// `before.next_unvisited[i]` off the FIFO, marked it visited, appended
/// exactly its successors that were not nodes yet (in enumeration order)
/// and queued their ids.
pub open spec fn expands(before: StateGraph, after: StateGraph, board: SharedGameState, i: int) -> bool {
    let x = before.next_unvisited@[i] as int;
    &&& after.keys@ == before.keys@ + added_keys(before.pairs().dom(), adjacent_spec(board, key_node(before.keys@[x])))
    &&& after.next_unvisited@ == before.next_unvisited@.subrange(i + 1, before.next_unvisited@.len() as int)
        + id_range(before.next_id as int, after.next_id as int)
    &&& forall|id: int|
        0 <= id < before.next_id ==> #[trigger] after.unvisited@[id] == (before.unvisited@[id] && id != x)
    &&& forall|id: int| before.next_id <= id < after.next_id ==> #[trigger] after.unvisited@[id]
}

proof fn lemma_parents_kept(g0: StateGraph, g1: StateGraph, board: SharedGameState)
    requires
        g1.keys@ == g0.keys@,
        g1.next_id == g0.next_id,
        forall|id: int| 1 <= id < g0.next_id ==> #[trigger] has_parent(g0, board, id),
    ensures
        forall|id: int| 1 <= id < g1.next_id ==> #[trigger] has_parent(g1, board, id),
{
    assert forall|id: int| 1 <= id < g1.next_id implies #[trigger] has_parent(g1, board, id) by {
        assert(has_parent(g0, board, id));
        let u = choose|u: int| 0 <= u < id && #[trigger] is_child(g0, board, u, id);
        let m = choose|m: int|
            0 <= m < adjacent_spec(board, key_node(g0.keys@[u])).len() && #[trigger] view_key(
                adjacent_spec(board, key_node(g0.keys@[u]))[m],
            ) == g0.keys@[id];
        assert(view_key(adjacent_spec(board, key_node(g1.keys@[u]))[m]) == g1.keys@[id]);
        assert(is_child(g1, board, u, id));
    }
}

/// Takes the next unvisited id off the worklist and expands it, or reports
/// that every node has been expanded.
pub fn populate_step(graph: &mut StateGraph, shared: &SharedGameState) -> (r: PopulateResult)
    requires
        shared.wf(),
        explored_ok(*old(graph), *shared),
        old(graph).next_id < NODE_CAPACITY,
    ensures
        explored_ok(*final(graph), *shared),
        r == PopulateResult::AllVisited ==> {
            &&& final(graph).pairs() == old(graph).pairs()
            &&& final(graph).next_id == old(graph).next_id
            &&& final(graph).keys@ == old(graph).keys@
            &&& final(graph).successors@ == old(graph).successors@
            &&& final(graph).next_unvisited@.len() == 0
            &&& forall|id: int| 0 <= id < final(graph).next_id ==> !#[trigger] final(graph).unvisited@[id]
            &&& forall|j: int|
                0 <= j < old(graph).next_unvisited@.len() ==> !old(graph).unvisited@[#[trigger] old(graph).next_unvisited@[j] as int]
        },
        final(graph).keys@.subrange(0, old(graph).next_id as int) == old(graph).keys@,
        r == PopulateResult::Populated ==> {
            &&& old(graph).next_id <= final(graph).next_id <= old(graph).next_id + MAX_SUCCESSORS
            &&& count_unvisited(final(graph).unvisited@) + 1 == count_unvisited(old(graph).unvisited@) + (
            final(graph).next_id - old(graph).next_id)
            &&& exists|i: int|
                first_live(old(graph).next_unvisited@, old(graph).unvisited@, i) && expands(
                    *old(graph),
                    *final(graph),
                    *shared,
                    i,
                )
        },
{
    let ghost g0 = *graph;
    match graph.take_and_visit_unvisited_node() {
        None => {
            proof {
                lemma_parents_kept(g0, *graph, *shared);
                assert(graph.keys@.subrange(0, g0.next_id as int) =~= g0.keys@);
                assert forall|id: int| 0 <= id < graph.next_id && !#[trigger] graph.unvisited@[id]
                    implies expanded_ok(*graph, *shared, id) by {
                    let ss = adjacent_spec(*shared, key_node(g0.keys@[id]));
                    assert forall|t: usize| #[trigger] graph.has_edge(id, t) <==> exists|m: int|
                        0 <= m < ss.len() && graph.pairs()[#[trigger] view_key(ss[m])] == t by {
                        assert(graph.has_edge(id, t) == g0.has_edge(id, t));
                    }
                }
            }
            PopulateResult::AllVisited
        },
        Some(node_id) => {
            let ghost g1 = *graph;
            proof {
                lemma_count_clear(g0.unvisited@, node_id as int);
                assert forall|id: int| 0 <= id < g1.next_id && id != node_id && !#[trigger] g1.unvisited@[id]
                    implies expanded_ok(g1, *shared, id) by {
                    assert(!g0.unvisited@[id]);
                    assert(expanded_ok(g0, *shared, id));
                    let ss = adjacent_spec(*shared, key_node(g0.keys@[id]));
                    assert forall|t: usize| #[trigger] g1.has_edge(id, t) <==> exists|m: int|
                        0 <= m < ss.len() && g1.pairs()[#[trigger] view_key(ss[m])] == t by {
                        assert(g1.has_edge(id, t) == g0.has_edge(id, t));
                    }
                }
                assert forall|id: int| 0 <= id < g1.next_id && #[trigger] g1.unvisited@[id]
                    implies g1.successors@[id]@.len() == 0 by {
                    assert(g0.unvisited@[id]);
                }
            }
            proof {
                lemma_parents_kept(g0, g1, *shared);
            }
            populate_node(graph, node_id, shared);
            proof {
                lemma_count_extend(g1.unvisited@, graph.unvisited@);
                let i = choose|i: int|
                    first_live(g0.next_unvisited@, g0.unvisited@, i) && #[trigger] g0.next_unvisited@[i] == node_id
                        && g1.next_unvisited@ == g0.next_unvisited@.subrange(i + 1, g0.next_unvisited@.len() as int);
                assert(g1.pairs().dom() == g0.pairs().dom());
                assert(expands(g0, *graph, *shared, i));
            }
            PopulateResult::Populated
        },
    }
}

/// Some path along edges leads from node 0 to `id`.
pub open spec fn reached_from_root(g: StateGraph, id: int) -> bool {
    exists|p: Seq<int>| #[trigger] is_path(g, p) && p[0] == 0 && p.last() == id
}

/// Once every node is expanded, every node can be reached from node 0
/// along edges.
pub proof fn lemma_reachable_from_root(g: StateGraph, board: SharedGameState, id: int)
    requires
        explored_ok(g, board),
        forall|x: int| 0 <= x < g.next_id ==> !#[trigger] g.unvisited@[x],
        0 <= id < g.next_id,
    ensures
        reached_from_root(g, id),
    decreases id,
{
    if id == 0 {
        let p = seq![0int];
        assert(is_path(g, p));
    } else {
        assert(has_parent(g, board, id));
        let u = choose|u: int| 0 <= u < id && #[trigger] is_child(g, board, u, id);
        let succs = adjacent_spec(board, key_node(g.keys@[u]));
        let m = choose|m: int| 0 <= m < succs.len() && #[trigger] view_key(succs[m]) == g.keys@[id];
        assert(!g.unvisited@[u]);
        assert(expanded_ok(g, board, u));
        assert(g.pairs().contains_key(g.keys@[id]) && g.pairs()[g.keys@[id]] == id);
        assert(g.pairs()[view_key(succs[m])] == id as usize);
        assert(g.has_edge(u, id as usize));
        lemma_reachable_from_root(g, board, u);
        let q = choose|q: Seq<int>| #[trigger] is_path(g, q) && q[0] == 0 && q.last() == u;
        let p = q.push(id);
        assert forall|k: int| 0 <= k < p.len() - 1 implies #[trigger] g.has_edge(p[k], p[k + 1] as usize) by {
            if k < q.len() - 1 {
                assert(p[k] == q[k] && p[k + 1] == q[k + 1]);
                assert(g.has_edge(q[k], q[k + 1] as usize));
            } else {
                assert(p[k] == u && p[k + 1] == id);
            }
        }
        assert forall|k: int| 0 <= k < p.len() implies 0 <= #[trigger] p[k] < g.next_id by {
            if k < q.len() {
                assert(p[k] == q[k]);
            }
        }
        assert(is_path(g, p));
        assert(p[0] == 0 && p.last() == id);
    }
}

/// Whether `explore` may start from `state`: the player on the board and
/// not on a box, every box on the board.
pub fn can_explore_from(shared: &SharedGameState, state: &GameState) -> (r: bool)
    requires
        shared.wf(),
    ensures
        r == (shared.spec_in_bounds(state.player) && !state.environment.box_set().contains(state.player)
            && boxes_on_board(*shared, state.environment.boxes@)),
{
    if !shared.in_bounds(state.player) || state.environment.has_box_at(&state.player) {
        return false;
    }
    let boxes = state.environment.iter_boxes();
    let mut k: usize = 0;
    while k < boxes.len()
        invariant
            shared.wf(),
            boxes@ == state.environment.boxes@,
            k <= boxes@.len(),
            forall|m: int| 0 <= m < k ==> shared.spec_in_bounds(#[trigger] boxes@[m]),
        decreases boxes@.len() - k,
    {
        if !shared.in_bounds(boxes[k]) {
            return false;
        }
        k += 1;
    }
    true
}

/// Builds the state graph of `initial_state` on `shared`: the initial
/// node, then expansion in FIFO order until every node is expanded (or
/// the id space is exhausted). Returns the graph and the initial node's id.
pub fn explore(shared: &SharedGameState, initial_state: GameState) -> (r: (StateGraph, usize))
    requires
        shared.wf(),
        initial_state.environment.wf(),
        boxes_on_board(*shared, initial_state.environment.boxes@),
        shared.spec_in_bounds(initial_state.player),
        !initial_state.environment.box_set().contains(initial_state.player),
    ensures
        explored_ok(r.0, *shared),
        r.1 == 0,
        r.0.next_id >= 1,
        r.0.keys@[0] == view_key(
            (
                initial_state.environment.boxes@,
                crate::reach::canonical_player(
                    *shared,
                    initial_state.environment.box_set(),
                    initial_state.player,
                ),
            ),
        ),
        r.0.next_id < NODE_CAPACITY ==> (forall|id: int|
            0 <= id < r.0.next_id ==> !#[trigger] r.0.unvisited@[id]),
        r.0.next_id < NODE_CAPACITY ==> (forall|id: int|
            0 <= id < r.0.next_id ==> #[trigger] reached_from_root(r.0, id)),
{
    let mut graph = StateGraph::new();
    let ghost player = initial_state.player;
    let ghost set = initial_state.environment.box_set();
    let first = UniqueNode::from_game_state(initial_state, shared);
    proof {
        lemma_reachable_open(*shared, set, player, first.minimum_reachable_player_position);
        lemma_key_round_trip(first);
    }
    let first_id = graph.upsert_state(first);
    proof {
        assert(graph.keys@[0] == node_key(first));
        assert(key_node(node_key(first)) == node_view(first));
        assert forall|id: int| 0 <= id < graph.next_id implies node_valid(*shared, key_node(#[trigger] graph.keys@[id])) by {
            assert(id == 0);
        }
        lemma_count_le(graph.unvisited@);
    }
    let ghost k0 = graph.keys@[0];
    while graph.next_id < NODE_CAPACITY
        invariant
            shared.wf(),
            explored_ok(graph, *shared),
            graph.next_id >= 1,
            graph.keys@[0] == k0,
        ensures
            explored_ok(graph, *shared),
            graph.next_id >= 1,
            graph.keys@[0] == k0,
            graph.next_id < NODE_CAPACITY ==> (forall|id: int|
                0 <= id < graph.next_id ==> !#[trigger] graph.unvisited@[id]),
        decreases 2 * (usize::MAX - graph.next_id) + count_unvisited(graph.unvisited@),
    {
        let ghost gb = graph;
        proof {
            lemma_count_le(graph.unvisited@);
        }
        match populate_step(&mut graph, shared) {
            PopulateResult::AllVisited => {
                break;
            },
            PopulateResult::Populated => {
                proof {
                    assert(graph.keys@[0] == graph.keys@.subrange(0, gb.next_id as int)[0]);
                    lemma_count_le(graph.unvisited@);
                }
            },
        }
    }
    proof {
        if graph.next_id < NODE_CAPACITY {
            assert forall|id: int| 0 <= id < graph.next_id implies #[trigger] reached_from_root(graph, id) by {
                lemma_reachable_from_root(graph, *shared, id);
            }
        }
    }
    (graph, first_id)
}

/// Once exploration has expanded every node, the edges are exactly the
/// push transitions: for each node `id`, every canonical successor by one
/// push (that the heuristic keeps) is a node, and an edge leaves `id` to `t`
/// exactly when `t` is the id of one of those successors.
pub proof fn lemma_exploration_edges_exact(g: StateGraph, board: SharedGameState, id: int)
    requires
        explored_ok(g, board),
        forall|x: int| 0 <= x < g.next_id ==> !#[trigger] g.unvisited@[x],
        0 <= id < g.next_id,
    ensures
        forall|m: int|
            0 <= m < adjacent_spec(board, key_node(g.keys@[id])).len() ==> g.pairs().contains_key(
                #[trigger] view_key(adjacent_spec(board, key_node(g.keys@[id]))[m]),
            ),
        forall|t: usize|
            #[trigger] g.has_edge(id, t) <==> exists|m: int|
                0 <= m < adjacent_spec(board, key_node(g.keys@[id])).len() && g.pairs()[#[trigger] view_key(
                    adjacent_spec(board, key_node(g.keys@[id]))[m],
                )] == t,
{
    assert(!g.unvisited@[id]);
    assert(expanded_ok(g, board, id));
}

/// A box that the corner test reports as trapped can never be pushed: from
/// a node whose player cell is open, no direction yields a successor
/// through that box.
pub proof fn lemma_trapped_box_has_no_push(
    board: SharedGameState,
    boxes: Seq<Vec2>,
    start: Vec2,
    b: Vec2,
    d: Direction,
)
    requires
        board.wf(),
        board.spec_in_bounds(b),
        crate::heuristics::spec_box_trapped(board, b),
        crate::reach::open_cell(board, boxes.to_set(), start),
    ensures
        push_succ(board, boxes, start, b, d) is None,
{
    let set = boxes.to_set();
    let pi = b.i - dir_di(d);
    let pj = b.j - dir_dj(d);
    let p = mk_pos(pi, pj);
    if on_board(board, pi, pj) && reachable(board, set, start, p) {
        lemma_reachable_open(board, set, start, p);
        // the pusher's cell is walkable, so the cell beyond the box is blocked
        assert(!crate::heuristics::blocked_cell(board, pi, pj)) by {
            assert(p.i == pi && p.j == pj);
        }
        let qi = b.i + dir_di(d);
        let qj = b.j + dir_dj(d);
        assert(crate::heuristics::blocked_cell(board, qi, qj));
        let q = mk_pos(qi, qj);
        assert(mk_pos(pi + dir_di(d), pj + dir_dj(d)) == b);
        assert(!on_board(board, qi, qj) || !board.spec_cell(q).spec_is_walkable());
    }
}

proof fn lemma_dir_succs_differ(board: SharedGameState, boxes: Seq<Vec2>, start: Vec2, b: Vec2, k: int, m: int)
    requires
        0 <= m < dir_succs(board, boxes, start, b, k).len(),
    ensures
        dir_succs(board, boxes, start, b, k)[m] != (boxes, start),
    decreases k,
{
    if k > 0 {
        let prev = dir_succs(board, boxes, start, b, k - 1);
        if m < prev.len() {
            lemma_dir_succs_differ(board, boxes, start, b, k - 1, m);
        }
    }
}

proof fn lemma_box_succs_differ(board: SharedGameState, boxes: Seq<Vec2>, start: Vec2, n: int, m: int)
    requires
        0 <= m < box_succs(board, boxes, start, n).len(),
    ensures
        box_succs(board, boxes, start, n)[m] != (boxes, start),
    decreases n,
{
    if n > 0 {
        let prev = box_succs(board, boxes, start, n - 1);
        if m < prev.len() {
            lemma_box_succs_differ(board, boxes, start, n - 1, m);
        } else {
            lemma_dir_succs_differ(board, boxes, start, boxes[n - 1], 4, m - prev.len());
        }
    }
}

proof fn lemma_view_key_injective(v1: NodeView, v2: NodeView)
    requires
        view_key(v1) == view_key(v2),
    ensures
        v1 == v2,
{
    assert(v1.0.len() == view_key(v1).0.len());
    assert forall|k: int| 0 <= k < v1.0.len() implies v1.0[k] == v2.0[k] by {
        assert(view_key(v1).0[k] == view_key(v2).0[k]);
    }
    assert(v1.0 =~= v2.0);
}

/// An explored graph has no self-edge: every push changes the canonical
/// node.
pub proof fn lemma_no_self_edge(g: StateGraph, board: SharedGameState, id: int)
    requires
        explored_ok(g, board),
        0 <= id < g.next_id,
    ensures
        !g.has_edge(id, id as usize),
{
    if g.has_edge(id, id as usize) {
        if g.unvisited@[id] {
            assert(g.successors@[id]@.len() == 0);
        } else {
            assert(expanded_ok(g, board, id));
            let v = key_node(g.keys@[id]);
            let succs = adjacent_spec(board, v);
            let m = choose|m: int| 0 <= m < succs.len() && g.pairs()[#[trigger] view_key(succs[m])] == id as usize;
            let k = view_key(succs[m]);
            assert(g.pairs().contains_key(k));
            assert(g.keys@[g.pairs()[k] as int] == k);
            assert(k == g.keys@[id]);
            assert(view_key(key_node(g.keys@[id])) == g.keys@[id]) by {
                let kk = g.keys@[id];
                assert(view_key(key_node(kk)).0 =~= kk.0);
            }
            lemma_view_key_injective(succs[m], v);
            lemma_box_succs_differ(board, v.0, v.1, v.0.len() as int, m);
        }
    }
}

/// Some push of box `b` in some direction gives `x`.
pub open spec fn pushes_to(board: SharedGameState, boxes: Seq<Vec2>, start: Vec2, b: Vec2, x: NodeView) -> bool {
    exists|d: Direction| #[trigger] push_succ(board, boxes, start, b, d) == Some(x)
}

proof fn lemma_dir_succs_members(board: SharedGameState, boxes: Seq<Vec2>, start: Vec2, b: Vec2, k: int, x: NodeView)
    requires
        0 <= k <= 4,
    ensures
        dir_succs(board, boxes, start, b, k).contains(x) <==> exists|i: int|
            0 <= i < k && #[trigger] push_succ(board, boxes, start, b, push_dir(i)) == Some(x),
    decreases k,
{
    if k > 0 {
        lemma_dir_succs_members(board, boxes, start, b, k - 1, x);
        let prev = dir_succs(board, boxes, start, b, k - 1);
        let o = opt_seq(push_succ(board, boxes, start, b, push_dir(k - 1)));
        let cur = prev + o;
        if cur.contains(x) {
            let m = choose|m: int| 0 <= m < cur.len() && cur[m] == x;
            if m < prev.len() {
                assert(prev[m] == x);
            } else {
                assert(o[m - prev.len()] == x);
            }
        }
        if exists|i: int| 0 <= i < k && #[trigger] push_succ(board, boxes, start, b, push_dir(i)) == Some(x) {
            let i = choose|i: int| 0 <= i < k && #[trigger] push_succ(board, boxes, start, b, push_dir(i)) == Some(x);
            if i < k - 1 {
                assert(prev.contains(x));
                let m = choose|m: int| 0 <= m < prev.len() && prev[m] == x;
                assert(cur[m] == x);
            } else {
                assert(cur[prev.len() as int] == x);
            }
        }
    }
}

proof fn lemma_box_succs_members(board: SharedGameState, boxes: Seq<Vec2>, start: Vec2, n: int, x: NodeView)
    requires
        0 <= n <= boxes.len(),
    ensures
        box_succs(board, boxes, start, n).contains(x) <==> exists|k: int|
            0 <= k < n && #[trigger] pushes_to(board, boxes, start, boxes[k], x),
    decreases n,
{
    if n > 0 {
        lemma_box_succs_members(board, boxes, start, n - 1, x);
        let b = boxes[n - 1];
        lemma_dir_succs_members(board, boxes, start, b, 4, x);
        let prev = box_succs(board, boxes, start, n - 1);
        let ds = dir_succs(board, boxes, start, b, 4);
        let cur = prev + ds;
        // every direction is one of the four push directions
        assert(pushes_to(board, boxes, start, b, x) <==> ds.contains(x)) by {
            if pushes_to(board, boxes, start, b, x) {
                let d = choose|d: Direction| #[trigger] push_succ(board, boxes, start, b, d) == Some(x);
                let i: int = match d {
                    Direction::Down => 0,
                    Direction::Up => 1,
                    Direction::Right => 2,
                    Direction::Left => 3,
                };
                assert(push_dir(i) == d);
            }
            if ds.contains(x) {
                let i = choose|i: int| 0 <= i < 4 && #[trigger] push_succ(board, boxes, start, b, push_dir(i)) == Some(x);
                assert(push_succ(board, boxes, start, b, push_dir(i)) == Some(x));
            }
        }
        if cur.contains(x) {
            let m = choose|m: int| 0 <= m < cur.len() && cur[m] == x;
            if m < prev.len() {
                assert(prev[m] == x);
            } else {
                assert(ds[m - prev.len()] == x);
                assert(ds.contains(x));
            }
        }
        if exists|k: int| 0 <= k < n && #[trigger] pushes_to(board, boxes, start, boxes[k], x) {
            let k = choose|k: int| 0 <= k < n && #[trigger] pushes_to(board, boxes, start, boxes[k], x);
            if k < n - 1 {
                assert(prev.contains(x));
                let m = choose|m: int| 0 <= m < prev.len() && prev[m] == x;
                assert(cur[m] == x);
            } else {
                assert(ds.contains(x));
                let m = choose|m: int| 0 <= m < ds.len() && ds[m] == x;
                assert(cur[prev.len() + m] == x);
            }
        }
    }
}

/// Once exploration has expanded every node, an edge leaves `u` to `t`
/// exactly when some box of `u`'s node, pushed in some direction from a
/// cell the player reaches, gives a node (kept by the heuristic, different
/// from `u`'s) whose id is `t`; and every such result is a node.
pub proof fn lemma_edges_are_pushes(g: StateGraph, board: SharedGameState, u: int)
    requires
        explored_ok(g, board),
        forall|x: int| 0 <= x < g.next_id ==> !#[trigger] g.unvisited@[x],
        0 <= u < g.next_id,
    ensures
        forall|k: int, x: NodeView|
            0 <= k < key_node(g.keys@[u]).0.len() && #[trigger] pushes_to(
                board,
                key_node(g.keys@[u]).0,
                key_node(g.keys@[u]).1,
                key_node(g.keys@[u]).0[k],
                x,
            ) ==> g.pairs().contains_key(view_key(x)),
        forall|t: usize|
            #[trigger] g.has_edge(u, t) <==> exists|k: int, x: NodeView|
                0 <= k < key_node(g.keys@[u]).0.len() && #[trigger] pushes_to(
                    board,
                    key_node(g.keys@[u]).0,
                    key_node(g.keys@[u]).1,
                    key_node(g.keys@[u]).0[k],
                    x,
                ) && g.pairs()[view_key(x)] == t,
{
    let v = key_node(g.keys@[u]);
    let succs = adjacent_spec(board, v);
    lemma_exploration_edges_exact(g, board, u);
    assert forall|x: NodeView| succs.contains(x) <==> exists|k: int|
        0 <= k < v.0.len() && #[trigger] pushes_to(board, v.0, v.1, v.0[k], x) by {
        lemma_box_succs_members(board, v.0, v.1, v.0.len() as int, x);
    }
    assert forall|k: int, x: NodeView|
        0 <= k < v.0.len() && #[trigger] pushes_to(board, v.0, v.1, v.0[k], x) implies g.pairs().contains_key(view_key(x)) by {
        assert(succs.contains(x));
        let m = choose|m: int| 0 <= m < succs.len() && succs[m] == x;
        assert(g.pairs().contains_key(view_key(succs[m])));
    }
    assert forall|t: usize| #[trigger] g.has_edge(u, t) <==> exists|k: int, x: NodeView|
        0 <= k < v.0.len() && #[trigger] pushes_to(board, v.0, v.1, v.0[k], x) && g.pairs()[view_key(x)] == t by {
        if g.has_edge(u, t) {
            let m = choose|m: int| 0 <= m < succs.len() && g.pairs()[#[trigger] view_key(succs[m])] == t;
            let x = succs[m];
            assert(succs.contains(x));
            let k = choose|k: int| 0 <= k < v.0.len() && #[trigger] pushes_to(board, v.0, v.1, v.0[k], x);
            assert(pushes_to(board, v.0, v.1, v.0[k], x) && g.pairs()[view_key(x)] == t);
        }
        if exists|k: int, x: NodeView|
            0 <= k < v.0.len() && #[trigger] pushes_to(board, v.0, v.1, v.0[k], x) && g.pairs()[view_key(x)] == t {
            let (k, x) = choose|k: int, x: NodeView|
                0 <= k < v.0.len() && #[trigger] pushes_to(board, v.0, v.1, v.0[k], x) && g.pairs()[view_key(x)] == t;
            assert(succs.contains(x));
            let m = choose|m: int| 0 <= m < succs.len() && succs[m] == x;
            assert(g.pairs()[view_key(succs[m])] == t);
        }
    }
}

} // verus!
