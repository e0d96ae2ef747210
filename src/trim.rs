//! Win-reachability trimming: keep exactly the nodes from which some
//! winning node can be reached, and the edges between kept nodes.

use vstd::prelude::*;
use crate::board::{all_targets_covered, SharedGameState, WonCheckHelper};
use crate::box_set::GameStateEnvironment;
use crate::graph::StateGraph;
use crate::id_map::{id_pairs, ids_remove_by_right, KeyView};
use crate::model::Vec2;
use crate::unique_node::key_boxes;

verus! {

/// Sizes of the graph before and after trimming.
#[derive(Clone, Copy, Debug, PartialEq, Eq, Structural)]
pub struct TrimStats {
    pub nodes_before: usize,
    pub nodes_after: usize,
    pub edges_before: usize,
    pub edges_after: usize,
}

impl TrimStats {
    /// How many nodes trimming removed.
    pub fn nodes_removed(&self) -> (r: usize)
        requires
            self.nodes_after <= self.nodes_before,
        ensures
            r == self.nodes_before - self.nodes_after,
    {
        self.nodes_before - self.nodes_after
    }

    /// How many edges trimming removed.
    pub fn edges_removed(&self) -> (r: usize)
        requires
            self.edges_after <= self.edges_before,
        ensures
            r == self.edges_before - self.edges_after,
    {
        self.edges_before - self.edges_after
    }
}

/// Node `id` is winning: its boxes cover every target.
pub open spec fn winning(g: StateGraph, board: SharedGameState, id: int) -> bool {
    all_targets_covered(board, key_boxes(g.keys@[id]).to_set())
}

/// `p` is a path of ids along edges of `g`.
pub open spec fn is_path(g: StateGraph, p: Seq<int>) -> bool {
    &&& p.len() >= 1
    &&& forall|k: int| 0 <= k < p.len() ==> 0 <= #[trigger] p[k] < g.next_id
    &&& forall|k: int| 0 <= k < p.len() - 1 ==> #[trigger] g.has_edge(p[k], p[k + 1] as usize)
}

/// Some path from `x` ends in a winning node.
pub open spec fn reaches_win(g: StateGraph, board: SharedGameState, x: int) -> bool {
    exists|p: Seq<int>| #[trigger] is_path(g, p) && p[0] == x && winning(g, board, p.last())
}

/// Some path from `x` through nodes marked in `marks` ends in a winning node.
pub open spec fn reaches_win_within(g: StateGraph, board: SharedGameState, marks: Seq<bool>, x: int) -> bool {
    exists|p: Seq<int>|
        #[trigger] is_path(g, p) && p[0] == x && winning(g, board, p.last()) && forall|k: int|
            0 <= k < p.len() ==> #[trigger] marks[p[k]]
}

/// Number of `true` entries.
pub open spec fn count_true(s: Seq<bool>) -> nat
    decreases s.len(),
{
    if s.len() == 0 {
        0
    } else {
        count_true(s.drop_last()) + if s.last() {
            1nat
        } else {
            0nat
        }
    }
}

/// Total number of edges in successor lists.
pub open spec fn edge_total(rows: Seq<Vec<usize>>) -> nat
    decreases rows.len(),
{
    if rows.len() == 0 {
        0
    } else {
        edge_total(rows.drop_last()) + rows.last()@.len()
    }
}

proof fn lemma_count_true_set(s: Seq<bool>, i: int)
    requires
        0 <= i < s.len(),
        !s[i],
    ensures
        count_true(s.update(i, true)) == count_true(s) + 1,
    decreases s.len(),
{
    let t = s.update(i, true);
    if i == s.len() - 1 {
        assert(t.drop_last() =~= s.drop_last());
    } else {
        assert(t.drop_last() =~= s.drop_last().update(i, true));
        lemma_count_true_set(s.drop_last(), i);
    }
}

proof fn lemma_count_true_le(s: Seq<bool>)
    ensures
        count_true(s) <= s.len(),
    decreases s.len(),
{
    if s.len() > 0 {
        lemma_count_true_le(s.drop_last());
    }
}

/// Whether the boxes cover every target, given the board's targets.
fn covers_targets(helper: &WonCheckHelper, board: &SharedGameState, env: &GameStateEnvironment) -> (r: bool)
    requires
        forall|p: Vec2| helper.target_positions_sorted@.contains(p) <==> board.spec_is_target(p),
    ensures
        r == all_targets_covered(*board, env.boxes@.to_set()),
{
    let r = helper.is_won(env);
    proof {
        if r {
            assert forall|p: Vec2| board.spec_is_target(p) implies env.boxes@.to_set().contains(p) by {
                assert(helper.target_positions_sorted@.contains(p));
                let k = choose|k: int|
                    0 <= k < helper.target_positions_sorted@.len() && helper.target_positions_sorted@[k] == p;
                assert(env.boxes@.contains(helper.target_positions_sorted@[k]));
            }
        } else {
            let k = choose|k: int|
                0 <= k < helper.target_positions_sorted@.len() && !env.boxes@.contains(
                    #[trigger] helper.target_positions_sorted@[k],
                );
            assert(board.spec_is_target(helper.target_positions_sorted@[k]));
        }
    }
    r
}

/// The winning flag of every id.
fn winning_flags(graph: &StateGraph, shared: &SharedGameState) -> (r: Vec<bool>)
    requires
        graph.wf(),
        shared.wf(),
    ensures
        r@.len() == graph.next_id,
        forall|id: int| 0 <= id < graph.next_id ==> #[trigger] r@[id] == winning(*graph, *shared, id),
{
    let helper = shared.get_won_check_helper();
    let mut flags: Vec<bool> = Vec::new();
    let mut id: usize = 0;
    while id < graph.next_id
        invariant
            graph.wf(),
            shared.wf(),
            forall|p: Vec2| helper.target_positions_sorted@.contains(p) <==> shared.spec_is_target(p),
            id <= graph.next_id,
            flags@.len() == id,
            forall|i: int| 0 <= i < id ==> #[trigger] flags@[i] == winning(*graph, *shared, i),
        decreases graph.next_id - id,
    {
        let w = match graph.get_state(id) {
            Some(node) => {
                proof {
                    crate::unique_node::lemma_key_round_trip(node);
                }
                covers_targets(&helper, shared, &node.environment)
            },
            None => false,
        };
        flags.push(w);
        id += 1;
    }
    flags
}

/// `preds[y]` lists the ids with an edge to `y`.
fn predecessors(graph: &StateGraph) -> (r: Vec<Vec<usize>>)
    requires
        graph.wf(),
    ensures
        r@.len() == graph.next_id,
        forall|y: int, x: usize|
            0 <= y < graph.next_id ==> (#[trigger] r@[y]@.contains(x) <==> (x < graph.next_id
                && graph.has_edge(x as int, y as usize))),
{
    let n = graph.next_id;
    let mut preds: Vec<Vec<usize>> = Vec::new();
    let mut i: usize = 0;
    while i < n
        invariant
            i <= n,
            preds@.len() == i,
            forall|y: int| 0 <= y < i ==> (#[trigger] preds@[y])@.len() == 0,
        decreases n - i,
    {
        preds.push(Vec::new());
        i += 1;
    }
    let mut x: usize = 0;
    while x < n
        invariant
            graph.wf(),
            n == graph.next_id,
            x <= n,
            preds@.len() == n,
            forall|y: int, z: usize|
                0 <= y < n ==> (#[trigger] preds@[y]@.contains(z) <==> (z < x && graph.has_edge(
                    z as int,
                    y as usize,
                ))),
        decreases n - x,
    {
        let row = &graph.successors[x];
        let mut k: usize = 0;
        while k < row.len()
            invariant
                graph.wf(),
                n == graph.next_id,
                x < n,
                *row == graph.successors@[x as int],
                k <= row@.len(),
                preds@.len() == n,
                forall|y: int, z: usize|
                    0 <= y < n ==> (#[trigger] preds@[y]@.contains(z) <==> ((z < x && graph.has_edge(
                        z as int,
                        y as usize,
                    )) || (z == x && row@.subrange(0, k as int).contains(y as usize)))),
            decreases row@.len() - k,
        {
            let t = row[k];
            let ghost before = preds@;
            let mut list: Vec<usize> = Vec::new();
            std::mem::swap(&mut list, &mut preds[t]);
            let ghost old_list = list@;
            list.push(x);
            preds.set(t, list);
            proof {
                assert(old_list == before[t as int]@);
                assert forall|y: int, z: usize| 0 <= y < n implies (#[trigger] preds@[y]@.contains(z) <==> ((z < x
                    && graph.has_edge(z as int, y as usize)) || (z == x && row@.subrange(0, k + 1).contains(
                    y as usize,
                )))) by {
                    assert(row@.subrange(0, k + 1) =~= row@.subrange(0, k as int).push(t));
                    if y == t {
                        assert(row@.subrange(0, k + 1)[k as int] == t);
                        assert(row@.subrange(0, k + 1).contains(y as usize));
                        assert(preds@[y]@ == old_list.push(x));
                        if preds@[y]@.contains(z) && z != x {
                            let m = choose|m: int| 0 <= m < preds@[y]@.len() && preds@[y]@[m] == z;
                            assert(old_list[m] == z);
                        }
                        if old_list.contains(z) {
                            let m = choose|m: int| 0 <= m < old_list.len() && old_list[m] == z;
                            assert(preds@[y]@[m] == z);
                        }
                        if z == x {
                            assert(preds@[y]@[old_list.len() as int] == x);
                        }
                    } else {
                        assert(preds@[y] == before[y]);
                        let s0 = row@.subrange(0, k as int);
                        let s1 = row@.subrange(0, k + 1);
                        if s1.contains(y as usize) {
                            let m = choose|m: int| 0 <= m < s1.len() && s1[m] == y as usize;
                            assert(m < k);
                            assert(s0[m] == y as usize);
                        }
                        if s0.contains(y as usize) {
                            let m = choose|m: int| 0 <= m < s0.len() && s0[m] == y as usize;
                            assert(s1[m] == y as usize);
                        }
                    }
                }
            }
            k += 1;
        }
        proof {
            assert(row@.subrange(0, k as int) =~= row@);
        }
        x += 1;
    }
    preds
}

/// `x` has an edge to a node marked in `marks`.
pub open spec fn has_marked_succ(g: StateGraph, marks: Seq<bool>, x: int) -> bool {
    exists|y: int| 0 <= y < g.next_id && #[trigger] marks[y] && g.has_edge(x, y as usize)
}

proof fn lemma_within_grows(g: StateGraph, board: SharedGameState, m1: Seq<bool>, m2: Seq<bool>, x: int)
    requires
        reaches_win_within(g, board, m1, x),
        m1.len() == g.next_id,
        m2.len() == g.next_id,
        forall|i: int| 0 <= i < g.next_id && #[trigger] m1[i] ==> m2[i],
    ensures
        reaches_win_within(g, board, m2, x),
{
    let p = choose|p: Seq<int>|
        #[trigger] is_path(g, p) && p[0] == x && winning(g, board, p.last()) && forall|k: int|
            0 <= k < p.len() ==> #[trigger] m1[p[k]];
    assert forall|k: int| 0 <= k < p.len() implies #[trigger] m2[p[k]] by {
        assert(m1[p[k]]);
    }
}

/// Every node of a path that ends in a winning node is marked, when the
/// marks hold every winning node and every node with an edge to a marked
/// node.
proof fn lemma_path_marked(g: StateGraph, board: SharedGameState, marks: Seq<bool>, p: Seq<int>, k: int)
    requires
        is_path(g, p),
        winning(g, board, p.last()),
        0 <= k < p.len(),
        forall|w: int| 0 <= w < g.next_id && winning(g, board, w) ==> #[trigger] marks[w],
        forall|y: int, x: int|
            0 <= y < g.next_id && 0 <= x < g.next_id && #[trigger] marks[y] && #[trigger] g.has_edge(
                x,
                y as usize,
            ) ==> marks[x],
    ensures
        marks[p[k]],
    decreases p.len() - k,
{
    if k == p.len() - 1 {
        assert(0 <= p[k] < g.next_id);
    } else {
        lemma_path_marked(g, board, marks, p, k + 1);
        assert(g.has_edge(p[k], p[k + 1] as usize));
        assert(0 <= p[k] < g.next_id && 0 <= p[k + 1] < g.next_id);
        assert((p[k + 1] as usize) as int == p[k + 1]);
    }
}

/// Marks exactly the nodes from which a winning node can be reached, by a
/// depth-first search backwards from the winning nodes.
fn mark_ancestors(
    graph: &StateGraph,
    shared: &SharedGameState,
    win: &Vec<bool>,
    preds: &Vec<Vec<usize>>,
) -> (r: Vec<bool>)
    requires
        graph.wf(),
        win@.len() == graph.next_id,
        forall|id: int| 0 <= id < graph.next_id ==> #[trigger] win@[id] == winning(*graph, *shared, id),
        preds@.len() == graph.next_id,
        forall|y: int, x: usize|
            0 <= y < graph.next_id ==> (#[trigger] preds@[y]@.contains(x) <==> (x < graph.next_id
                && graph.has_edge(x as int, y as usize))),
    ensures
        r@.len() == graph.next_id,
        forall|x: int| 0 <= x < graph.next_id && #[trigger] r@[x] ==> reaches_win_within(*graph, *shared, r@, x),
        forall|x: int| 0 <= x < graph.next_id ==> (#[trigger] r@[x] <==> reaches_win(*graph, *shared, x)),
{
    let ghost g = *graph;
    let ghost board = *shared;
    let n = graph.next_id;
    let mut live: Vec<bool> = Vec::new();
    let mut stack: Vec<usize> = Vec::new();
    let mut i: usize = 0;
    while i < n
        invariant
            n == g.next_id,
            g == *graph,
            win@.len() == n,
            i <= n,
            live@.len() == i,
            forall|a: int| 0 <= a < i ==> !#[trigger] live@[a],
            forall|k: int| 0 <= k < stack@.len() ==> #[trigger] stack@[k] < n && winning(g, board, stack@[k] as int),
            forall|w: int| 0 <= w < i && #[trigger] win@[w] ==> stack@.contains(w as usize),
            forall|id: int| 0 <= id < n ==> #[trigger] win@[id] == winning(g, board, id),
        decreases n - i,
    {
        live.push(false);
        if win[i] {
            let ghost before = stack@;
            stack.push(i);
            proof {
                assert forall|w: int| 0 <= w < i + 1 && #[trigger] win@[w] implies stack@.contains(w as usize) by {
                    if w < i {
                        let m = choose|m: int| 0 <= m < before.len() && before[m] == w as usize;
                        assert(stack@[m] == w as usize);
                    } else {
                        assert(stack@[before.len() as int] == i);
                    }
                }
            }
        }
        i += 1;
    }
    proof {
        lemma_count_true_le(live@);
        assert(count_true(live@) == 0) by {
            lemma_count_zero(live@);
        }
        assert forall|w: int| 0 <= w < n && winning(g, board, w) implies #[trigger] live@[w]
            || stack@.contains(w as usize) by {
            assert(win@[w] == winning(g, board, w));
        }
    }
    while stack.len() > 0
        invariant
            n == g.next_id,
            g == *graph,
            g.wf(),
            preds@.len() == n,
            forall|y: int, x: usize|
                0 <= y < n ==> (#[trigger] preds@[y]@.contains(x) <==> (x < n && g.has_edge(x as int, y as usize))),
            live@.len() == n,
            forall|k: int|
                0 <= k < stack@.len() ==> #[trigger] stack@[k] < n && (winning(g, board, stack@[k] as int)
                    || has_marked_succ(g, live@, stack@[k] as int)),
            forall|x: int| 0 <= x < n && #[trigger] live@[x] ==> reaches_win_within(g, board, live@, x),
            forall|y: int, x: int|
                0 <= y < n && 0 <= x < n && #[trigger] live@[y] && #[trigger] g.has_edge(x, y as usize) ==> live@[x]
                    || stack@.contains(x as usize),
            forall|w: int| 0 <= w < n && winning(g, board, w) ==> #[trigger] live@[w] || stack@.contains(w as usize),
            count_true(live@) <= n,
        decreases n - count_true(live@), stack@.len(),
    {
        let ghost old_stack = stack@;
        let x = stack.pop().unwrap();
        let ghost popped = stack@;
        proof {
            assert(old_stack =~= popped.push(x));
        }
        if live[x] {
            proof {
                assert forall|y: int, z: int|
                    0 <= y < n && 0 <= z < n && #[trigger] live@[y] && #[trigger] g.has_edge(z, y as usize) implies live@[z]
                        || stack@.contains(z as usize) by {
                    if !live@[z] {
                        assert(old_stack.contains(z as usize));
                        let m = choose|m: int| 0 <= m < old_stack.len() && old_stack[m] == z as usize;
                        assert(m != old_stack.len() - 1);
                        assert(stack@[m] == z as usize);
                    }
                }
                assert forall|w: int| 0 <= w < n && winning(g, board, w) implies #[trigger] live@[w]
                    || stack@.contains(w as usize) by {
                    if !live@[w] {
                        assert(old_stack.contains(w as usize));
                        let m = choose|m: int| 0 <= m < old_stack.len() && old_stack[m] == w as usize;
                        assert(m != old_stack.len() - 1);
                        assert(stack@[m] == w as usize);
                    }
                }
            }
            continue;
        }
        let ghost old_live = live@;
        live.set(x, true);
        proof {
            lemma_count_true_set(old_live, x as int);
            lemma_count_true_le(live@);
            assert forall|a: int| 0 <= a < n && #[trigger] old_live[a] implies live@[a] by {}
            // x itself now reaches a winning node through marked nodes
            assert(old_stack[old_stack.len() - 1] == x);
            if winning(g, board, x as int) {
                let p = seq![x as int];
                assert(is_path(g, p));
                assert forall|k: int| 0 <= k < p.len() implies #[trigger] live@[p[k]] by {}
                assert(reaches_win_within(g, board, live@, x as int));
            } else {
                assert(has_marked_succ(g, old_live, x as int));
                let y = choose|y: int| 0 <= y < n && #[trigger] old_live[y] && g.has_edge(x as int, y as usize);
                assert(reaches_win_within(g, board, old_live, y));
                let q = choose|q: Seq<int>|
                    #[trigger] is_path(g, q) && q[0] == y && winning(g, board, q.last()) && forall|k: int|
                        0 <= k < q.len() ==> #[trigger] old_live[q[k]];
                let p = seq![x as int] + q;
                assert forall|k: int| 0 <= k < p.len() implies 0 <= #[trigger] p[k] < n by {
                    if k > 0 {
                        assert(p[k] == q[k - 1]);
                    }
                }
                assert forall|k: int| 0 <= k < p.len() - 1 implies #[trigger] g.has_edge(p[k], p[k + 1] as usize) by {
                    if k == 0 {
                        assert(p[1] == q[0]);
                        assert((y as usize) as int == y);
                    } else {
                        let kk = k - 1;
                        assert(p[k] == q[kk] && p[k + 1] == q[kk + 1]);
                        assert(g.has_edge(q[kk], q[kk + 1] as usize));
                    }
                }
                assert(is_path(g, p));
                assert(p.last() == q.last());
                assert forall|k: int| 0 <= k < p.len() implies #[trigger] live@[p[k]] by {
                    if k > 0 {
                        assert(p[k] == q[k - 1]);
                        assert(old_live[q[k - 1]]);
                    }
                }
                assert(reaches_win_within(g, board, live@, x as int));
            }
            assert forall|a: int| 0 <= a < n && #[trigger] live@[a] implies reaches_win_within(g, board, live@, a) by {
                if a != x {
                    assert(old_live[a]);
                    lemma_within_grows(g, board, old_live, live@, a);
                }
            }
        }
        let list = &preds[x];
        let mut j: usize = 0;
        while j < list.len()
            invariant
                n == g.next_id,
                x < n,
                *list == preds@[x as int],
                preds@.len() == n,
                forall|y: int, z: usize|
                    0 <= y < n ==> (#[trigger] preds@[y]@.contains(z) <==> (z < n && g.has_edge(z as int, y as usize))),
                live@.len() == n,
                live@[x as int],
                j <= list@.len(),
                stack@ == popped + list@.subrange(0, j as int),
                forall|k: int|
                    0 <= k < popped.len() ==> #[trigger] popped[k] < n && (winning(g, board, popped[k] as int)
                        || has_marked_succ(g, live@, popped[k] as int)),
            decreases list@.len() - j,
        {
            stack.push(list[j]);
            j += 1;
            proof {
                assert(stack@ =~= popped + list@.subrange(0, j as int));
            }
        }
        proof {
            assert(list@.subrange(0, j as int) =~= list@);
            assert forall|k: int|
                0 <= k < stack@.len() implies #[trigger] stack@[k] < n && (winning(g, board, stack@[k] as int)
                    || has_marked_succ(g, live@, stack@[k] as int)) by {
                if k >= popped.len() {
                    let z = list@[k - popped.len()];
                    assert(stack@[k] == z);
                    assert(preds@[x as int]@.contains(z));
                    assert(g.has_edge(z as int, x));
                    assert(live@[x as int]);
                }
            }
            assert forall|k: int| 0 <= k < popped.len() implies stack@[k] == popped[k] by {}
            assert forall|y: int, z: int|
                0 <= y < n && 0 <= z < n && #[trigger] live@[y] && #[trigger] g.has_edge(z, y as usize) implies live@[z]
                    || stack@.contains(z as usize) by {
                if !live@[z] {
                    if y == x {
                        assert(preds@[x as int]@.contains(z as usize));
                        let m = choose|m: int| 0 <= m < list@.len() && list@[m] == z as usize;
                        assert(stack@[popped.len() + m] == z as usize);
                    } else {
                        assert(old_live[y]);
                        assert(old_stack.contains(z as usize));
                        let m = choose|m: int| 0 <= m < old_stack.len() && old_stack[m] == z as usize;
                        assert(m != old_stack.len() - 1);
                        assert(stack@[m] == z as usize);
                    }
                }
            }
            assert forall|w: int| 0 <= w < n && winning(g, board, w) implies #[trigger] live@[w]
                || stack@.contains(w as usize) by {
                if !live@[w] {
                    assert(!old_live[w]);
                    assert(old_stack.contains(w as usize));
                    let m = choose|m: int| 0 <= m < old_stack.len() && old_stack[m] == w as usize;
                    assert(m != old_stack.len() - 1);
                    assert(stack@[m] == w as usize);
                }
            }
        }
    }
    proof {
        assert forall|x: int| 0 <= x < n implies (#[trigger] live@[x] <==> reaches_win(g, board, x)) by {
            if live@[x] {
                assert(reaches_win_within(g, board, live@, x));
                let p = choose|p: Seq<int>|
                    #[trigger] is_path(g, p) && p[0] == x && winning(g, board, p.last()) && forall|k: int|
                        0 <= k < p.len() ==> #[trigger] live@[p[k]];
                assert(is_path(g, p) && p[0] == x && winning(g, board, p.last()));
            }
            if reaches_win(g, board, x) {
                let p = choose|p: Seq<int>| #[trigger] is_path(g, p) && p[0] == x && winning(g, board, p.last());
                lemma_path_marked(g, board, live@, p, 0);
            }
        }
    }
    live
}

proof fn lemma_count_zero(s: Seq<bool>)
    requires
        forall|a: int| 0 <= a < s.len() ==> !#[trigger] s[a],
    ensures
        count_true(s) == 0,
    decreases s.len(),
{
    if s.len() > 0 {
        lemma_count_zero(s.drop_last());
    }
}

/// The entries of `row` that are marked in `live`, in order.
fn filter_live(row: &Vec<usize>, live: &Vec<bool>) -> (r: Vec<usize>)
    requires
        forall|k: int| 0 <= k < row@.len() ==> #[trigger] row@[k] < live@.len(),
        row@.no_duplicates(),
    ensures
        forall|t: usize| #[trigger] r@.contains(t) <==> (row@.contains(t) && live@[t as int]),
        r@.no_duplicates(),
        forall|k: int| 0 <= k < r@.len() ==> #[trigger] r@[k] < live@.len(),
        r@.len() <= row@.len(),
{
    let mut out: Vec<usize> = Vec::new();
    let mut k: usize = 0;
    while k < row.len()
        invariant
            forall|m: int| 0 <= m < row@.len() ==> #[trigger] row@[m] < live@.len(),
            row@.no_duplicates(),
            k <= row@.len(),
            forall|t: usize| #[trigger] out@.contains(t) <==> (row@.subrange(0, k as int).contains(t) && live@[t as int]),
            out@.no_duplicates(),
            forall|m: int| 0 <= m < out@.len() ==> #[trigger] out@[m] < live@.len(),
            out@.len() <= k,
        decreases row@.len() - k,
    {
        let t = row[k];
        let ghost before = out@;
        let ghost s0 = row@.subrange(0, k as int);
        let ghost s1 = row@.subrange(0, k + 1);
        proof {
            assert(s1 =~= s0.push(t));
            assert(!s0.contains(t)) by {
                if s0.contains(t) {
                    let m = choose|m: int| 0 <= m < s0.len() && s0[m] == t;
                    assert(row@[m] == row@[k as int]);
                }
            }
        }
        if live[t] {
            out.push(t);
            proof {
                assert forall|a: int, b: int| 0 <= a < out@.len() && 0 <= b < out@.len() && a != b implies out@[a] != out@[b] by {
                    if a == before.len() && b < before.len() {
                        assert(before.contains(before[b]));
                    } else if b == before.len() && a < before.len() {
                        assert(before.contains(before[a]));
                    }
                }
            }
        }
        proof {
            assert forall|x: usize| #[trigger] out@.contains(x) <==> (s1.contains(x) && live@[x as int]) by {
                if out@.contains(x) && x != t {
                    let m = choose|m: int| 0 <= m < out@.len() && out@[m] == x;
                    assert(before[m] == x);
                    assert(before.contains(x));
                    let m2 = choose|m2: int| 0 <= m2 < s0.len() && s0[m2] == x;
                    assert(s1[m2] == x);
                }
                if s1.contains(x) && live@[x as int] {
                    let m = choose|m: int| 0 <= m < s1.len() && s1[m] == x;
                    if m < k {
                        assert(s0[m] == x);
                        assert(before.contains(x));
                        let m2 = choose|m2: int| 0 <= m2 < before.len() && before[m2] == x;
                        assert(out@[m2] == x);
                    } else {
                        assert(out@[before.len() as int] == x);
                    }
                }
                if x == t && out@.contains(x) {
                    assert(s1[k as int] == t);
                }
            }
        }
        k += 1;
    }
    proof {
        assert(row@.subrange(0, k as int) =~= row@);
    }
    out
}

/// Number of marked entries.
fn count_marked(live: &Vec<bool>) -> (r: usize)
    ensures
        r == count_true(live@),
{
    let mut c: usize = 0;
    let mut k: usize = 0;
    while k < live.len()
        invariant
            k <= live@.len(),
            c == count_true(live@.subrange(0, k as int)),
            c <= k,
        decreases live@.len() - k,
    {
        proof {
            assert(live@.subrange(0, k + 1).drop_last() =~= live@.subrange(0, k as int));
        }
        if live[k] {
            c += 1;
        }
        k += 1;
    }
    proof {
        assert(live@.subrange(0, k as int) =~= live@);
    }
    c
}

/// Total number of edges, or `usize::MAX` when it does not fit.
fn count_edges(rows: &Vec<Vec<usize>>) -> (r: usize)
    ensures
        edge_total(rows@) <= usize::MAX ==> r == edge_total(rows@),
        edge_total(rows@) > usize::MAX ==> r == usize::MAX,
{
    let mut c: usize = 0;
    let mut k: usize = 0;
    while k < rows.len()
        invariant
            k <= rows@.len(),
            c == edge_total(rows@.subrange(0, k as int)),
        decreases rows@.len() - k,
    {
        proof {
            assert(rows@.subrange(0, k + 1).drop_last() =~= rows@.subrange(0, k as int));
        }
        let len = rows[k].len();
        if c > usize::MAX - len {
            proof {
                lemma_edge_total_mono(rows@, k + 1);
            }
            return usize::MAX;
        }
        c += len;
        k += 1;
    }
    proof {
        assert(rows@.subrange(0, k as int) =~= rows@);
    }
    c
}

proof fn lemma_edge_total_le(a: Seq<Vec<usize>>, b: Seq<Vec<usize>>)
    requires
        a.len() == b.len(),
        forall|i: int| 0 <= i < a.len() ==> (#[trigger] a[i])@.len() <= b[i]@.len(),
    ensures
        edge_total(a) <= edge_total(b),
    decreases a.len(),
{
    if a.len() > 0 {
        lemma_edge_total_le(a.drop_last(), b.drop_last());
        assert(a.last()@.len() <= b.last()@.len()) by {
            assert(a[a.len() - 1]@.len() <= b[b.len() - 1]@.len());
        }
    }
}

proof fn lemma_edge_total_mono(rows: Seq<Vec<usize>>, k: int)
    requires
        0 <= k <= rows.len(),
    ensures
        edge_total(rows.subrange(0, k)) <= edge_total(rows),
    decreases rows.len(),
{
    if k < rows.len() {
        assert(rows.drop_last().subrange(0, k) =~= rows.subrange(0, k));
        lemma_edge_total_mono(rows.drop_last(), k);
    } else {
        assert(rows.subrange(0, k) =~= rows);
    }
}

/// Removes every node from which no winning node (one whose boxes cover all
/// targets) can be reached, and every edge that touches a removed node.
/// Ids are not renumbered.
pub fn trim_unwinnable(graph: &mut StateGraph, shared: &SharedGameState) -> (r: TrimStats)
    requires
        old(graph).wf(),
        shared.wf(),
    ensures
        final(graph).next_id == old(graph).next_id,
        final(graph).keys@ == old(graph).keys@,
        forall|id: int|
            0 <= id < old(graph).next_id ==> (final(graph).pairs().contains_key(
                #[trigger] old(graph).keys@[id],
            ) <==> reaches_win(*old(graph), *shared, id)),
        forall|k: KeyView|
            #[trigger] final(graph).pairs().contains_key(k) ==> old(graph).pairs().contains_key(k)
                && final(graph).pairs()[k] == old(graph).pairs()[k],
        forall|x: int, t: usize|
            0 <= x < old(graph).next_id ==> (#[trigger] final(graph).has_edge(x, t) <==> (old(graph).has_edge(x, t)
                && reaches_win(*old(graph), *shared, x) && reaches_win(*old(graph), *shared, t as int))),
        forall|id: int|
            0 <= id < old(graph).next_id && final(graph).pairs().contains_key(#[trigger] old(graph).keys@[id])
                ==> reaches_win(*final(graph), *shared, id),
        r.nodes_before == old(graph).next_id,
        r.nodes_after == count_true(
            Seq::new(old(graph).next_id as nat, |x: int| reaches_win(*old(graph), *shared, x)),
        ),
        edge_total(old(graph).successors@) <= usize::MAX ==> r.edges_before == edge_total(
            old(graph).successors@,
        ),
        edge_total(final(graph).successors@) <= usize::MAX ==> r.edges_after == edge_total(
            final(graph).successors@,
        ),
        final(graph).successors@.len() == old(graph).successors@.len(),
        forall|id: int|
            0 <= id < final(graph).successors@.len() ==> (#[trigger] final(graph).successors@[id])@.no_duplicates(),
        r.nodes_after <= r.nodes_before,
        r.edges_after <= r.edges_before,
{
    let ghost g0 = *graph;
    let ghost board = *shared;
    let n = graph.next_id;
    let win = winning_flags(graph, shared);
    let preds = predecessors(graph);
    let live = mark_ancestors(graph, shared, &win, &preds);
    let edges_before = count_edges(&graph.successors);
    // drop the nodes that cannot reach a win
    let mut id: usize = 0;
    while id < n
        invariant
            n == g0.next_id,
            g0.wf(),
            live@.len() == n,
            id <= n,
            graph.next_id == g0.next_id,
            graph.keys@ == g0.keys@,
            graph.successors@ == g0.successors@,
            forall|k: KeyView|
                #[trigger] graph.pairs().contains_key(k) <==> (g0.pairs().contains_key(k) && (g0.pairs()[k] >= id
                    || live@[g0.pairs()[k] as int])),
            forall|k: KeyView|
                #[trigger] graph.pairs().contains_key(k) ==> graph.pairs()[k] == g0.pairs()[k],
        decreases n - id,
    {
        let ghost before = graph.pairs();
        if !live[id] {
            ids_remove_by_right(&mut graph.nodes, id);
            proof {
                assert forall|k: KeyView| #[trigger] graph.pairs().contains_key(k) <==> (before.contains_key(k)
                    && before[k] != id) by {
                    assert(id_pairs(graph.nodes).contains_key(k) == graph.pairs().contains_key(k));
                }
                assert forall|k: KeyView| #[trigger] graph.pairs().contains_key(k) implies graph.pairs()[k] == before[k] by {
                    assert(id_pairs(graph.nodes).contains_key(k));
                }
            }
        }
        proof {
            assert forall|k: KeyView|
                #[trigger] graph.pairs().contains_key(k) <==> (g0.pairs().contains_key(k) && (g0.pairs()[k] >= id + 1
                    || live@[g0.pairs()[k] as int])) by {
                if g0.pairs().contains_key(k) && g0.pairs()[k] == id && !live@[id as int] {
                    assert(before.contains_key(k));
                    assert(before[k] == id);
                }
            }
        }
        id += 1;
    }
    proof {
        assert forall|k: KeyView|
            #[trigger] graph.pairs().contains_key(k) <==> (g0.pairs().contains_key(k) && live@[g0.pairs()[k] as int]) by {
            if g0.pairs().contains_key(k) {
                assert(g0.pairs()[k] < n);
            }
        }
    }
    // keep the edges between kept nodes
    let mut rows: Vec<Vec<usize>> = Vec::new();
    let mut x: usize = 0;
    while x < n
        invariant
            n == g0.next_id,
            g0.wf(),
            live@.len() == n,
            x <= n,
            graph.successors@ == g0.successors@,
            graph.next_id == g0.next_id,
            graph.keys@ == g0.keys@,
            forall|k: KeyView|
                #[trigger] graph.pairs().contains_key(k) <==> (g0.pairs().contains_key(k) && live@[g0.pairs()[k] as int]),
            forall|k: KeyView|
                #[trigger] graph.pairs().contains_key(k) ==> graph.pairs()[k] == g0.pairs()[k],
            forall|a: int| 0 <= a < n ==> (#[trigger] live@[a] <==> reaches_win(g0, board, a)),
            rows@.len() == x,
            forall|a: int, t: usize|
                0 <= a < x ==> (#[trigger] rows@[a]@.contains(t) <==> (g0.has_edge(a, t) && live@[a]
                    && live@[t as int])),
            forall|a: int| 0 <= a < x ==> (#[trigger] rows@[a])@.no_duplicates() && rows@[a]@.len() <= g0.successors@[a]@.len(),
        decreases n - x,
    {
        let row = &graph.successors[x];
        proof {
            assert(row@.no_duplicates());
            assert forall|k: int| 0 <= k < row@.len() implies #[trigger] row@[k] < live@.len() by {
                assert(g0.successors@[x as int]@[k] < n);
            }
        }
        if live[x] {
            rows.push(filter_live(row, &live));
        } else {
            rows.push(Vec::new());
        }
        proof {
            assert forall|a: int, t: usize| 0 <= a < x + 1 implies (#[trigger] rows@[a]@.contains(t) <==> (
                g0.has_edge(a, t) && live@[a] && live@[t as int])) by {
                if a == x && !live@[a] {
                    assert(rows@[a]@.len() == 0);
                }
            }
            assert forall|a: int| 0 <= a < x + 1 implies (#[trigger] rows@[a])@.no_duplicates() && rows@[a]@.len() <= g0.successors@[a]@.len() by {
                if a == x && !live@[a] {
                    assert(rows@[a]@ =~= Seq::<usize>::empty());
                }
            }
        }
        x += 1;
    }
    let ghost pairs_kept = graph.pairs();
    graph.successors = rows;
    proof {
        assert(graph.pairs() == pairs_kept);
    }
    let nodes_after = count_marked(&live);
    let edges_after = count_edges(&graph.successors);
    proof {
        let g = *graph;
        assert forall|k: KeyView| #[trigger] g.pairs().contains_key(k) implies g0.pairs().contains_key(k)
            && g.pairs()[k] == g0.pairs()[k] by {
            assert(pairs_kept.contains_key(k));
        }
        assert forall|i: int| 0 <= i < n implies (g.pairs().contains_key(#[trigger] g0.keys@[i])
            <==> reaches_win(g0, board, i)) by {
            assert(g0.pairs().contains_key(g0.keys@[i]));
            assert(g0.pairs()[g0.keys@[i]] == i);
            assert(live@[i] == reaches_win(g0, board, i));
            assert(pairs_kept.contains_key(g0.keys@[i]) == (g0.pairs().contains_key(g0.keys@[i]) && live@[g0.pairs()[g0.keys@[i]] as int]));
        }
        assert forall|xx: int, t: usize| 0 <= xx < n implies (#[trigger] g.has_edge(xx, t) <==> (g0.has_edge(xx, t)
            && reaches_win(g0, board, xx) && reaches_win(g0, board, t as int))) by {
            if g0.has_edge(xx, t) {
                assert(g0.successors@[xx]@.contains(t));
                let m = choose|m: int| 0 <= m < g0.successors@[xx]@.len() && g0.successors@[xx]@[m] == t;
                assert(t < n);
            }
        }
        assert forall|i: int| 0 <= i < n && g.pairs().contains_key(#[trigger] g0.keys@[i]) implies reaches_win(g, board, i) by {
            assert(live@[i]);
            assert(reaches_win_within(g0, board, live@, i));
            let p = choose|p: Seq<int>|
                #[trigger] is_path(g0, p) && p[0] == i && winning(g0, board, p.last()) && forall|k: int|
                    0 <= k < p.len() ==> #[trigger] live@[p[k]];
            assert forall|k: int| 0 <= k < p.len() - 1 implies #[trigger] g.has_edge(p[k], p[k + 1] as usize) by {
                assert(g0.has_edge(p[k], p[k + 1] as usize));
                assert(live@[p[k]] && live@[p[k + 1]]);
                assert(0 <= p[k + 1] < n);
                assert((p[k + 1] as usize) as int == p[k + 1]);
            }
            assert(is_path(g, p));
            assert(winning(g, board, p.last()) == winning(g0, board, p.last()));
        }
        assert(live@ =~= Seq::new(n as nat, |xx: int| reaches_win(g0, board, xx)));
        lemma_count_true_le(live@);
        lemma_edge_total_le(g.successors@, g0.successors@);
    }
    TrimStats { nodes_before: n, nodes_after, edges_before, edges_after }
}

} // verus!
