//! The state graph: a bijection between canonical nodes and dense ids, the
//! directed edges between ids, and the worklist of ids still to expand.

use vstd::prelude::*;
use std::collections::VecDeque;
use crate::box_set::strictly_sorted;
use crate::id_map::{
    key_view, ids_get_by_left, ids_get_by_right, ids_insert_no_overwrite, ids_new, id_pairs, IdMap, KeyView,
};
use crate::unique_node::{key_boxes, lemma_key_round_trip, node_key, UniqueNode};

verus! {

/// A directed edge between two node ids.
#[derive(Clone, Copy, PartialEq, Eq, Hash, Debug, Structural)]
pub struct Edge {
    pub from: usize,
    pub to: usize,
}

/// What one expansion step did.
#[derive(Clone, Copy, PartialEq, Eq, Debug, Structural)]
pub enum PopulateResult {
    AllVisited,
    Populated,
}

/// Nodes, edges and the worklist of unexpanded ids.
pub struct StateGraph {
    /// Node keys and their ids.
    pub nodes: IdMap,
    /// `successors[id]`: the targets of the edges leaving `id`, without
    /// repetition.
    pub successors: Vec<Vec<usize>>,
    /// `unvisited[id]`: `id` still waits for expansion.
    pub unvisited: Vec<bool>,
    /// FIFO of ids to expand; it may hold stale entries, `unvisited` decides.
    pub next_unvisited: VecDeque<usize>,
    /// The id the next new node gets.
    pub next_id: usize,
    /// The key of each id, in order of insertion.
    pub keys: Ghost<Seq<KeyView>>,
}

/// `q[i]` is the first entry of the FIFO `q` that is still unvisited.
pub open spec fn first_live(q: Seq<usize>, unvisited: Seq<bool>, i: int) -> bool {
    &&& 0 <= i < q.len()
    &&& unvisited[q[i] as int]
    &&& forall|j: int| 0 <= j < i ==> !unvisited[#[trigger] q[j] as int]
}

/// Whether `x` occurs in `v`.
fn contains_id(v: &Vec<usize>, x: usize) -> (r: bool)
    ensures
        r == v@.contains(x),
{
    let mut k: usize = 0;
    while k < v.len()
        invariant
            k <= v@.len(),
            forall|m: int| 0 <= m < k ==> v@[m] != x,
        decreases v@.len() - k,
    {
        if v[k] == x {
            return true;
        }
        k += 1;
    }
    false
}

impl StateGraph {
    pub open spec fn pairs(&self) -> Map<KeyView, usize> {
        id_pairs(self.nodes)
    }

    pub open spec fn has_edge(&self, from: int, to: usize) -> bool {
        0 <= from < self.successors@.len() && self.successors@[from]@.contains(to)
    }

    /// The id map is a bijection onto `[0, next_id)` that agrees with
    /// `keys`; every listed edge and queued id is below `next_id`; every
    /// unvisited id is queued.
    pub open spec fn wf(&self) -> bool {
        let n = self.next_id as int;
        &&& self.successors@.len() == n
        &&& self.unvisited@.len() == n
        &&& self.keys@.len() == n
        &&& forall|id: int|
            0 <= id < n ==> self.pairs().contains_key(#[trigger] self.keys@[id]) && self.pairs()[self.keys@[id]]
                == id && strictly_sorted(key_boxes(self.keys@[id]))
        &&& forall|k: KeyView|
            #[trigger] self.pairs().contains_key(k) ==> self.pairs()[k] < n && self.keys@[self.pairs()[k] as int]
                == k
        &&& forall|q: int|
            0 <= q < self.next_unvisited@.len() ==> #[trigger] self.next_unvisited@[q] < n
        &&& forall|id: int|
            0 <= id < n && #[trigger] self.unvisited@[id] ==> self.next_unvisited@.contains(id as usize)
        &&& forall|id: int| 0 <= id < n ==> (#[trigger] self.successors@[id])@.no_duplicates()
        &&& forall|id: int, t: int|
            0 <= id < n && 0 <= t < self.successors@[id]@.len() ==> #[trigger] self.successors@[id]@[t]
                < n
    }

    /// An empty graph.
    pub fn new() -> (r: StateGraph)
        ensures
            r.wf(),
            r.next_id == 0,
            r.pairs() == Map::<KeyView, usize>::empty(),
    {
        StateGraph {
            nodes: ids_new(),
            successors: Vec::new(),
            unvisited: Vec::new(),
            next_unvisited: VecDeque::new(),
            next_id: 0,
            keys: Ghost(Seq::empty()),
        }
    }

    /// The id of `state`, inserting it as a new unvisited node when absent.
    pub fn upsert_state(&mut self, state: UniqueNode) -> (r: usize)
        requires
            old(self).wf(),
            state.environment.wf(),
            old(self).next_id < usize::MAX,
        ensures
            final(self).wf(),
            final(self).pairs().contains_key(node_key(state)),
            final(self).pairs()[node_key(state)] == r,
            old(self).pairs().contains_key(node_key(state)) ==> {
                &&& r == old(self).pairs()[node_key(state)]
                &&& final(self).pairs() == old(self).pairs()
                &&& final(self).next_id == old(self).next_id
                &&& final(self).keys@ == old(self).keys@
                &&& final(self).unvisited@ == old(self).unvisited@
                &&& final(self).next_unvisited@ == old(self).next_unvisited@
                &&& final(self).successors@ == old(self).successors@
            },
            !old(self).pairs().contains_key(node_key(state)) ==> {
                &&& r == old(self).next_id
                &&& final(self).pairs() == old(self).pairs().insert(node_key(state), r)
                &&& final(self).next_id == old(self).next_id + 1
                &&& final(self).keys@ == old(self).keys@.push(node_key(state))
                &&& final(self).unvisited@ == old(self).unvisited@.push(true)
                &&& final(self).next_unvisited@ == old(self).next_unvisited@.push(r)
                &&& final(self).successors@.len() == r + 1
                &&& final(self).successors@[r as int]@.len() == 0
                &&& forall|id: int|
                    0 <= id < r ==> #[trigger] final(self).successors@[id] == old(self).successors@[id]
            },
    {
        let key = state.key();
        match ids_get_by_left(&self.nodes, &key) {
            Some(id) => id,
            None => {
                let id = self.next_id;
                proof {
                    lemma_key_round_trip(state);
                    assert forall|k2: KeyView| #[trigger] id_pairs(self.nodes).contains_key(k2) implies id_pairs(self.nodes)[k2] != id by {
                        assert(self.pairs().contains_key(k2));
                    }
                }
                let ok = ids_insert_no_overwrite(&mut self.nodes, key, id);
                proof {
                    assert(ok);
                }
                self.next_id = id + 1;
                self.unvisited.push(true);
                self.next_unvisited.push_back(id);
                self.successors.push(Vec::new());
                self.keys = Ghost(self.keys@.push(node_key(state)));
                proof {
                    let n = self.next_id as int;
                    let nk = node_key(state);
                    assert forall|i: int| 0 <= i < n implies self.pairs().contains_key(#[trigger] self.keys@[i])
                        && self.pairs()[self.keys@[i]] == i && strictly_sorted(key_boxes(self.keys@[i])) by {
                        if i < id {
                            assert(self.keys@[i] == old(self).keys@[i]);
                            assert(old(self).pairs().contains_key(old(self).keys@[i]));
                            assert(old(self).keys@[i] != nk);
                        } else {
                            assert(self.keys@[i] == nk);
                        }
                    }
                    assert forall|k: KeyView| #[trigger] self.pairs().contains_key(k) implies self.pairs()[k] < n
                        && self.keys@[self.pairs()[k] as int] == k by {
                        if k != nk {
                            assert(old(self).pairs().contains_key(k));
                        }
                    }
                    assert forall|i: int| 0 <= i < n && #[trigger] self.unvisited@[i] implies self.next_unvisited@.contains(i as usize) by {
                        if i < id {
                            assert(old(self).next_unvisited@.contains(i as usize));
                            let m = choose|m: int| 0 <= m < old(self).next_unvisited@.len() && old(self).next_unvisited@[m] == i as usize;
                            assert(self.next_unvisited@[m] == i as usize);
                        } else {
                            assert(self.next_unvisited@[old(self).next_unvisited@.len() as int] == id);
                        }
                    }
                    assert forall|i: int| 0 <= i < n implies (#[trigger] self.successors@[i])@.no_duplicates() by {
                        if i < id {
                            assert(self.successors@[i] == old(self).successors@[i]);
                        }
                    }
                    assert forall|i: int, t: int| 0 <= i < n && 0 <= t < self.successors@[i]@.len() implies #[trigger] self.successors@[i]@[t] < n by {
                        if i < id {
                            assert(self.successors@[i] == old(self).successors@[i]);
                        }
                    }
                }
                id
            },
        }
    }

    /// The node with id `id`, if there is one.
    pub fn get_state(&self, id: usize) -> (r: Option<UniqueNode>)
        requires
            self.wf(),
        ensures
            id < self.next_id ==> (r matches Some(n) && node_key(n) == self.keys@[id as int]
                && n.environment.wf()),
            id >= self.next_id ==> r is None,
    {
        match ids_get_by_right(&self.nodes, id) {
            Some(key) => {
                let n = UniqueNode::from_key(&key);
                proof {
                    assert(self.pairs().contains_key(key_view(&key)));
                    crate::unique_node::lemma_key_round_trip(n);
                }
                Some(n)
            },
            None => {
                proof {
                    if id < self.next_id {
                        assert(self.pairs().contains_key(self.keys@[id as int]));
                    }
                }
                None
            },
        }
    }

    /// The node that still holds id `id`, if any (also after trimming).
    pub fn node_of(&self, id: usize) -> (r: Option<UniqueNode>)
        ensures
            match r {
                Some(n) => self.pairs().contains_key(node_key(n)) && self.pairs()[node_key(n)] == id,
                None => forall|k: KeyView| #[trigger] self.pairs().contains_key(k) ==> self.pairs()[k] != id,
            },
    {
        match ids_get_by_right(&self.nodes, id) {
            Some(key) => Some(UniqueNode::from_key(&key)),
            None => None,
        }
    }

    /// Adds the edge; an edge already present is absorbed.
    pub fn add_edge(&mut self, edge: Edge)
        requires
            old(self).wf(),
            edge.from < old(self).next_id,
            edge.to < old(self).next_id,
        ensures
            final(self).wf(),
            final(self).pairs() == old(self).pairs(),
            final(self).next_id == old(self).next_id,
            final(self).keys@ == old(self).keys@,
            final(self).unvisited@ == old(self).unvisited@,
            final(self).next_unvisited@ == old(self).next_unvisited@,
            forall|f: int, t: usize|
                #[trigger] final(self).has_edge(f, t) <==> (old(self).has_edge(f, t) || (f == edge.from
                    && t == edge.to)),
            forall|f: int|
                0 <= f < old(self).next_id && f != edge.from ==> #[trigger] final(self).successors@[f]
                    == old(self).successors@[f],
    {
        let from = edge.from;
        let mut row: Vec<usize> = Vec::new();
        std::mem::swap(&mut row, &mut self.successors[from]);
        let ghost old_row = row@;
        let present = contains_id(&row, edge.to);
        proof {
            assert(old_row.no_duplicates());
        }
        if !present {
            row.push(edge.to);
            proof {
                assert forall|a: int, b: int| 0 <= a < row@.len() && 0 <= b < row@.len() && a != b implies row@[a] != row@[b] by {
                    if a == old_row.len() {
                        assert(old_row[b] == row@[b]);
                    } else if b == old_row.len() {
                        assert(old_row[a] == row@[a]);
                    } else {
                        assert(old(self).successors@[from as int]@ == old_row);
                    }
                }
            }
        }
        let ghost new_row = row@;
        self.successors.set(from, row);
        proof {
            assert(self.successors@.len() == self.next_id);
            assert(self.pairs() == old(self).pairs());
            assert(self.keys@ == old(self).keys@);
            assert(self.unvisited@ == old(self).unvisited@);
            assert(self.next_unvisited@ == old(self).next_unvisited@);
            assert(self.next_id == old(self).next_id);
            assert(self.successors@[from as int]@ == new_row);
            assert(new_row.no_duplicates());
            assert(forall|t: int| 0 <= t < new_row.len() ==> new_row[t] < self.next_id) by {
                assert forall|t: int| 0 <= t < new_row.len() implies new_row[t] < self.next_id by {
                    if t < old_row.len() {
                        assert(old(self).successors@[from as int]@[t] < self.next_id);
                    }
                }
            }
            assert(old(self).successors@[from as int]@ == old_row);
            assert forall|f: int, t: usize| #[trigger] self.has_edge(f, t) <==> (old(self).has_edge(f, t) || (f == edge.from && t == edge.to)) by {
                if f == from {
                    if self.has_edge(f, t) && t != edge.to {
                        let m = choose|m: int| 0 <= m < row@.len() && row@[m] == t;
                        assert(m < old_row.len());
                        assert(old_row[m] == t);
                    }
                    if old(self).has_edge(f, t) {
                        let m = choose|m: int| 0 <= m < old_row.len() && old_row[m] == t;
                        assert(row@[m] == t);
                    }
                    if f == edge.from && t == edge.to && present {
                        assert(old_row.contains(edge.to));
                    }
                    if f == edge.from && t == edge.to && !present {
                        assert(row@[old_row.len() as int] == edge.to);
                    }
                }
            }
            let n = self.next_id as int;
            assert forall|i: int, t: int| 0 <= i < n && 0 <= t < self.successors@[i]@.len() implies #[trigger] self.successors@[i]@[t] < n by {
                if i != from {
                    assert(self.successors@[i] == old(self).successors@[i]);
                }
            }
            assert forall|i: int| 0 <= i < n implies (#[trigger] self.successors@[i])@.no_duplicates() by {
                if i != from {
                    assert(self.successors@[i] == old(self).successors@[i]);
                }
            }
        }
    }

    /// Pops ids off the FIFO until one is still unvisited; marks it visited
    /// and returns it. Stale entries are dropped.
    pub fn take_and_visit_unvisited_node(&mut self) -> (r: Option<usize>)
        requires
            old(self).wf(),
        ensures
            final(self).wf(),
            final(self).pairs() == old(self).pairs(),
            final(self).next_id == old(self).next_id,
            final(self).keys@ == old(self).keys@,
            final(self).successors@ == old(self).successors@,
            match r {
                Some(id) => id < old(self).next_id && old(self).unvisited@[id as int]
                    && final(self).unvisited@ == old(self).unvisited@.update(id as int, false)
                    && exists|i: int|
                    first_live(old(self).next_unvisited@, old(self).unvisited@, i)
                        && #[trigger] old(self).next_unvisited@[i] == id
                        && final(self).next_unvisited@ == old(self).next_unvisited@.subrange(
                        i + 1,
                        old(self).next_unvisited@.len() as int,
                    ),
                None => final(self).unvisited@ == old(self).unvisited@ && final(self).next_unvisited@.len()
                    == 0 && (forall|id: int| 0 <= id < final(self).next_id ==> !#[trigger] final(self).unvisited@[id])
                    && (forall|j: int|
                    0 <= j < old(self).next_unvisited@.len() ==> !old(self).unvisited@[#[trigger] old(self).next_unvisited@[j] as int]),
            },
    {
        let ghost q_start = self.next_unvisited@;
        let ghost mut pos: int = 0;
        while self.next_unvisited.len() > 0
            invariant
                q_start == old(self).next_unvisited@,
                0 <= pos <= q_start.len(),
                self.next_unvisited@ == q_start.subrange(pos, q_start.len() as int),
                forall|j: int| 0 <= j < pos ==> !old(self).unvisited@[#[trigger] q_start[j] as int],
                self.wf(),
                self.pairs() == old(self).pairs(),
                self.next_id == old(self).next_id,
                self.keys@ == old(self).keys@,
                self.successors@ == old(self).successors@,
                self.unvisited@ == old(self).unvisited@,
            decreases self.next_unvisited@.len(),
        {
            let ghost q0 = self.next_unvisited@;
            let id = self.next_unvisited.pop_front().unwrap();
            proof {
                assert forall|i: int| 0 <= i < self.next_unvisited@.len() implies #[trigger] self.next_unvisited@[i] == q0[i + 1] by {}
                assert(q_start[pos] == id);
                assert(self.next_unvisited@ =~= q_start.subrange(pos + 1, q_start.len() as int));
            }
            if self.unvisited[id] {
                self.unvisited.set(id, false);
                proof {
                    assert(first_live(q_start, old(self).unvisited@, pos));
                    let n = self.next_id as int;
                    assert forall|i: int| 0 <= i < n && #[trigger] self.unvisited@[i] implies self.next_unvisited@.contains(i as usize) by {
                        assert(q0.contains(i as usize));
                        let m = choose|m: int| 0 <= m < q0.len() && q0[m] == i as usize;
                        assert(m != 0);
                        assert(self.next_unvisited@[m - 1] == i as usize);
                    }
                }
                return Some(id);
            }
            proof {
                let n = self.next_id as int;
                assert forall|i: int| 0 <= i < n && #[trigger] self.unvisited@[i] implies self.next_unvisited@.contains(i as usize) by {
                    assert(q0.contains(i as usize));
                    let m = choose|m: int| 0 <= m < q0.len() && q0[m] == i as usize;
                    assert(m != 0);
                    assert(self.next_unvisited@[m - 1] == i as usize);
                }
                pos = pos + 1;
            }
        }
        proof {
            assert(pos == q_start.len());
        }
        proof {
            assert forall|id: int| 0 <= id < self.next_id implies !#[trigger] self.unvisited@[id] by {
                if self.unvisited@[id] {
                    assert(self.next_unvisited@.contains(id as usize));
                }
            }
        }
        None
    }

    /// Whether every node has been expanded and the FIFO holds no id that
    /// still waits.
    pub fn all_visited(&self) -> (r: bool)
        requires
            self.wf(),
        ensures
            r == (forall|id: int| 0 <= id < self.next_id ==> !#[trigger] self.unvisited@[id]),
    {
        let mut id: usize = 0;
        while id < self.unvisited.len()
            invariant
                self.wf(),
                id <= self.next_id,
                forall|i: int| 0 <= i < id ==> !#[trigger] self.unvisited@[i],
            decreases self.next_id - id,
        {
            if self.unvisited[id] {
                return false;
            }
            id += 1;
        }
        true
    }
}

} // verus!
