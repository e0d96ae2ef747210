//! Canonical nodes: a box set together with the least cell the player can
//! reach among those boxes. Two game states map to the same node exactly
//! when the player can walk from one to the other without pushing.

use vstd::prelude::*;
use crate::board::SharedGameState;
use crate::box_set::GameStateEnvironment;
use crate::id_map::{key_view, KeyView, NodeKey};
use crate::model::Vec2;
use crate::reach::{canonical_player, is_min_reachable};
use crate::state::GameState;

verus! {

/// A vertex of the state graph.
#[derive(Clone, Debug, Hash)]
pub struct UniqueNode {
    pub environment: GameStateEnvironment,
    pub minimum_reachable_player_position: Vec2,
}

impl PartialEq for UniqueNode {
    fn eq(&self, other: &UniqueNode) -> (r: bool) {
        self.minimum_reachable_player_position == other.minimum_reachable_player_position
            && self.environment == other.environment
    }
}

impl vstd::std_specs::cmp::PartialEqSpecImpl for UniqueNode {
    open spec fn obeys_eq_spec() -> bool {
        true
    }

    open spec fn eq_spec(&self, other: &UniqueNode) -> bool {
        self.environment.boxes@ == other.environment.boxes@
            && self.minimum_reachable_player_position == other.minimum_reachable_player_position
    }
}

impl Eq for UniqueNode {}

pub open spec fn pair_of(b: Vec2) -> (i8, i8) {
    (b.i, b.j)
}

pub open spec fn vec_of(p: (i8, i8)) -> Vec2 {
    Vec2 { i: p.0, j: p.1 }
}

/// The key under which a node is stored.
pub open spec fn node_key(n: UniqueNode) -> KeyView {
    (
        n.environment.boxes@.map_values(|b: Vec2| pair_of(b)),
        pair_of(n.minimum_reachable_player_position),
    )
}

/// The boxes that a key describes.
pub open spec fn key_boxes(k: KeyView) -> Seq<Vec2> {
    k.0.map_values(|p: (i8, i8)| vec_of(p))
}

/// The canonical player position that a key describes.
pub open spec fn key_player(k: KeyView) -> Vec2 {
    vec_of(k.1)
}

/// Keys and nodes correspond one to one.
pub proof fn lemma_key_round_trip(n: UniqueNode)
    ensures
        key_boxes(node_key(n)) == n.environment.boxes@,
        key_player(node_key(n)) == n.minimum_reachable_player_position,
{
    assert(key_boxes(node_key(n)) =~= n.environment.boxes@);
}

/// A key is determined by the boxes and player it describes.
pub proof fn lemma_key_determined(k1: KeyView, k2: KeyView)
    requires
        key_boxes(k1) == key_boxes(k2),
        key_player(k1) == key_player(k2),
    ensures
        k1 == k2,
{
    assert(k1.0.len() == key_boxes(k1).len());
    assert forall|m: int| 0 <= m < k1.0.len() implies k1.0[m] == k2.0[m] by {
        assert(key_boxes(k1)[m] == key_boxes(k2)[m]);
        assert(key_boxes(k1)[m] == vec_of(k1.0[m]));
        assert(key_boxes(k2)[m] == vec_of(k2.0[m]));
        assert(k1.0[m].0 == k2.0[m].0 && k1.0[m].1 == k2.0[m].1);
    }
    assert(k1.0 =~= k2.0);
}

impl UniqueNode {
    /// The node of a game state: its boxes and the least reachable cell.
    pub fn from_game_state(game: GameState, shared: &SharedGameState) -> (r: UniqueNode)
        requires
            shared.wf(),
            shared.spec_in_bounds(game.player),
        ensures
            r.environment.boxes@ == game.environment.boxes@,
            r.minimum_reachable_player_position == canonical_player(
                *shared,
                game.environment.box_set(),
                game.player,
            ),
            !game.environment.box_set().contains(game.player) ==> is_min_reachable(
                *shared,
                game.environment.box_set(),
                game.player,
                r.minimum_reachable_player_position,
            ),
    {
        let min_reachable_position = shared.min_reachable_position(&game);
        UniqueNode {
            environment: game.environment,
            minimum_reachable_player_position: min_reachable_position,
        }
    }

    /// A copy of this node.
    pub fn duplicate(&self) -> (r: UniqueNode)
        ensures
            r.environment.boxes@ == self.environment.boxes@,
            r.minimum_reachable_player_position == self.minimum_reachable_player_position,
    {
        UniqueNode {
            environment: self.environment.duplicate(),
            minimum_reachable_player_position: self.minimum_reachable_player_position,
        }
    }

    /// The key of this node.
    pub fn key(&self) -> (r: NodeKey)
        ensures
            key_view(&r) == node_key(*self),
    {
        let boxes = self.environment.iter_boxes();
        let mut out: Vec<(i8, i8)> = Vec::new();
        let mut k: usize = 0;
        while k < boxes.len()
            invariant
                boxes@ == self.environment.boxes@,
                k <= boxes@.len(),
                out@ == boxes@.subrange(0, k as int).map_values(|b: Vec2| pair_of(b)),
            decreases boxes@.len() - k,
        {
            out.push((boxes[k].i, boxes[k].j));
            k += 1;
            proof {
                assert(out@ =~= boxes@.subrange(0, k as int).map_values(|b: Vec2| pair_of(b)));
            }
        }
        proof {
            assert(boxes@.subrange(0, k as int) =~= boxes@);
        }
        let p = self.minimum_reachable_player_position;
        (out, (p.i, p.j))
    }

    /// The node that a key describes.
    pub fn from_key(key: &NodeKey) -> (r: UniqueNode)
        ensures
            r.environment.boxes@ == key_boxes(key_view(key)),
            r.minimum_reachable_player_position == key_player(key_view(key)),
            node_key(r) == key_view(key),
    {
        let mut boxes: Vec<Vec2> = Vec::new();
        let mut k: usize = 0;
        while k < key.0.len()
            invariant
                k <= key.0@.len(),
                boxes@ == key.0@.subrange(0, k as int).map_values(|p: (i8, i8)| vec_of(p)),
            decreases key.0@.len() - k,
        {
            let (i, j) = key.0[k];
            boxes.push(Vec2 { i, j });
            k += 1;
            proof {
                assert(boxes@ =~= key.0@.subrange(0, k as int).map_values(|p: (i8, i8)| vec_of(p)));
            }
        }
        proof {
            assert(key.0@.subrange(0, k as int) =~= key.0@);
        }
        let (i, j) = key.1;
        let r = UniqueNode {
            environment: GameStateEnvironment { boxes },
            minimum_reachable_player_position: Vec2 { i, j },
        };
        proof {
            lemma_key_round_trip(r);
            lemma_key_determined(node_key(r), key_view(key));
        }
        r
    }
}

} // verus!
