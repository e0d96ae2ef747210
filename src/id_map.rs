//! The bijection between canonical-node keys and node ids, held in a
//! `bimap::BiMap`. Every item here is trusted: the contracts restate what
//! the `bimap` 0.6 source does with `std`'s `Eq` and `Hash` for a tuple of a
//! `Vec` of integer pairs and an integer pair, under which two keys are
//! equal exactly when their views are.

use vstd::prelude::*;
use bimap::BiHashMap;
use bimap::BiMap;

verus! {

/// Key of a canonical node: its box coordinates in ascending order and its
/// canonical player coordinate, each as `(row, column)`.
pub type NodeKey = (Vec<(i8, i8)>, (i8, i8));

/// The mathematical value of a key.
pub type KeyView = (Seq<(i8, i8)>, (i8, i8));

/// The map from keys to ids.
pub type IdMap = BiMap<NodeKey, usize>;

pub open spec fn key_view(k: &NodeKey) -> KeyView {
    (k.0@, k.1)
}

#[verifier::external_type_specification]
#[verifier::external_body]
#[verifier::reject_recursive_types(L)]
#[verifier::reject_recursive_types(R)]
#[verifier::reject_recursive_types(LS)]
#[verifier::reject_recursive_types(RS)]
pub struct ExBiHashMap<L, R, LS, RS>(BiHashMap<L, R, LS, RS>);

/// The empty pairing.
pub open spec fn no_pairs() -> Map<KeyView, usize> {
    Map::empty()
}

/// The pairs held by an id map, from key to id.
pub uninterp spec fn id_pairs(m: IdMap) -> Map<KeyView, usize>;

/// Relies on `BiHashMap::new`: the map starts with no pairs.
#[verifier::external_body]
pub(crate) fn ids_new() -> (r: IdMap)
    ensures
        id_pairs(r) == no_pairs(),
{
    BiMap::new()
}

/// Relies on `BiHashMap::get_by_left`: the id paired with an equal key, if
/// there is one.
#[verifier::external_body]
pub(crate) fn ids_get_by_left(m: &IdMap, k: &NodeKey) -> (r: Option<usize>)
    ensures
        r == if id_pairs(*m).contains_key(key_view(k)) {
            Some(id_pairs(*m)[key_view(k)])
        } else {
            None::<usize>
        },
{
    m.get_by_left(k).copied()
}

/// Relies on `BiHashMap::get_by_right`: a copy of the key paired with `id`,
/// if there is one.
#[verifier::external_body]
pub(crate) fn ids_get_by_right(m: &IdMap, id: usize) -> (r: Option<NodeKey>)
    ensures
        match r {
            Some(k) => id_pairs(*m).contains_key(key_view(&k)) && id_pairs(*m)[key_view(&k)] == id,
            None => forall|k: KeyView| #[trigger] id_pairs(*m).contains_key(k) ==> id_pairs(*m)[k] != id,
        },
{
    m.get_by_right(&id).cloned()
}

/// Relies on `BiHashMap::insert_no_overwrite`: the pair goes in, and `true`
/// comes back, exactly when neither the key nor the id is present yet;
/// otherwise the map is unchanged.
#[verifier::external_body]
pub(crate) fn ids_insert_no_overwrite(m: &mut IdMap, k: NodeKey, id: usize) -> (r: bool)
    ensures
        r == (!id_pairs(*old(m)).contains_key(key_view(&k)) && forall|k2: KeyView|
            #[trigger] id_pairs(*old(m)).contains_key(k2) ==> id_pairs(*old(m))[k2] != id),
        r ==> id_pairs(*final(m)) == id_pairs(*old(m)).insert(key_view(&k), id),
        !r ==> id_pairs(*final(m)) == id_pairs(*old(m)),
{
    m.insert_no_overwrite(k, id).is_ok()
}

/// Relies on `BiHashMap::remove_by_right`: the pair holding `id`, if any,
/// leaves; every other pair stays.
#[verifier::external_body]
pub(crate) fn ids_remove_by_right(m: &mut IdMap, id: usize)
    ensures
        forall|k: KeyView|
            #[trigger] id_pairs(*final(m)).contains_key(k) <==> (id_pairs(*old(m)).contains_key(k)
                && id_pairs(*old(m))[k] != id),
        forall|k: KeyView|
            #[trigger] id_pairs(*final(m)).contains_key(k) ==> id_pairs(*final(m))[k] == id_pairs(
                *old(m),
            )[k],
{
    m.remove_by_right(&id);
}

} // verus!
