//! The set of box positions of a game state, kept in ascending row-major
//! order so that equality and hashing do not depend on insertion order.

use vstd::prelude::*;
use crate::model::{pos_lt, Vec2};

verus! {

/// Strictly ascending in row-major order (hence free of duplicates).
pub open spec fn strictly_sorted(s: Seq<Vec2>) -> bool {
    forall|a: int, b: int| 0 <= a < b < s.len() ==> pos_lt(#[trigger] s[a], #[trigger] s[b])
}

/// The strictly ascending sequence holding exactly the positions of `set`.
pub open spec fn sorted_of(set: Set<Vec2>) -> Seq<Vec2> {
    choose|s: Seq<Vec2>| strictly_sorted(s) && s.to_set() == set
}

/// A set has at most one strictly ascending enumeration.
pub proof fn lemma_sorted_unique(s1: Seq<Vec2>, s2: Seq<Vec2>)
    requires
        strictly_sorted(s1),
        strictly_sorted(s2),
        s1.to_set() == s2.to_set(),
    ensures
        s1 == s2,
    decreases s1.len() + s2.len(),
{
    if s1.len() == 0 {
        if s2.len() > 0 {
            assert(s2.to_set().contains(s2[0]));
        }
        assert(s2.len() == 0);
        assert(s1 =~= s2);
    } else {
        if s2.len() == 0 {
            assert(s1.to_set().contains(s1[0]));
        }
        // the first elements are both the least element of the set
        assert(s1.to_set().contains(s1[0]));
        assert(s2.to_set().contains(s2[0]));
        let m1 = choose|m: int| 0 <= m < s2.len() && s2[m] == s1[0];
        let m2 = choose|m: int| 0 <= m < s1.len() && s1[m] == s2[0];
        if m1 > 0 {
            assert(pos_lt(s2[0], s2[m1]));
            if m2 > 0 {
                assert(pos_lt(s1[0], s1[m2]));
            }
        }
        assert(s1[0] == s2[0]);
        let t1 = s1.drop_first();
        let t2 = s2.drop_first();
        assert forall|x: Vec2| t1.to_set().contains(x) <==> t2.to_set().contains(x) by {
            if t1.contains(x) {
                let a = choose|a: int| 0 <= a < t1.len() && t1[a] == x;
                assert(pos_lt(s1[0], s1[a + 1]));
                assert(s1.contains(x));
                assert(s2.to_set().contains(x));
                let b = choose|b: int| 0 <= b < s2.len() && s2[b] == x;
                assert(b != 0);
                assert(t2[b - 1] == x);
            }
            if t2.contains(x) {
                let a = choose|a: int| 0 <= a < t2.len() && t2[a] == x;
                assert(pos_lt(s2[0], s2[a + 1]));
                assert(s2.contains(x));
                assert(s1.to_set().contains(x));
                let b = choose|b: int| 0 <= b < s1.len() && s1[b] == x;
                assert(b != 0);
                assert(t1[b - 1] == x);
            }
        }
        assert(t1.to_set() =~= t2.to_set());
        assert(strictly_sorted(t1)) by {
            assert forall|a: int, b: int| 0 <= a < b < t1.len() implies pos_lt(#[trigger] t1[a], #[trigger] t1[b]) by {
                assert(t1[a] == s1[a + 1] && t1[b] == s1[b + 1]);
            }
        }
        assert(strictly_sorted(t2)) by {
            assert forall|a: int, b: int| 0 <= a < b < t2.len() implies pos_lt(#[trigger] t2[a], #[trigger] t2[b]) by {
                assert(t2[a] == s2[a + 1] && t2[b] == s2[b + 1]);
            }
        }
        lemma_sorted_unique(t1, t2);
        assert(s1 =~= s2) by {
            assert forall|k: int| 0 <= k < s1.len() implies s1[k] == s2[k] by {
                if k > 0 {
                    assert(s1[k] == t1[k - 1]);
                    assert(s2[k] == t2[k - 1]);
                }
            }
        }
    }
}

/// A strictly ascending sequence holds no position twice.
pub proof fn lemma_sorted_no_duplicates(s: Seq<Vec2>)
    requires
        strictly_sorted(s),
    ensures
        s.no_duplicates(),
{
    assert forall|a: int, c: int| 0 <= a < s.len() && 0 <= c < s.len() && a != c implies s[a] != s[c] by {
        if a < c {
            assert(pos_lt(s[a], s[c]));
        } else {
            assert(pos_lt(s[c], s[a]));
        }
    }
}

/// Two sequences without repetition that hold the same positions hold
/// them with the same multiplicities.
pub proof fn lemma_same_multiset(a: Seq<Vec2>, b: Seq<Vec2>)
    requires
        a.no_duplicates(),
        b.no_duplicates(),
        a.to_set() == b.to_set(),
    ensures
        a.to_multiset() == b.to_multiset(),
{
    a.lemma_multiset_has_no_duplicates();
    b.lemma_multiset_has_no_duplicates();
    a.to_multiset_ensures();
    b.to_multiset_ensures();
    assert forall|x: Vec2| a.to_multiset().count(x) == b.to_multiset().count(x) by {
        assert(a.to_set().contains(x) == a.contains(x));
        assert(b.to_set().contains(x) == b.contains(x));
        if a.contains(x) {
            assert(a.to_multiset().contains(x));
            assert(b.to_multiset().contains(x));
        } else {
            assert(!b.contains(x));
        }
    }
    assert(a.to_multiset() =~= b.to_multiset());
}

/// A strictly ascending sequence is the enumeration `sorted_of` of its set.
pub proof fn lemma_sorted_of(s: Seq<Vec2>)
    requires
        strictly_sorted(s),
    ensures
        sorted_of(s.to_set()) == s,
{
    let t = sorted_of(s.to_set());
    assert(strictly_sorted(t) && t.to_set() == s.to_set());
    lemma_sorted_unique(t, s);
}

/// The box positions of a state.
#[derive(Clone, Debug, Hash)]
pub struct GameStateEnvironment {
    pub boxes: Vec<Vec2>,
}

impl PartialEq for GameStateEnvironment {
    fn eq(&self, other: &GameStateEnvironment) -> (r: bool) {
        if self.boxes.len() != other.boxes.len() {
            return false;
        }
        let mut k: usize = 0;
        while k < self.boxes.len()
            invariant
                self.boxes@.len() == other.boxes@.len(),
                k <= self.boxes@.len(),
                forall|m: int| 0 <= m < k ==> self.boxes@[m] == other.boxes@[m],
            decreases self.boxes@.len() - k,
        {
            if self.boxes[k] != other.boxes[k] {
                return false;
            }
            k += 1;
        }
        proof {
            assert(self.boxes@ =~= other.boxes@);
        }
        true
    }
}

impl vstd::std_specs::cmp::PartialEqSpecImpl for GameStateEnvironment {
    open spec fn obeys_eq_spec() -> bool {
        true
    }

    open spec fn eq_spec(&self, other: &GameStateEnvironment) -> bool {
        self.boxes@ == other.boxes@
    }
}

impl Eq for GameStateEnvironment {}

/// Appending an element adds it to the set of elements.
pub proof fn lemma_push_to_set(s: Seq<Vec2>, b: Vec2)
    ensures
        s.push(b).to_set() == s.to_set().insert(b),
{
    assert forall|x: Vec2| s.push(b).to_set().contains(x) <==> s.to_set().insert(b).contains(x) by {
        if s.push(b).contains(x) {
            let m = choose|m: int| 0 <= m < s.push(b).len() && s.push(b)[m] == x;
            if m < s.len() {
                assert(s[m] == x);
            }
        }
        if s.contains(x) {
            let m = choose|m: int| 0 <= m < s.len() && s[m] == x;
            assert(s.push(b)[m] == x);
        }
        if x == b {
            assert(s.push(b)[s.len() as int] == b);
        }
    }
    assert(s.push(b).to_set() =~= s.to_set().insert(b));
}

/// Inserts `b` into a strictly sorted vector, keeping it strictly sorted;
/// nothing changes when `b` is already present.
fn insert_sorted(v: &mut Vec<Vec2>, b: Vec2)
    requires
        strictly_sorted(old(v)@),
    ensures
        strictly_sorted(final(v)@),
        final(v)@.to_set() == old(v)@.to_set().insert(b),
        final(v)@.len() <= old(v)@.len() + 1,
{
    let mut k: usize = 0;
    while k < v.len() && v[k].precedes(&b)
        invariant
            k <= v@.len(),
            forall|m: int| 0 <= m < k ==> pos_lt(#[trigger] v@[m], b),
        decreases v@.len() - k,
    {
        k += 1;
    }
    if k < v.len() && v[k] == b {
        proof {
            assert(v@.to_set().insert(b) =~= v@.to_set());
        }
        return;
    }
    let ghost before = v@;
    v.insert(k, b);
    proof {
        assert(v@ == before.insert(k as int, b));
        assert forall|a: int, c: int| 0 <= a < c < v@.len() implies pos_lt(
            #[trigger] v@[a],
            #[trigger] v@[c],
        ) by {
            if k < before.len() {
                assert(!pos_lt(before[k as int], b));
                assert(before[k as int] != b);
            }
        }
        assert forall|x: Vec2| v@.to_set().contains(x) <==> before.to_set().insert(b).contains(x) by {
            if v@.contains(x) {
                let m = choose|m: int| 0 <= m < v@.len() && v@[m] == x;
                if m < k {
                    assert(before[m] == x);
                } else if m > k {
                    assert(before[m - 1] == x);
                }
            }
            if before.contains(x) {
                let m = choose|m: int| 0 <= m < before.len() && before[m] == x;
                if m < k {
                    assert(v@[m] == x);
                } else {
                    assert(v@[m + 1] == x);
                }
            }
            if x == b {
                assert(v@[k as int] == b);
            }
        }
        assert(v@.to_set() =~= before.to_set().insert(b));
    }
}

impl GameStateEnvironment {
    /// Well formed: positions strictly ascending.
    pub open spec fn wf(&self) -> bool {
        strictly_sorted(self.boxes@)
    }

    /// The positions as a set.
    pub open spec fn box_set(&self) -> Set<Vec2> {
        self.boxes@.to_set()
    }

    /// Builds the set of the given positions (duplicates collapse).
    pub fn new(boxes: Vec<Vec2>) -> (r: GameStateEnvironment)
        ensures
            r.wf(),
            r.box_set() == boxes@.to_set(),
    {
        let mut result = GameStateEnvironment { boxes };
        result.complete_moves();
        result
    }

    /// The set with no boxes.
    pub fn new_empty() -> (r: GameStateEnvironment)
        ensures
            r.wf(),
            r.boxes@.len() == 0,
            r.box_set() == Set::<Vec2>::empty(),
    {
        let r = GameStateEnvironment { boxes: Vec::new() };
        proof {
            assert(r.box_set() =~= Set::<Vec2>::empty());
        }
        r
    }

    /// The positions in ascending order.
    pub fn iter_boxes(&self) -> (r: &Vec<Vec2>)
        ensures
            r@ == self.boxes@,
    {
        &self.boxes
    }

    /// A copy with the same positions in the same order.
    pub fn duplicate(&self) -> (r: GameStateEnvironment)
        ensures
            r.boxes@ == self.boxes@,
    {
        let mut boxes: Vec<Vec2> = Vec::new();
        let mut k: usize = 0;
        while k < self.boxes.len()
            invariant
                k <= self.boxes@.len(),
                boxes@ == self.boxes@.subrange(0, k as int),
            decreases self.boxes@.len() - k,
        {
            boxes.push(self.boxes[k]);
            k += 1;
            proof {
                assert(boxes@ =~= self.boxes@.subrange(0, k as int));
            }
        }
        proof {
            assert(boxes@ =~= self.boxes@);
        }
        GameStateEnvironment { boxes }
    }

    /// Whether a box stands at `position`.
    pub fn has_box_at(&self, position: &Vec2) -> (r: bool)
        ensures
            r == self.boxes@.contains(*position),
    {
        match self.index_of_box_at(position) {
            Some(_) => true,
            None => false,
        }
    }

    /// The index of the box at `position`, if there is one (the first such
    /// index).
    pub fn index_of_box_at(&self, position: &Vec2) -> (r: Option<usize>)
        ensures
            match r {
                Some(k) => k < self.boxes@.len() && self.boxes@[k as int] == *position
                    && forall|m: int| 0 <= m < k ==> self.boxes@[m] != *position,
                None => !self.boxes@.contains(*position),
            },
    {
        let mut k: usize = 0;
        while k < self.boxes.len()
            invariant
                k <= self.boxes@.len(),
                forall|m: int| 0 <= m < k ==> self.boxes@[m] != *position,
            decreases self.boxes@.len() - k,
        {
            if self.boxes[k] == *position {
                return Some(k);
            }
            k += 1;
        }
        None
    }

    /// Overwrites the position of one box; the order is restored by
    /// `complete_moves`.
    pub fn set_box(&mut self, box_index: usize, position: &Vec2)
        requires
            box_index < old(self).boxes@.len(),
        ensures
            final(self).boxes@ == old(self).boxes@.update(box_index as int, *position),
    {
        self.boxes.set(box_index, *position);
    }

    /// Restores ascending order after boxes were moved (duplicates collapse).
    pub fn complete_moves(&mut self)
        ensures
            final(self).wf(),
            final(self).box_set() == old(self).box_set(),
            old(self).boxes@.no_duplicates() ==> final(self).boxes@.to_multiset()
                == old(self).boxes@.to_multiset(),
    {
        let mut sorted: Vec<Vec2> = Vec::new();
        let mut k: usize = 0;
        while k < self.boxes.len()
            invariant
                k <= self.boxes@.len(),
                self.boxes@ == old(self).boxes@,
                strictly_sorted(sorted@),
                sorted@.to_set() == self.boxes@.subrange(0, k as int).to_set(),
            decreases self.boxes@.len() - k,
        {
            let b = self.boxes[k];
            insert_sorted(&mut sorted, b);
            proof {
                assert(self.boxes@.subrange(0, k + 1) =~= self.boxes@.subrange(0, k as int).push(b));
                lemma_push_to_set(self.boxes@.subrange(0, k as int), b);
            }
            k += 1;
        }
        proof {
            assert(self.boxes@.subrange(0, k as int) =~= self.boxes@);
            lemma_sorted_no_duplicates(sorted@);
            if self.boxes@.no_duplicates() {
                lemma_same_multiset(sorted@, self.boxes@);
            }
        }
        self.boxes = sorted;
    }

    /// Moves the box at `from` to the free position `to`.
    pub fn move_box(&mut self, from: Vec2, to: Vec2)
        requires
            old(self).wf(),
            old(self).boxes@.contains(from),
            !old(self).boxes@.contains(to),
        ensures
            final(self).wf(),
            final(self).box_set() == old(self).box_set().remove(from).insert(to),
            final(self).boxes@.len() == old(self).boxes@.len(),
    {
        let idx = self.index_of_box_at(&from).unwrap();
        let ghost before = self.boxes@;
        self.boxes.remove(idx);
        proof {
            assert(self.boxes@ == before.remove(idx as int));
            assert(strictly_sorted(self.boxes@)) by {
                assert forall|a: int, c: int| 0 <= a < c < self.boxes@.len() implies pos_lt(
                    #[trigger] self.boxes@[a],
                    #[trigger] self.boxes@[c],
                ) by {
                    let a2 = if a < idx { a } else { a + 1 };
                    let c2 = if c < idx { c } else { c + 1 };
                    assert(self.boxes@[a] == before[a2]);
                    assert(self.boxes@[c] == before[c2]);
                }
            }
            assert forall|x: Vec2| self.boxes@.to_set().contains(x) <==> before.to_set().remove(
                from,
            ).contains(x) by {
                if self.boxes@.contains(x) {
                    let m = choose|m: int| 0 <= m < self.boxes@.len() && self.boxes@[m] == x;
                    let m2 = if m < idx { m } else { m + 1 };
                    assert(before[m2] == x);
                    assert(m2 != idx);
                    if x == from {
                        assert(m2 < idx || m2 > idx);
                        if m2 < idx {
                            assert(pos_lt(before[m2], before[idx as int]));
                        } else {
                            assert(pos_lt(before[idx as int], before[m2]));
                        }
                    }
                }
                if before.contains(x) && x != from {
                    let m = choose|m: int| 0 <= m < before.len() && before[m] == x;
                    assert(m != idx);
                    if m < idx {
                        assert(self.boxes@[m] == x);
                    } else {
                        assert(self.boxes@[m - 1] == x);
                    }
                }
            }
            assert(self.boxes@.to_set() =~= before.to_set().remove(from));
        }
        let ghost mid = self.boxes@;
        insert_sorted(&mut self.boxes, to);
        proof {
            assert(!mid.contains(to)) by {
                if mid.contains(to) {
                    assert(mid.to_set().contains(to));
                    assert(before.to_set().contains(to));
                }
            }
            assert(self.boxes@.to_set().contains(to));
            // the length grew by exactly one, since `to` was absent
            assert(self.boxes@.len() == mid.len() + 1) by {
                assert(strictly_sorted(mid));
                mid.unique_seq_to_set();
                self.boxes@.unique_seq_to_set();
                assert(mid.no_duplicates()) by {
                    assert forall|a: int, c: int| 0 <= a < mid.len() && 0 <= c < mid.len() && a != c
                        implies mid[a] != mid[c] by {
                        if a < c {
                            assert(pos_lt(mid[a], mid[c]));
                        } else {
                            assert(pos_lt(mid[c], mid[a]));
                        }
                    }
                }
                assert(self.boxes@.no_duplicates()) by {
                    let s = self.boxes@;
                    assert forall|a: int, c: int| 0 <= a < s.len() && 0 <= c < s.len() && a != c
                        implies s[a] != s[c] by {
                        if a < c {
                            assert(pos_lt(s[a], s[c]));
                        } else {
                            assert(pos_lt(s[c], s[a]));
                        }
                    }
                }
                assert(!mid.to_set().contains(to));
                assert(self.boxes@.to_set() == mid.to_set().insert(to));
                assert(self.boxes@.to_set().len() == mid.to_set().len() + 1);
            }
        }
    }
}

} // verus!
