//! How a hierarchy grows while it is built: what building over one stretch
//! of slots leaves untouched, and what of a tree that stood before stands
//! after.

use crate::aabb::Axis;
use crate::bvh::tree::{on_low_side, Tree};
use vstd::prelude::*;

verus! {

impl Tree {
    /// Whether the leaf on record for the primitive in slot `s` is a leaf at
    /// or below node `i` whose stretch has the slot.
    pub open spec fn leaf_on_record(&self, i: int, s: int) -> bool {
        let leaf = self.leaf_of[self.order[s] as int] as int;
        &&& self.in_subtree(i, leaf)
        &&& 0 <= leaf < self.nodes.len()
        &&& self.nodes[leaf].children is None
        &&& self.covers(leaf, s)
    }

    /// Whether `other` came from `self` by work on the slots `lo..hi` alone:
    /// nodes were added behind those that were there, primitives changed
    /// places inside the stretch, and leaves were put on record for them.
    pub open spec fn grown_into(&self, other: Tree, lo: int, hi: int) -> bool {
        &&& other.boxes == self.boxes
        &&& self.linked()
        &&& other.linked()
        &&& other.leaf_of.len() == self.leaf_of.len()
        &&& self.nodes.len() <= other.nodes.len()
        &&& forall|j: int| 0 <= j < self.nodes.len() ==> #[trigger] other.nodes[j] == self.nodes[j]
        &&& forall|s: int|
            0 <= s < self.len() && !(lo <= s < hi) ==> #[trigger] other.order[s] == self.order[s]
        &&& forall|p: int|
            0 <= p < self.len() && p < self.leaf_of.len() && !(lo <= self.slot_of[p] < hi)
                ==> #[trigger] other.leaf_of[p] == self.leaf_of[p]
    }

    /// Work on a stretch of slots leaves every primitive on its side of the
    /// stretch's ends: outside in its slot, inside somewhere inside.
    pub proof fn lemma_slots_stay(&self, other: Tree, lo: int, hi: int, p: int)
        requires
            self.grown_into(other, lo, hi),
            0 <= p < self.len(),
        ensures
            !(lo <= self.slot_of[p] < hi) ==> other.slot_of[p] == self.slot_of[p],
            lo <= self.slot_of[p] < hi ==> lo <= other.slot_of[p] < hi,
    {
        let s0 = self.slot_of[p] as int;
        let s1 = other.slot_of[p] as int;
        assert(self.order[s0] == p);
        assert(other.order[s1] == p);
        if !(lo <= s0 < hi) {
            assert(other.order[s0] == self.order[s0]);
            assert(other.slot_of[other.order[s0] as int] == s0);
        } else if !(lo <= s1 < hi) {
            assert(other.order[s1] == self.order[s1]);
            assert(self.slot_of[self.order[s1] as int] == s1);
        }
    }

    /// Work on one stretch and then on a stretch inside the same ends is
    /// work on the stretch between those ends.
    pub proof fn lemma_grown_twice(
        &self,
        mid: Tree,
        other: Tree,
        lo: int,
        hi: int,
        lo2: int,
        hi2: int,
    )
        requires
            self.grown_into(mid, lo, hi),
            mid.grown_into(other, lo2, hi2),
            lo <= lo2,
            hi2 <= hi,
        ensures
            self.grown_into(other, lo, hi),
    {
        assert forall|p: int|
            0 <= p < self.len() && p < self.leaf_of.len() && !(lo <= self.slot_of[p] < hi)
                implies #[trigger] other.leaf_of[p] == self.leaf_of[p] by {
            self.lemma_slots_stay(mid, lo, hi, p);
            assert(mid.leaf_of[p] == self.leaf_of[p]);
        }
        assert forall|s: int| 0 <= s < self.len() && !(lo <= s < hi) implies #[trigger] other.order[s]
            == self.order[s] by {
            assert(mid.order[s] == self.order[s]);
        }
        assert forall|j: int| 0 <= j < self.nodes.len() implies #[trigger] other.nodes[j]
            == self.nodes[j] by {
            assert(mid.nodes[j] == self.nodes[j]);
        }
    }

    /// A leaf on record below a well-built node stays on record when nodes
    /// are added behind the node and neither the slot nor the record of its
    /// primitive changes.
    pub proof fn lemma_record_stable(&self, other: Tree, i: int, s: int)
        requires
            self.subtree_ok(i),
            self.leaf_on_record(i, s),
            self.same_nodes_upto(other, i),
            other.order[s] == self.order[s],
            other.leaf_of[self.order[s] as int] == self.leaf_of[self.order[s] as int],
        ensures
            other.leaf_on_record(i, s),
    {
        let leaf = self.leaf_of[self.order[s] as int] as int;
        self.lemma_below_is_ok(i, leaf);
        self.lemma_below_stable(other, i, leaf);
    }

    /// Whether `other` has the nodes `0..=i` of `self`, and its boxes.
    pub open spec fn same_nodes_upto(&self, other: Tree, i: int) -> bool {
        &&& other.boxes == self.boxes
        &&& i < self.nodes.len() <= other.nodes.len()
        &&& forall|j: int| 0 <= j <= i ==> #[trigger] other.nodes[j] == self.nodes[j]
    }

    /// Whether `other` has the primitives of `self` in the slots `lo..hi`.
    pub open spec fn same_slots(&self, other: Tree, lo: int, hi: int) -> bool {
        &&& hi <= self.order.len()
        &&& hi <= other.order.len()
        &&& forall|s: int| lo <= s < hi ==> #[trigger] other.order[s] == self.order[s]
    }

    /// The hull of a stretch depends on the primitives in its slots alone.
    pub proof fn lemma_hull_stable(&self, other: Tree, lo: int, hi: int)
        requires
            0 <= lo < hi,
            other.boxes == self.boxes,
            self.same_slots(other, lo, hi),
        ensures
            other.hull_of_slots(lo, hi) == self.hull_of_slots(lo, hi),
        decreases hi - lo,
    {
        if hi - lo > 1 {
            self.lemma_hull_stable(other, lo, hi - 1);
        }
    }

    /// A well-built node stays well built when nodes are added behind it and
    /// slots outside its stretch change.
    pub proof fn lemma_subtree_stable(&self, other: Tree, i: int)
        requires
            self.subtree_ok(i),
            self.same_nodes_upto(other, i),
            self.same_slots(
                other,
                self.nodes[i].first as int,
                self.nodes[i].first + self.nodes[i].count,
            ),
        ensures
            other.subtree_ok(i),
        decreases i,
    {
        match self.nodes[i].children {
            None => {
                self.lemma_hull_stable(
                    other,
                    self.nodes[i].first as int,
                    self.nodes[i].first + self.nodes[i].count,
                );
            },
            Some((l, r)) => {
                self.lemma_subtree_stable(other, l as int);
                self.lemma_subtree_stable(other, r as int);
                self.lemma_split_stable(other, i, l as int, r as int);
            },
        }
    }

    /// How a node shares out its primitives depends on the primitives in
    /// its stretch alone.
    pub proof fn lemma_split_stable(&self, other: Tree, i: int, l: int, r: int)
        requires
            self.split_ok(i, l, r),
            self.same_nodes_upto(other, i),
            0 <= l < i,
            0 <= r < i,
            self.nodes[l].first == self.nodes[i].first,
            self.nodes[r].first == self.nodes[i].first + self.nodes[l].count,
            self.nodes[l].count + self.nodes[r].count == self.nodes[i].count,
            self.nodes[i].count >= 1,
            self.same_slots(
                other,
                self.nodes[i].first as int,
                self.nodes[i].first + self.nodes[i].count,
            ),
        ensures
            other.split_ok(i, l, r),
    {
        let lo = self.nodes[i].first as int;
        let hi = self.nodes[i].first + self.nodes[i].count;
        if exists|axis: Axis, twice: int| #[trigger] self.cut_by(l, r, axis, twice) {
            let (axis, twice) = choose|axis: Axis, twice: int| #[trigger]
                self.cut_by(l, r, axis, twice);
            assert forall|s: int| other.covers(l, s) implies #[trigger] on_low_side(
                other.boxes,
                other.order,
                s,
                axis,
                twice,
            ) by {
                assert(self.covers(l, s));
                assert(on_low_side(self.boxes, self.order, s, axis, twice));
                assert(other.order[s] == self.order[s]);
            }
            assert forall|s: int| other.covers(r, s) implies !#[trigger] on_low_side(
                other.boxes,
                other.order,
                s,
                axis,
                twice,
            ) by {
                assert(self.covers(r, s));
                assert(!on_low_side(self.boxes, self.order, s, axis, twice));
                assert(other.order[s] == self.order[s]);
            }
            assert(other.cut_by(l, r, axis, twice));
        } else {
            let first = other.boxes[other.order[lo] as int];
            assert forall|s: int, axis: Axis| lo <= s < hi implies (
            #[trigger] other.boxes[other.order[s] as int].centre2(axis)) == first.centre2(axis) by {
                assert(other.order[s] == self.order[s]);
                assert(other.order[lo] == self.order[lo]);
                assert(self.boxes[self.order[s] as int].centre2(axis)
                    == self.boxes[self.order[lo] as int].centre2(axis));
            }
        }
    }

    /// Work on a stretch of slots leaves it with the primitives that it had:
    /// what stands in one of its slots afterwards stood in one of them
    /// before.
    pub proof fn lemma_stretch_keeps(&self, other: Tree, lo: int, hi: int, s: int) -> (was: int)
        requires
            self.grown_into(other, lo, hi),
            0 <= lo <= s < hi <= self.len(),
        ensures
            lo <= was < hi,
            self.order[was] == other.order[s],
    {
        let p = other.order[s] as int;
        assert(other.slot_of[p] == s);
        self.lemma_slots_stay(other, lo, hi, p);
        let was = self.slot_of[p] as int;
        assert(self.order[was] == p);
        was
    }

    /// Work on a stretch of slots leaves none of its primitives out: what
    /// stood in one of its slots before stands in one of them afterwards.
    pub proof fn lemma_stretch_loses_none(&self, other: Tree, lo: int, hi: int, s: int) -> (now: int)
        requires
            self.grown_into(other, lo, hi),
            0 <= lo <= s < hi <= self.len(),
        ensures
            lo <= now < hi,
            other.order[now] == self.order[s],
    {
        let p = self.order[s] as int;
        assert(self.slot_of[p] == s);
        self.lemma_slots_stay(other, lo, hi, p);
        let now = other.slot_of[p] as int;
        assert(other.order[now] == p);
        now
    }

    /// What lies below a node does not depend on the nodes behind it.
    pub proof fn lemma_below_stable(&self, other: Tree, i: int, j: int)
        requires
            self.same_nodes_upto(other, i),
            0 <= i,
        ensures
            other.in_subtree(i, j) == self.in_subtree(i, j),
        decreases i,
    {
        if j != i {
            match self.nodes[i].children {
                None => {},
                Some((l, r)) => {
                    if l < i && r < i {
                        self.lemma_below_stable(other, l as int, j);
                        self.lemma_below_stable(other, r as int, j);
                    }
                },
            }
        }
    }
}

} // verus!
