//! The hierarchy as a mathematical object: a binary tree over the primitives
//! of a scene, every node with the box around all primitives below it, and
//! what holds of every such tree.
//!
//! The hierarchy knows the primitives by their numbers and their boxes alone.
//! Its nodes lie in one vector, children before their parent, the root last.
//! `order` lists the primitives leaf by leaf: each node stands for a stretch
//! of its slots, a leaf for a short one, an inner node for the stretches of
//! its two children laid end to end.

use crate::aabb::{Aabb, Axis};
use vstd::prelude::*;

verus! {

/// The most primitives that a leaf holds.
pub const LEAF_CAPACITY: usize = 4;

/// A node of the hierarchy.
#[derive(Clone, Copy, Debug, PartialEq, Eq)]
pub struct Node {
    /// The box around every primitive of the node's stretch.
    pub bounds: Aabb,
    /// The first slot of the node's stretch of `order`.
    pub first: usize,
    /// The number of slots in the stretch.
    pub count: usize,
    /// The left and the right child of an inner node, `None` in a leaf.
    pub children: Option<(usize, usize)>,
}

/// What a hierarchy holds, as mathematical sequences.
pub struct Tree {
    /// The nodes, children before their parent, the root last.
    pub nodes: Seq<Node>,
    /// The primitives, slot by slot.
    pub order: Seq<usize>,
    /// For each primitive, the slot where `order` has it.
    pub slot_of: Seq<usize>,
    /// For each primitive, the leaf that holds it.
    pub leaf_of: Seq<usize>,
    /// For each primitive, its box.
    pub boxes: Seq<Aabb>,
}

/// A test on boxes, such as "the ray passes through this box".
pub type BoxTest = spec_fn(Aabb) -> bool;

/// Whether a test that accepts a box accepts every box around it. A ray
/// that passes through a box passes through every box that encloses it.
pub open spec fn grows_with_box(hit: BoxTest) -> bool {
    forall|outer: Aabb, inner: Aabb| #[trigger] outer.encloses(inner) && hit(inner) ==> hit(outer)
}

/// Whether `order` and `slot_of` are each other's inverse on `0..n`: every
/// primitive has exactly one slot and every slot one primitive.
pub open spec fn inverse(order: Seq<usize>, slot_of: Seq<usize>, n: nat) -> bool {
    &&& order.len() == n
    &&& slot_of.len() == n
    &&& forall|s: int|
        0 <= s < n ==> (#[trigger] order[s]) < n && slot_of[order[s] as int] == s
    &&& forall|p: int|
        0 <= p < n ==> (#[trigger] slot_of[p]) < n && order[slot_of[p] as int] == p
}

/// Whether the primitive in slot `s` has its centre on `axis` at or below
/// half of `twice`.
pub open spec fn on_low_side(
    boxes: Seq<Aabb>,
    order: Seq<usize>,
    s: int,
    axis: Axis,
    twice: int,
) -> bool {
    boxes[order[s] as int].centre2(axis) <= twice
}

/// Whether the primitives in the slots `lo..hi` have their centres in one
/// point.
pub open spec fn same_centres(boxes: Seq<Aabb>, order: Seq<usize>, lo: int, hi: int) -> bool {
    forall|s: int, axis: Axis|
        lo <= s < hi ==> (#[trigger] boxes[order[s] as int].centre2(axis))
            == boxes[order[lo] as int].centre2(axis)
}

impl Tree {
    /// The number of primitives.
    pub open spec fn len(&self) -> nat {
        self.boxes.len()
    }

    /// Whether every primitive has exactly one slot and every slot one
    /// primitive.
    pub open spec fn linked(&self) -> bool {
        inverse(self.order, self.slot_of, self.len())
    }

    /// Whether slot `s` belongs to the stretch of node `i`.
    pub open spec fn covers(&self, i: int, s: int) -> bool {
        self.nodes[i].first <= s < self.nodes[i].first + self.nodes[i].count
    }

    /// The box around the primitives in the slots `lo..hi`.
    pub open spec fn hull_of_slots(&self, lo: int, hi: int) -> Aabb
        decreases hi - lo,
    {
        if hi - lo <= 1 {
            self.boxes[self.order[lo] as int]
        } else {
            self.hull_of_slots(lo, hi - 1).hull(self.boxes[self.order[hi - 1] as int])
        }
    }

    /// Whether a plane across `axis` at half of `twice` parts the primitives
    /// of node `l` from those of node `r`: the centres of the first lie at
    /// the plane or below it, those of the second above.
    pub open spec fn cut_by(&self, l: int, r: int, axis: Axis, twice: int) -> bool {
        &&& forall|s: int|
            self.covers(l, s) ==> #[trigger] on_low_side(self.boxes, self.order, s, axis, twice)
        &&& forall|s: int|
            self.covers(r, s) ==> !#[trigger] on_low_side(self.boxes, self.order, s, axis, twice)
    }

    /// Whether the primitives in the slots `lo..hi` have their centres in
    /// one point.
    pub open spec fn one_centre(&self, lo: int, hi: int) -> bool {
        same_centres(self.boxes, self.order, lo, hi)
    }

    /// Whether node `i` shares out its primitives to its children `l` and
    /// `r` as it should: by a plane that parts the centres of its primitives
    /// or, where these are all one point, in halves.
    pub open spec fn split_ok(&self, i: int, l: int, r: int) -> bool {
        ||| exists|axis: Axis, twice: int| #[trigger] self.cut_by(l, r, axis, twice)
        ||| {
            &&& self.one_centre(
                self.nodes[i].first as int,
                self.nodes[i].first + self.nodes[i].count,
            )
            &&& self.nodes[l].count == self.nodes[i].count / 2
        }
    }

    /// Whether node `i` and all nodes below it are as they should be: a
    /// stretch that is not empty and lies in `order`; in a leaf, a short
    /// stretch and the box around its primitives; in an inner node, two
    /// children that come before it and share out its stretch, by a plane
    /// where one parts them, and the box around their two boxes.
    pub open spec fn subtree_ok(&self, i: int) -> bool
        decreases i,
    {
        &&& 0 <= i < self.nodes.len()
        &&& self.nodes[i].count >= 1
        &&& self.nodes[i].first + self.nodes[i].count <= self.order.len()
        &&& match self.nodes[i].children {
            None => {
                &&& self.nodes[i].count <= LEAF_CAPACITY
                &&& self.nodes[i].bounds == self.hull_of_slots(
                    self.nodes[i].first as int,
                    self.nodes[i].first + self.nodes[i].count,
                )
            },
            Some((l, r)) => {
                &&& l < i
                &&& r < i
                &&& self.nodes[l as int].first == self.nodes[i].first
                &&& self.nodes[r as int].first == self.nodes[i].first + self.nodes[l as int].count
                &&& self.nodes[l as int].count + self.nodes[r as int].count == self.nodes[i].count
                &&& self.nodes[i].bounds == self.nodes[l as int].bounds.hull(
                    self.nodes[r as int].bounds,
                )
                &&& self.split_ok(i, l as int, r as int)
                &&& self.subtree_ok(l as int)
                &&& self.subtree_ok(r as int)
            },
        }
    }

    /// Whether node `j` is node `i` or lies below it.
    pub open spec fn in_subtree(&self, i: int, j: int) -> bool
        decreases i,
    {
        j == i || (0 <= i < self.nodes.len() && match self.nodes[i].children {
            None => false,
            Some((l, r)) => l < i && r < i && (self.in_subtree(l as int, j) || self.in_subtree(
                r as int,
                j,
            )),
        })
    }

    /// The root: the last node.
    pub open spec fn root(&self) -> int {
        self.nodes.len() - 1
    }

    /// Whether `j` is a node of the tree.
    pub open spec fn is_node(&self, j: int) -> bool {
        self.nodes.len() > 0 && self.in_subtree(self.root(), j)
    }

    /// Whether `j` is a leaf of the tree.
    pub open spec fn is_leaf(&self, j: int) -> bool {
        self.is_node(j) && 0 <= j < self.nodes.len() && self.nodes[j].children is None
    }

    /// Whether the hierarchy is whole: every primitive in one slot, the tree
    /// well built over all slots, and each primitive's leaf on record. A
    /// scene without primitives has a hierarchy without nodes.
    pub open spec fn wf(&self) -> bool {
        &&& self.linked()
        &&& self.leaf_of.len() == self.len()
        &&& self.len() == 0 ==> self.nodes.len() == 0
        &&& self.len() > 0 ==> {
            &&& self.nodes.len() > 0
            &&& self.subtree_ok(self.root())
            &&& self.nodes[self.root()].first == 0
            &&& self.nodes[self.root()].count == self.len()
            &&& forall|p: int|
                0 <= p < self.len() ==> self.is_leaf(#[trigger] self.leaf_of[p] as int)
                    && self.covers(self.leaf_of[p] as int, self.slot_of[p] as int)
        }
    }

    /// The primitives that a walk from node `i` down reports, in the order of
    /// their slots: none where `hit` rejects the node's box, the node's own
    /// in a leaf, else what the left child gives and then what the right one
    /// gives.
    pub open spec fn reaches(&self, i: int, hit: BoxTest) -> Seq<usize>
        decreases i,
    {
        if !(0 <= i < self.nodes.len()) || !hit(self.nodes[i].bounds) {
            Seq::empty()
        } else {
            match self.nodes[i].children {
                None => self.order.subrange(
                    self.nodes[i].first as int,
                    self.nodes[i].first + self.nodes[i].count,
                ),
                Some((l, r)) => if l < i && r < i {
                    self.reaches(l as int, hit) + self.reaches(r as int, hit)
                } else {
                    Seq::empty()
                },
            }
        }
    }

    /// The primitives that a walk from the root reports for `hit`.
    pub open spec fn candidates(&self, hit: BoxTest) -> Seq<usize> {
        if self.nodes.len() == 0 {
            Seq::empty()
        } else {
            self.reaches(self.root(), hit)
        }
    }

    /// The hull of a stretch encloses the box of each primitive in it.
    pub proof fn lemma_hull_encloses(&self, lo: int, hi: int, s: int)
        requires
            lo <= s < hi,
        ensures
            self.hull_of_slots(lo, hi).encloses(self.boxes[self.order[s] as int]),
        decreases hi - lo,
    {
        if hi - lo > 1 {
            if s < hi - 1 {
                self.lemma_hull_encloses(lo, hi - 1, s);
            }
        }
    }

    /// Every node's box encloses the box of each primitive in its stretch.
    pub proof fn lemma_bounds_enclose(&self, i: int, s: int)
        requires
            self.subtree_ok(i),
            self.covers(i, s),
        ensures
            self.nodes[i].bounds.encloses(self.boxes[self.order[s] as int]),
        decreases i,
    {
        match self.nodes[i].children {
            None => {
                self.lemma_hull_encloses(
                    self.nodes[i].first as int,
                    self.nodes[i].first + self.nodes[i].count,
                    s,
                );
            },
            Some((l, r)) => {
                if self.covers(l as int, s) {
                    self.lemma_bounds_enclose(l as int, s);
                } else {
                    self.lemma_bounds_enclose(r as int, s);
                }
            },
        }
    }

    /// A node's box encloses the boxes of its children.
    pub proof fn lemma_parent_encloses_children(&self, i: int)
        requires
            self.subtree_ok(i),
        ensures
            self.nodes[i].children matches Some((l, r)) ==> self.nodes[i].bounds.encloses(
                self.nodes[l as int].bounds,
            ) && self.nodes[i].bounds.encloses(self.nodes[r as int].bounds),
    {
    }

    /// What lies below a well-built node is well built and stands for a part
    /// of the node's stretch.
    pub proof fn lemma_below_is_ok(&self, i: int, j: int)
        requires
            self.subtree_ok(i),
            self.in_subtree(i, j),
        ensures
            self.subtree_ok(j),
            j <= i,
            self.nodes[i].first <= self.nodes[j].first,
            self.nodes[j].first + self.nodes[j].count <= self.nodes[i].first + self.nodes[i].count,
        decreases i,
    {
        if j != i {
            let (l, r) = self.nodes[i].children->0;
            if self.in_subtree(l as int, j) {
                self.lemma_below_is_ok(l as int, j);
            } else {
                self.lemma_below_is_ok(r as int, j);
            }
        }
    }

    /// Below a well-built node every slot of its stretch lies in exactly one
    /// leaf: two leaves below the node that cover one slot are one leaf.
    pub proof fn lemma_one_leaf_below(&self, i: int, s: int, a: int, b: int)
        requires
            self.subtree_ok(i),
            self.in_subtree(i, a),
            self.in_subtree(i, b),
            0 <= a < self.nodes.len(),
            0 <= b < self.nodes.len(),
            self.nodes[a].children is None,
            self.nodes[b].children is None,
            self.covers(a, s),
            self.covers(b, s),
        ensures
            a == b,
        decreases i,
    {
        match self.nodes[i].children {
            None => {},
            Some((l, r)) => {
                assert(a != i && b != i);
                if self.in_subtree(l as int, a) {
                    self.lemma_below_is_ok(l as int, a);
                    if self.in_subtree(l as int, b) {
                        self.lemma_one_leaf_below(l as int, s, a, b);
                    } else {
                        self.lemma_below_is_ok(r as int, b);
                    }
                } else {
                    self.lemma_below_is_ok(r as int, a);
                    if self.in_subtree(r as int, b) {
                        self.lemma_one_leaf_below(r as int, s, a, b);
                    } else {
                        self.lemma_below_is_ok(l as int, b);
                    }
                }
            },
        }
    }

    /// Every primitive lies in exactly one leaf: the leaf on record holds
    /// it, and no other leaf of the tree does.
    pub proof fn lemma_one_leaf(&self, p: int, leaf: int)
        requires
            self.wf(),
            0 <= p < self.len(),
            self.is_leaf(leaf),
            self.covers(leaf, self.slot_of[p] as int),
        ensures
            leaf == self.leaf_of[p],
    {
        self.lemma_one_leaf_below(
            self.root(),
            self.slot_of[p] as int,
            leaf,
            self.leaf_of[p] as int,
        );
    }

    /// What a walk reports lies in the walked node's stretch, in the order of
    /// the slots: the report is `order` on that stretch with some slots left
    /// out.
    pub proof fn lemma_reaches_in_order(&self, i: int, hit: BoxTest) -> (slots: Seq<int>)
        requires
            self.subtree_ok(i),
        ensures
            slots.len() == self.reaches(i, hit).len(),
            forall|k: int|
                0 <= k < slots.len() ==> self.covers(i, #[trigger] slots[k]) && self.reaches(
                    i,
                    hit,
                )[k] == self.order[slots[k]],
            forall|j: int, k: int| 0 <= j < k < slots.len() ==> slots[j] < slots[k],
        decreases i,
    {
        if !hit(self.nodes[i].bounds) {
            Seq::empty()
        } else {
            match self.nodes[i].children {
                None => Seq::new(self.nodes[i].count as nat, |k: int| self.nodes[i].first + k),
                Some((l, r)) => {
                    let left = self.lemma_reaches_in_order(l as int, hit);
                    let right = self.lemma_reaches_in_order(r as int, hit);
                    left + right
                },
            }
        }
    }

    /// No primitive is reported twice.
    pub proof fn lemma_candidates_distinct(&self, hit: BoxTest)
        requires
            self.wf(),
        ensures
            self.candidates(hit).no_duplicates(),
            forall|k: int|
                0 <= k < self.candidates(hit).len() ==> (#[trigger] self.candidates(hit)[k])
                    < self.len(),
    {
        if self.nodes.len() > 0 {
            let slots = self.lemma_reaches_in_order(self.root(), hit);
            let out = self.candidates(hit);
            assert forall|j: int, k: int|
                0 <= j < out.len() && 0 <= k < out.len() && j != k implies out[j] != out[k] by {
                assert(self.covers(self.root(), slots[j]));
                assert(self.covers(self.root(), slots[k]));
                if j < k {
                    assert(slots[j] < slots[k]);
                } else {
                    assert(slots[k] < slots[j]);
                }
            }
            assert forall|k: int| 0 <= k < out.len() implies (#[trigger] out[k]) < self.len() by {
                assert(self.covers(self.root(), slots[k]));
            }
        }
    }

    /// Where `hit` grows with the box and accepts the box of the primitive
    /// in a slot, a walk from a node with that slot reports the primitive.
    pub proof fn lemma_reaches_complete(&self, i: int, hit: BoxTest, s: int)
        requires
            self.subtree_ok(i),
            self.covers(i, s),
            grows_with_box(hit),
            hit(self.boxes[self.order[s] as int]),
        ensures
            self.reaches(i, hit).contains(self.order[s]),
        decreases i,
    {
        self.lemma_bounds_enclose(i, s);
        assert(hit(self.nodes[i].bounds));
        match self.nodes[i].children {
            None => {
                let part = self.order.subrange(
                    self.nodes[i].first as int,
                    self.nodes[i].first + self.nodes[i].count,
                );
                assert(part[s - self.nodes[i].first] == self.order[s]);
            },
            Some((l, r)) => {
                let left = self.reaches(l as int, hit);
                let right = self.reaches(r as int, hit);
                if self.covers(l as int, s) {
                    self.lemma_reaches_complete(l as int, hit, s);
                    let k = choose|k: int| 0 <= k < left.len() && left[k] == self.order[s];
                    assert((left + right)[k] == self.order[s]);
                } else {
                    self.lemma_reaches_complete(r as int, hit, s);
                    let k = choose|k: int| 0 <= k < right.len() && right[k] == self.order[s];
                    assert((left + right)[left.len() + k] == self.order[s]);
                }
            },
        }
    }

    /// No false negatives: a walk of the hierarchy reports every primitive
    /// whose own box the test accepts, whatever the scene and the test, as
    /// long as the test grows with the box. A scan of all primitives that
    /// keeps those that a ray meets keeps none that the walk has not reported:
    /// a ray that meets a primitive passes through its box.
    pub proof fn lemma_no_false_negatives(&self, hit: BoxTest, p: int)
        requires
            self.wf(),
            grows_with_box(hit),
            0 <= p < self.len(),
            hit(self.boxes[p]),
        ensures
            self.candidates(hit).contains(p as usize),
    {
        let s = self.slot_of[p] as int;
        assert(self.order[s] == p);
        self.lemma_reaches_complete(self.root(), hit, s);
    }

    /// A walk from a node reports the primitive of one of its slots if and
    /// only if the test accepts the box of every node from there down that
    /// has the slot: the walk leaves out what lies under a rejected box, and
    /// nothing else.
    pub proof fn lemma_reaches_exact(&self, i: int, hit: BoxTest, s: int)
        requires
            self.linked(),
            self.subtree_ok(i),
            self.covers(i, s),
        ensures
            self.reaches(i, hit).contains(self.order[s]) <==> forall|j: int|
                self.in_subtree(i, j) && 0 <= j < self.nodes.len() && #[trigger] self.covers(j, s)
                    ==> hit(self.nodes[j].bounds),
        decreases i,
    {
        let wanted = self.order[s];
        let all_accepted = forall|j: int|
            self.in_subtree(i, j) && 0 <= j < self.nodes.len() && #[trigger] self.covers(j, s)
                ==> hit(self.nodes[j].bounds);
        match self.nodes[i].children {
            None => {
                let part = self.order.subrange(
                    self.nodes[i].first as int,
                    self.nodes[i].first + self.nodes[i].count,
                );
                assert(part[s - self.nodes[i].first] == wanted);
                assert(self.in_subtree(i, i));
            },
            Some((l, r)) => {
                let (near, far) = if self.covers(l as int, s) {
                    (l as int, r as int)
                } else {
                    (r as int, l as int)
                };
                let left = self.reaches(l as int, hit);
                let right = self.reaches(r as int, hit);
                self.lemma_reaches_exact(near, hit, s);
                // The child without the slot does not report its primitive.
                let far_slots = self.lemma_reaches_in_order(far, hit);
                assert(!self.reaches(far, hit).contains(wanted)) by {
                    if self.reaches(far, hit).contains(wanted) {
                        let k = choose|k: int|
                            0 <= k < self.reaches(far, hit).len() && self.reaches(far, hit)[k]
                                == wanted;
                        assert(self.covers(far, far_slots[k]));
                        assert(self.slot_of[self.order[far_slots[k]] as int] == far_slots[k]);
                        assert(self.slot_of[self.order[s] as int] == s);
                    }
                }
                assert(self.in_subtree(i, i));
                if all_accepted {
                    assert forall|j: int|
                        self.in_subtree(near, j) && 0 <= j < self.nodes.len() && #[trigger] self.covers(
                            j,
                            s,
                        ) implies hit(self.nodes[j].bounds) by {
                        assert(self.in_subtree(i, j));
                    }
                    let k = choose|k: int|
                        0 <= k < self.reaches(near, hit).len() && self.reaches(near, hit)[k]
                            == wanted;
                    if near == l {
                        assert((left + right)[k] == wanted);
                    } else {
                        assert((left + right)[left.len() + k] == wanted);
                    }
                }
                if self.reaches(i, hit).contains(wanted) {
                    let k = choose|k: int| 0 <= k < (left + right).len() && (left + right)[k] == wanted;
                    if k < left.len() {
                        assert(left[k] == wanted);
                    } else {
                        assert(right[k - left.len()] == wanted);
                    }
                    assert(self.reaches(near, hit).contains(wanted));
                    assert forall|j: int|
                        self.in_subtree(i, j) && 0 <= j < self.nodes.len() && #[trigger] self.covers(
                            j,
                            s,
                        ) implies hit(self.nodes[j].bounds) by {
                        if j != i {
                            if self.in_subtree(far, j) {
                                self.lemma_below_is_ok(far, j);
                            }
                        }
                    }
                }
            },
        }
    }

    /// A primitive is reported if and only if the test accepts the box of
    /// every node of the tree that has the primitive below it.
    pub proof fn lemma_candidates_exact(&self, hit: BoxTest, p: int)
        requires
            self.wf(),
            0 <= p < self.len(),
        ensures
            self.candidates(hit).contains(p as usize) <==> forall|j: int|
                self.is_node(j) && 0 <= j < self.nodes.len() && #[trigger] self.covers(
                    j,
                    self.slot_of[p] as int,
                ) ==> hit(self.nodes[j].bounds),
    {
        let s = self.slot_of[p] as int;
        assert(self.order[s] == p);
        self.lemma_reaches_exact(self.root(), hit, s);
    }

    /// A test that accepts every box has the walk report every primitive, in
    /// the order of the slots.
    pub proof fn lemma_reaches_all(&self, i: int, hit: BoxTest)
        requires
            self.subtree_ok(i),
            forall|b: Aabb| #[trigger] hit(b),
        ensures
            self.reaches(i, hit) == self.order.subrange(
                self.nodes[i].first as int,
                self.nodes[i].first + self.nodes[i].count,
            ),
        decreases i,
    {
        match self.nodes[i].children {
            None => {},
            Some((l, r)) => {
                self.lemma_reaches_all(l as int, hit);
                self.lemma_reaches_all(r as int, hit);
                assert(self.reaches(i, hit) =~= self.order.subrange(
                    self.nodes[i].first as int,
                    self.nodes[i].first + self.nodes[i].count,
                ));
            },
        }
    }

    /// A test that rejects the root's box has the walk report nothing, and
    /// one that accepts every box has it report all primitives.
    pub proof fn lemma_candidates_extremes(&self, hit: BoxTest)
        requires
            self.wf(),
        ensures
            self.len() > 0 && !hit(self.nodes[self.root()].bounds) ==> self.candidates(hit).len()
                == 0,
            (forall|b: Aabb| #[trigger] hit(b)) ==> self.candidates(hit) == self.order,
    {
        if self.len() > 0 && (forall|b: Aabb| #[trigger] hit(b)) {
            self.lemma_reaches_all(self.root(), hit);
            assert(self.order.subrange(0, self.order.len() as int) =~= self.order);
        }
        if self.len() == 0 {
            assert(self.candidates(hit) =~= self.order);
        }
    }
}

} // verus!
