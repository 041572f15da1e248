//! Building the hierarchy and walking it.

use crate::aabb::{Aabb, Axis};
use crate::bvh::tree::{
    grows_with_box, inverse, on_low_side, same_centres, BoxTest, Node, Tree, LEAF_CAPACITY,
};
use vstd::prelude::*;

verus! {

/// A bounding volume hierarchy over the primitives whose boxes it was built
/// from. It is built once and never changed.
pub struct Bvh {
    nodes: Vec<Node>,
    order: Vec<usize>,
    slot_of: Vec<usize>,
    leaf_of: Vec<usize>,
    boxes: Vec<Aabb>,
}

/// A plane across an axis, at half of `twice`.
#[derive(Clone, Copy, Debug, PartialEq, Eq, Structural)]
pub struct Plane {
    pub axis: Axis,
    pub twice: i64,
}

/// The tree that the parts of a hierarchy under construction make.
pub open spec fn tree_of(
    nodes: Seq<Node>,
    order: Seq<usize>,
    slot_of: Seq<usize>,
    leaf_of: Seq<usize>,
    boxes: Seq<Aabb>,
) -> Tree {
    Tree { nodes, order, slot_of, leaf_of, boxes }
}

/// Exchanges the primitives of the slots `a` and `b`.
fn swap_slots(order: &mut Vec<usize>, slot_of: &mut Vec<usize>, a: usize, b: usize)
    requires
        inverse(old(order)@, old(slot_of)@, old(order)@.len()),
        a < old(order).len(),
        b < old(order).len(),
    ensures
        inverse(final(order)@, final(slot_of)@, old(order)@.len()),
        final(order)@ == old(order)@.update(a as int, old(order)@[b as int]).update(
            b as int,
            old(order)@[a as int],
        ),
{
    let pa: usize = order[a];
    let pb: usize = order[b];
    order.set(a, pb);
    order.set(b, pa);
    slot_of.set(pb, a);
    slot_of.set(pa, b);
    proof {
        let n = order@.len();
        assert forall|s: int| 0 <= s < n implies (#[trigger] order@[s]) < n
            && slot_of@[order@[s] as int] == s by {
            assert(old(order)@[s] < n && old(slot_of)@[old(order)@[s] as int] == s);
        }
        assert forall|p: int| 0 <= p < n implies (#[trigger] slot_of@[p]) < n
            && order@[slot_of@[p] as int] == p by {
            assert(old(slot_of)@[p] < n && old(order)@[old(slot_of)@[p] as int] == p);
        }
    }
}

/// Whether the primitive in slot `s` lies on the low side of the plane.
pub open spec fn below(boxes: Seq<Aabb>, order: Seq<usize>, s: int, cut: Plane) -> bool {
    on_low_side(boxes, order, s, cut.axis, cut.twice as int)
}

/// Brings the primitives of the slots `lo..hi` whose centre lies on the low
/// side of the plane before the others, and says where the others begin.
fn partition(
    boxes: &Vec<Aabb>,
    order: &mut Vec<usize>,
    slot_of: &mut Vec<usize>,
    lo: usize,
    hi: usize,
    cut: Plane,
) -> (mid: usize)
    requires
        inverse(old(order)@, old(slot_of)@, boxes@.len()),
        lo <= hi <= boxes.len(),
    ensures
        inverse(final(order)@, final(slot_of)@, boxes@.len()),
        lo <= mid <= hi,
        forall|s: int|
            0 <= s < boxes.len() && !(lo <= s < hi) ==> #[trigger] final(order)@[s] == old(
                order,
            )@[s],
        forall|s: int| lo <= s < mid ==> #[trigger] below(boxes@, final(order)@, s, cut),
        forall|s: int| mid <= s < hi ==> !#[trigger] below(boxes@, final(order)@, s, cut),
{
    let mut mid: usize = lo;
    let mut s: usize = lo;
    while s < hi
        invariant
            inverse(order@, slot_of@, boxes@.len()),
            lo <= mid <= s <= hi <= boxes.len(),
            forall|t: int|
                0 <= t < boxes.len() && !(lo <= t < s) ==> #[trigger] order@[t] == old(order)@[t],
            forall|t: int| lo <= t < mid ==> #[trigger] below(boxes@, order@, t, cut),
            forall|t: int| mid <= t < s ==> !#[trigger] below(boxes@, order@, t, cut),
        decreases hi - s,
    {
        let p: usize = order[s];
        assert(order@[s as int] < boxes@.len());
        if boxes[p].centre_twice(cut.axis) <= cut.twice {
            let ghost before = order@;
            swap_slots(order, slot_of, mid, s);
            assert forall|t: int| lo <= t < mid + 1 implies #[trigger] below(
                boxes@,
                order@,
                t,
                cut,
            ) by {
                if t < mid {
                    assert(below(boxes@, before, t, cut));
                }
            }
            assert forall|t: int| mid + 1 <= t < s + 1 implies !#[trigger] below(
                boxes@,
                order@,
                t,
                cut,
            ) by {
                if t < s {
                    assert(!below(boxes@, before, t, cut));
                } else {
                    assert(mid < s);
                    assert(!below(boxes@, before, mid as int, cut));
                }
            }
            mid = mid + 1;
        }
        s = s + 1;
    }
    mid
}

/// The least and the greatest doubled centre on `axis` among the primitives
/// of the slots `lo..hi`.
fn centre_span(boxes: &Vec<Aabb>, order: &Vec<usize>, lo: usize, hi: usize, axis: Axis) -> (span: (
    i64,
    i64,
))
    requires
        lo < hi <= order.len(),
        forall|s: int| lo <= s < hi ==> (#[trigger] order@[s]) < boxes.len(),
    ensures
        span.0 <= span.1,
        -0x1_0000_0000 <= span.0,
        span.1 <= 0x1_0000_0000,
        forall|s: int|
            lo <= s < hi ==> span.0 <= (#[trigger] boxes@[order@[s] as int]).centre2(axis)
                <= span.1,
        exists|s: int| lo <= s < hi && (#[trigger] boxes@[order@[s] as int]).centre2(axis) == span.0,
        exists|s: int| lo <= s < hi && (#[trigger] boxes@[order@[s] as int]).centre2(axis) == span.1,
{
    assert(order@[lo as int] < boxes.len());
    let mut least: i64 = boxes[order[lo]].centre_twice(axis);
    let mut greatest: i64 = least;
    let ghost mut at_least: int = lo as int;
    let ghost mut at_greatest: int = lo as int;
    let mut s: usize = lo + 1;
    while s < hi
        invariant
            lo < s <= hi <= order.len(),
            forall|t: int| lo <= t < hi ==> (#[trigger] order@[t]) < boxes.len(),
            least <= greatest,
            -0x1_0000_0000 <= least,
            greatest <= 0x1_0000_0000,
            forall|t: int|
                lo <= t < s ==> least <= (#[trigger] boxes@[order@[t] as int]).centre2(axis)
                    <= greatest,
            lo <= at_least < s,
            lo <= at_greatest < s,
            boxes@[order@[at_least] as int].centre2(axis) == least,
            boxes@[order@[at_greatest] as int].centre2(axis) == greatest,
        decreases hi - s,
    {
        assert(order@[s as int] < boxes.len());
        let c: i64 = boxes[order[s]].centre_twice(axis);
        if c < least {
            least = c;
            proof {
                at_least = s as int;
            }
        }
        if c > greatest {
            greatest = c;
            proof {
                at_greatest = s as int;
            }
        }
        s = s + 1;
    }
    (least, greatest)
}

/// The box around the primitives of the slots `lo..hi`.
fn hull_over(
    boxes: &Vec<Aabb>,
    order: &Vec<usize>,
    lo: usize,
    hi: usize,
    Ghost(t): Ghost<Tree>,
) -> (bounds: Aabb)
    requires
        lo < hi <= order.len(),
        forall|s: int| lo <= s < hi ==> (#[trigger] order@[s]) < boxes.len(),
        t.boxes == boxes@,
        t.order == order@,
    ensures
        bounds == t.hull_of_slots(lo as int, hi as int),
{
    assert(order@[lo as int] < boxes.len());
    let mut bounds: Aabb = boxes[order[lo]];
    let mut s: usize = lo + 1;
    while s < hi
        invariant
            lo < s <= hi <= order.len(),
            forall|k: int| lo <= k < hi ==> (#[trigger] order@[k]) < boxes.len(),
            t.boxes == boxes@,
            t.order == order@,
            bounds == t.hull_of_slots(lo as int, s as int),
        decreases hi - s,
    {
        assert(order@[s as int] < boxes.len());
        bounds = bounds.join(&boxes[order[s]]);
        s = s + 1;
    }
    bounds
}

/// Where to cut the stretch `lo..hi`: across the axis on which the centres of
/// its primitives spread widest, in the middle of their span there. `None`
/// where all centres are one point. Where there is a plane, it has a centre
/// on either side.
fn choose_plane(boxes: &Vec<Aabb>, order: &Vec<usize>, lo: usize, hi: usize) -> (plane: Option<
    Plane,
>)
    requires
        lo < hi <= order.len(),
        forall|s: int| lo <= s < hi ==> (#[trigger] order@[s]) < boxes.len(),
    ensures
        plane matches Some(cut) ==> exists|s: int|
            lo <= s < hi && #[trigger] below(boxes@, order@, s, cut),
        plane matches Some(cut) ==> exists|s: int|
            lo <= s < hi && !#[trigger] below(boxes@, order@, s, cut),
        plane is None ==> same_centres(boxes@, order@, lo as int, hi as int),
{
    let x = centre_span(boxes, order, lo, hi, Axis::X);
    let y = centre_span(boxes, order, lo, hi, Axis::Y);
    let z = centre_span(boxes, order, lo, hi, Axis::Z);
    let wide_x: i64 = x.1 - x.0;
    let wide_y: i64 = y.1 - y.0;
    let wide_z: i64 = z.1 - z.0;
    let (axis, least, greatest) = if wide_x >= wide_y && wide_x >= wide_z {
        (Axis::X, x.0, x.1)
    } else if wide_y >= wide_z {
        (Axis::Y, y.0, y.1)
    } else {
        (Axis::Z, z.0, z.1)
    };
    if least == greatest {
        proof {
            let first = boxes@[order@[lo as int] as int];
            assert forall|s: int, axis: Axis| lo <= s < hi implies (
            #[trigger] boxes@[order@[s] as int].centre2(axis)) == first.centre2(axis) by {
                let here = boxes@[order@[s] as int];
                match axis {
                    Axis::X => {
                        assert(x.0 <= here.centre2(Axis::X) <= x.1);
                        assert(x.0 <= first.centre2(Axis::X) <= x.1);
                    },
                    Axis::Y => {
                        assert(y.0 <= here.centre2(Axis::Y) <= y.1);
                        assert(y.0 <= first.centre2(Axis::Y) <= y.1);
                    },
                    Axis::Z => {
                        assert(z.0 <= here.centre2(Axis::Z) <= z.1);
                        assert(z.0 <= first.centre2(Axis::Z) <= z.1);
                    },
                }
            }
        }
        None
    } else {
        let cut = Plane { axis, twice: least + (greatest - least) / 2 };
        proof {
            let low = choose|s: int|
                lo <= s < hi && (#[trigger] boxes@[order@[s] as int]).centre2(axis) == least;
            let high = choose|s: int|
                lo <= s < hi && (#[trigger] boxes@[order@[s] as int]).centre2(axis) == greatest;
            assert(below(boxes@, order@, low, cut));
            assert(!below(boxes@, order@, high, cut));
        }
        Some(cut)
    }
}

/// Makes the leaf for the slots `lo..hi` and puts it on record for each of
/// their primitives.
fn build_leaf(
    boxes: &Vec<Aabb>,
    nodes: &mut Vec<Node>,
    order: &Vec<usize>,
    slot_of: &Vec<usize>,
    leaf_of: &mut Vec<usize>,
    lo: usize,
    hi: usize,
) -> (root: usize)
    requires
        lo < hi <= boxes.len(),
        hi - lo <= LEAF_CAPACITY,
        inverse(order@, slot_of@, boxes@.len()),
        old(leaf_of).len() == boxes.len(),
    ensures
        tree_of(old(nodes)@, order@, slot_of@, old(leaf_of)@, boxes@).grown_into(
            tree_of(final(nodes)@, order@, slot_of@, final(leaf_of)@, boxes@),
            lo as int,
            hi as int,
        ),
        root == final(nodes).len() - 1,
        final(nodes).len() == old(nodes).len() + 1,
        final(nodes)@[root as int].first == lo,
        final(nodes)@[root as int].count == hi - lo,
        tree_of(final(nodes)@, order@, slot_of@, final(leaf_of)@, boxes@).subtree_ok(root as int),
        forall|s: int|
            lo <= s < hi ==> #[trigger] tree_of(
                final(nodes)@,
                order@,
                slot_of@,
                final(leaf_of)@,
                boxes@,
            ).leaf_on_record(root as int, s),
{
    let ghost t0 = tree_of(nodes@, order@, slot_of@, leaf_of@, boxes@);
    assert forall|s: int| lo <= s < hi implies (#[trigger] order@[s]) < boxes.len() by {}
    let bounds = hull_over(boxes, order, lo, hi, Ghost(t0));
    let root: usize = nodes.len();
    nodes.push(Node { bounds, first: lo, count: hi - lo, children: None });
    let mut s: usize = lo;
    while s < hi
        invariant
            lo <= s <= hi <= boxes.len(),
            inverse(order@, slot_of@, boxes@.len()),
            leaf_of.len() == boxes.len(),
            forall|k: int| lo <= k < s ==> leaf_of@[#[trigger] order@[k] as int] == root,
            forall|p: int|
                0 <= p < boxes.len() && !(lo <= slot_of@[p] < hi) ==> #[trigger] leaf_of@[p] == old(
                    leaf_of,
                )@[p],
        decreases hi - s,
    {
        let p: usize = order[s];
        assert(order@[s as int] < boxes.len() && slot_of@[order@[s as int] as int] == s);
        let ghost before = leaf_of@;
        leaf_of.set(p, root);
        assert forall|k: int| lo <= k < s + 1 implies leaf_of@[#[trigger] order@[k] as int]
            == root by {
            assert(slot_of@[order@[k] as int] == k);
        }
        s = s + 1;
    }
    proof {
        let t1 = tree_of(nodes@, order@, slot_of@, leaf_of@, boxes@);
        t0.lemma_hull_stable(t1, lo as int, hi as int);
        assert(t1.subtree_ok(root as int));
        assert forall|k: int| lo <= k < hi implies #[trigger] t1.leaf_on_record(root as int, k) by {
            assert(leaf_of@[order@[k] as int] == root);
        }
    }
    root
}

/// Builds the subtree over the slots `lo..hi`: a leaf where they are few,
/// else an inner node over the two parts into which a plane cuts them, or
/// over their two halves where no plane parts them. Gives the subtree's root.
fn build_range(
    boxes: &Vec<Aabb>,
    nodes: &mut Vec<Node>,
    order: &mut Vec<usize>,
    slot_of: &mut Vec<usize>,
    leaf_of: &mut Vec<usize>,
    lo: usize,
    hi: usize,
) -> (root: usize)
    requires
        lo < hi <= boxes.len(),
        inverse(old(order)@, old(slot_of)@, boxes@.len()),
        old(leaf_of).len() == boxes.len(),
    ensures
        tree_of(old(nodes)@, old(order)@, old(slot_of)@, old(leaf_of)@, boxes@).grown_into(
            tree_of(final(nodes)@, final(order)@, final(slot_of)@, final(leaf_of)@, boxes@),
            lo as int,
            hi as int,
        ),
        root == final(nodes).len() - 1,
        final(nodes).len() > old(nodes).len(),
        final(nodes)@[root as int].first == lo,
        final(nodes)@[root as int].count == hi - lo,
        tree_of(
            final(nodes)@,
            final(order)@,
            final(slot_of)@,
            final(leaf_of)@,
            boxes@,
        ).subtree_ok(root as int),
        forall|s: int|
            lo <= s < hi ==> #[trigger] tree_of(
                final(nodes)@,
                final(order)@,
                final(slot_of)@,
                final(leaf_of)@,
                boxes@,
            ).leaf_on_record(root as int, s),
    decreases hi - lo,
{
    if hi - lo <= LEAF_CAPACITY {
        return build_leaf(boxes, nodes, order, slot_of, leaf_of, lo, hi);
    }
    let ghost t0 = tree_of(nodes@, order@, slot_of@, leaf_of@, boxes@);
    assert forall|s: int| lo <= s < hi implies (#[trigger] order@[s]) < boxes.len() by {}
    let plane = choose_plane(boxes, order, lo, hi);
    let mid: usize = match plane {
        None => lo + (hi - lo) / 2,
        Some(cut) => partition(boxes, order, slot_of, lo, hi, cut),
    };
    let ghost tp = tree_of(nodes@, order@, slot_of@, leaf_of@, boxes@);
    assert(t0.grown_into(tp, lo as int, hi as int));
    proof {
        if let Some(cut) = plane {
            // A centre lay on either side of the plane, so neither part is empty.
            let low = choose|s: int| lo <= s < hi && #[trigger] below(t0.boxes, t0.order, s, cut);
            let high = choose|s: int| lo <= s < hi && !#[trigger] below(t0.boxes, t0.order, s, cut);
            let low_now = t0.lemma_stretch_loses_none(tp, lo as int, hi as int, low);
            let high_now = t0.lemma_stretch_loses_none(tp, lo as int, hi as int, high);
            assert(below(tp.boxes, tp.order, low_now, cut));
            assert(!below(tp.boxes, tp.order, high_now, cut));
        }
    }
    let left = build_range(boxes, nodes, order, slot_of, leaf_of, lo, mid);
    let ghost tl = tree_of(nodes@, order@, slot_of@, leaf_of@, boxes@);
    let right = build_range(boxes, nodes, order, slot_of, leaf_of, mid, hi);
    let ghost tr = tree_of(nodes@, order@, slot_of@, leaf_of@, boxes@);
    let bounds = nodes[left].bounds.join(&nodes[right].bounds);
    let root: usize = nodes.len();
    nodes.push(Node { bounds, first: lo, count: hi - lo, children: Some((left, right)) });
    proof {
        let t1 = tree_of(nodes@, order@, slot_of@, leaf_of@, boxes@);
        assert(tr.grown_into(t1, mid as int, hi as int));
        // The left subtree is as it was built: the right one's work lay behind it.
        tl.lemma_subtree_stable(tr, left as int);
        tr.lemma_subtree_stable(t1, left as int);
        tr.lemma_subtree_stable(t1, right as int);
        t0.lemma_grown_twice(tp, tl, lo as int, hi as int, lo as int, mid as int);
        t0.lemma_grown_twice(tl, tr, lo as int, hi as int, mid as int, hi as int);
        t0.lemma_grown_twice(tr, t1, lo as int, hi as int, mid as int, hi as int);
        match plane {
            Some(cut) => {
                let twice = cut.twice as int;
                assert forall|s: int| t1.covers(left as int, s) implies #[trigger] on_low_side(
                    t1.boxes,
                    t1.order,
                    s,
                    cut.axis,
                    twice,
                ) by {
                    let was = tp.lemma_stretch_keeps(tl, lo as int, mid as int, s);
                    assert(below(tp.boxes, tp.order, was, cut));
                    assert(tr.order[s] == tl.order[s]);
                }
                assert forall|s: int| t1.covers(right as int, s) implies !#[trigger] on_low_side(
                    t1.boxes,
                    t1.order,
                    s,
                    cut.axis,
                    twice,
                ) by {
                    let was = tl.lemma_stretch_keeps(tr, mid as int, hi as int, s);
                    assert(tl.order[was] == tp.order[was]);
                    assert(!below(tp.boxes, tp.order, was, cut));
                }
                assert(t1.cut_by(left as int, right as int, cut.axis, twice));
            },
            None => {
                let first = t0.lemma_stretch_keeps(t1, lo as int, hi as int, lo as int);
                let head = t1.boxes[t1.order[lo as int] as int];
                assert forall|s: int, axis: Axis| lo <= s < hi implies (
                #[trigger] t1.boxes[t1.order[s] as int].centre2(axis)) == head.centre2(axis) by {
                    let was = t0.lemma_stretch_keeps(t1, lo as int, hi as int, s);
                    assert(t0.boxes[t0.order[was] as int].centre2(axis)
                        == t0.boxes[t0.order[lo as int] as int].centre2(axis));
                    assert(t0.boxes[t0.order[first] as int].centre2(axis)
                        == t0.boxes[t0.order[lo as int] as int].centre2(axis));
                }
            },
        }
        assert(t1.split_ok(root as int, left as int, right as int));
        assert(t1.subtree_ok(root as int));
        assert forall|s: int| lo <= s < hi implies #[trigger] t1.leaf_on_record(root as int, s) by {
            if s < mid {
                assert(tl.leaf_on_record(left as int, s));
                assert(tl.slot_of[tl.order[s] as int] == s);
                tl.lemma_record_stable(tr, left as int, s);
                tr.lemma_record_stable(t1, left as int, s);
            } else {
                assert(tr.leaf_on_record(right as int, s));
                tr.lemma_record_stable(t1, right as int, s);
            }
        }
    }
    root
}

/// The test on boxes that an executable test stands for: a box is accepted
/// where the test cannot answer `false` for it.
pub open spec fn accepts<F: Fn(&Aabb) -> bool>(hits: F) -> BoxTest {
    |b: Aabb| !hits.ensures((&b,), false)
}

/// Whether `hits` can be asked about every box.
pub open spec fn answers_all<F: Fn(&Aabb) -> bool>(hits: F) -> bool {
    forall|b: Aabb| #[trigger] hits.requires((&b,))
}

/// Whether `hits` has one answer for each box: for none may it say `true`
/// and may it say `false`.
pub open spec fn definite<F: Fn(&Aabb) -> bool>(hits: F) -> bool {
    forall|b: Aabb| #[trigger] hits.ensures((&b,), false) ==> !hits.ensures((&b,), true)
}

/// Whether `hits` answers as `hit` says: whatever it may answer for a box is
/// what `hit` is for that box.
pub open spec fn decides<F: Fn(&Aabb) -> bool>(hits: F, hit: BoxTest) -> bool {
    forall|b: Aabb, answer: bool| #[trigger] hits.ensures((&b,), answer) ==> answer == hit(b)
}

impl View for Bvh {
    type V = Tree;

    closed spec fn view(&self) -> Tree {
        tree_of(self.nodes@, self.order@, self.slot_of@, self.leaf_of@, self.boxes@)
    }
}

impl Bvh {
    #[verifier::type_invariant]
    closed spec fn whole(&self) -> bool {
        self@.wf()
    }

    /// Builds the hierarchy over the primitives with the given boxes, the
    /// primitive `p` being the one with the box `boxes[p]`.
    pub fn build(boxes: Vec<Aabb>) -> (bvh: Bvh)
        ensures
            bvh@.wf(),
            bvh@.boxes == boxes@,
    {
        let n: usize = boxes.len();
        let mut nodes: Vec<Node> = Vec::new();
        let mut order: Vec<usize> = Vec::new();
        let mut slot_of: Vec<usize> = Vec::new();
        let mut leaf_of: Vec<usize> = Vec::new();
        let mut p: usize = 0;
        while p < n
            invariant
                p <= n,
                order@.len() == p,
                slot_of@.len() == p,
                leaf_of@.len() == p,
                forall|k: int| 0 <= k < p ==> #[trigger] order@[k] == k,
                forall|k: int| 0 <= k < p ==> #[trigger] slot_of@[k] == k,
            decreases n - p,
        {
            order.push(p);
            slot_of.push(p);
            leaf_of.push(0);
            p = p + 1;
        }
        if n > 0 {
            let root = build_range(&boxes, &mut nodes, &mut order, &mut slot_of, &mut leaf_of, 0, n);
            proof {
                let t = tree_of(nodes@, order@, slot_of@, leaf_of@, boxes@);
                assert forall|q: int| 0 <= q < t.len() implies t.is_leaf(
                    #[trigger] t.leaf_of[q] as int,
                ) && t.covers(t.leaf_of[q] as int, t.slot_of[q] as int) by {
                    let s = t.slot_of[q] as int;
                    assert(t.order[s] == q);
                    assert(t.leaf_on_record(root as int, s));
                }
            }
        }
        Bvh { nodes, order, slot_of, leaf_of, boxes }
    }

    /// The number of primitives.
    pub fn len(&self) -> (n: usize)
        ensures
            n == self@.len(),
            self@.wf(),
    {
        proof {
            use_type_invariant(self);
        }
        self.boxes.len()
    }

    /// The number of nodes.
    pub fn node_count(&self) -> (n: usize)
        ensures
            n == self@.nodes.len(),
            self@.wf(),
    {
        proof {
            use_type_invariant(self);
        }
        self.nodes.len()
    }

    /// Node `i`, or `None` where there are not that many nodes. The root is
    /// the last node.
    pub fn node(&self, i: usize) -> (node: Option<Node>)
        ensures
            node == (if i < self@.nodes.len() {
                Some(self@.nodes[i as int])
            } else {
                None
            }),
            self@.wf(),
    {
        proof {
            use_type_invariant(self);
        }
        if i < self.nodes.len() {
            Some(self.nodes[i])
        } else {
            None
        }
    }

    /// The primitive in slot `s`, or `None` where there is no such slot.
    pub fn primitive_at(&self, s: usize) -> (p: Option<usize>)
        ensures
            p == (if s < self@.len() {
                Some(self@.order[s as int])
            } else {
                None
            }),
            self@.wf(),
    {
        proof {
            use_type_invariant(self);
        }
        if s < self.order.len() {
            Some(self.order[s])
        } else {
            None
        }
    }

    /// The leaf that holds primitive `p`: the one leaf whose stretch has the
    /// primitive's slot. `None` where there is no such primitive.
    pub fn leaf_of(&self, p: usize) -> (leaf: Option<usize>)
        ensures
            self@.wf(),
            p >= self@.len() ==> leaf is None,
            p < self@.len() ==> leaf == Some(self@.leaf_of[p as int]) && self@.is_leaf(
                self@.leaf_of[p as int] as int,
            ) && self@.covers(self@.leaf_of[p as int] as int, self@.slot_of[p as int] as int),
    {
        proof {
            use_type_invariant(self);
        }
        if p < self.leaf_of.len() {
            Some(self.leaf_of[p])
        } else {
            None
        }
    }

    /// Walks the subtree below node `i` and adds what it reports to `out`.
    fn walk<F: Fn(&Aabb) -> bool>(
        &self,
        i: usize,
        hits: &F,
        out: &mut Vec<usize>,
        Ghost(hit): Ghost<BoxTest>,
    )
        requires
            self@.subtree_ok(i as int),
            answers_all(*hits),
            decides(*hits, hit),
        ensures
            final(out)@ == old(out)@ + self@.reaches(i as int, hit),
        decreases i,
    {
        let node: Node = self.nodes[i];
        assert(node == self@.nodes[i as int]);
        assert(node.first + node.count <= self.order.len());
        if !hits(&node.bounds) {
            return ;
        }
        match node.children {
            None => {
                let end: usize = node.first + node.count;
                let mut s: usize = node.first;
                while s < end
                    invariant
                        node.first <= s <= end <= self.order@.len(),
                        out@ == old(out)@ + self.order@.subrange(node.first as int, s as int),
                    decreases end - s,
                {
                    out.push(self.order[s]);
                    s = s + 1;
                }
            },
            Some((left, right)) => {
                self.walk(left, hits, out, Ghost(hit));
                self.walk(right, hits, out, Ghost(hit));
            },
        }
    }

    /// The primitives that a ray may meet, for a test on boxes that answers
    /// as `hit` says: those in the leaves that are reached from the root
    /// through boxes that the test accepts, in the order of their slots.
    /// The walk does not go below a box that the test rejects.
    pub fn traverse_as<F: Fn(&Aabb) -> bool>(&self, hits: F, Ghost(hit): Ghost<BoxTest>) -> (out:
        Vec<usize>)
        requires
            answers_all(hits),
            decides(hits, hit),
        ensures
            out@ == self@.candidates(hit),
            self@.wf(),
            // No false negatives: where the test grows with the box, every
            // primitive whose own box it accepts is reported.
            grows_with_box(hit) ==> forall|p: usize|
                p < self@.len() && hit(#[trigger] self@.boxes[p as int]) ==> out@.contains(p),
    {
        proof {
            use_type_invariant(self);
        }
        let mut out: Vec<usize> = Vec::new();
        if self.nodes.len() > 0 {
            self.walk(self.nodes.len() - 1, &hits, &mut out, Ghost(hit));
        }
        proof {
            if grows_with_box(hit) {
                assert forall|p: usize|
                    p < self@.len() && hit(#[trigger] self@.boxes[p as int]) implies out@.contains(
                    p,
                ) by {
                    self@.lemma_no_false_negatives(hit, p as int);
                }
            }
        }
        out
    }

    /// The primitives that a ray may meet: those in the leaves that are
    /// reached from the root through boxes that `hits` accepts, in the order
    /// of their slots. The walk does not go below a box that `hits` rejects.
    pub fn traverse<F: Fn(&Aabb) -> bool>(&self, hits: F) -> (out: Vec<usize>)
        requires
            answers_all(hits),
            definite(hits),
        ensures
            out@ == self@.candidates(accepts(hits)),
            self@.wf(),
            // No false negatives: where the test grows with the box, every
            // primitive whose own box it accepts is reported.
            grows_with_box(accepts(hits)) ==> forall|p: usize|
                p < self@.len() && !hits.ensures((&#[trigger] self@.boxes[p as int],), false)
                    ==> out@.contains(p),
    {
        self.traverse_as(hits, Ghost(accepts(hits)))
    }
}

} // verus!
