//! Slices: the pixels of one division of one job, as workers send them in,
//! and how the slices of a job are put together to one frame.
//!
//! Slices arrive in any order. The frame has them in division order; slices
//! of one division, should there be several, stay in the order in which they
//! arrived.

use vstd::prelude::*;

verus! {

/// The pixels that a worker rendered for one division of one job.
#[derive(Debug)]
pub struct ImageSlice {
    pub division_no: u32,
    pub image: Vec<u8>,
    pub id: u128,
}

/// A slice as a mathematical value.
pub struct SliceView {
    pub division_no: u32,
    pub image: Seq<u8>,
    pub id: u128,
}

impl View for ImageSlice {
    type V = SliceView;

    open spec fn view(&self) -> SliceView {
        SliceView { division_no: self.division_no, image: self.image@, id: self.id }
    }
}

/// The slices of a vector as mathematical values.
pub open spec fn views(slices: Seq<ImageSlice>) -> Seq<SliceView> {
    Seq::new(slices.len(), |k: int| slices[k]@)
}

/// `sorted` with `x` put in behind the last slice whose division is not
/// greater than that of `x`.
pub open spec fn put_in(sorted: Seq<SliceView>, x: SliceView) -> Seq<SliceView>
    decreases sorted.len(),
{
    if sorted.len() == 0 || sorted.last().division_no <= x.division_no {
        sorted.push(x)
    } else {
        put_in(sorted.drop_last(), x).push(sorted.last())
    }
}

/// The slices in division order, those of one division in the order of
/// their arrival.
pub open spec fn in_division_order(slices: Seq<SliceView>) -> Seq<SliceView>
    decreases slices.len(),
{
    if slices.len() == 0 {
        slices
    } else {
        put_in(in_division_order(slices.drop_last()), slices.last())
    }
}

/// The pixels of all the slices, one slice after the other.
pub open spec fn joined(slices: Seq<SliceView>) -> Seq<u8>
    decreases slices.len(),
{
    if slices.len() == 0 {
        Seq::empty()
    } else {
        joined(slices.drop_last()) + slices.last().image
    }
}

/// Whether no slice comes before one of a lesser division.
pub open spec fn ascending(slices: Seq<SliceView>) -> bool {
    forall|j: int, k: int|
        0 <= j < k < slices.len() ==> slices[j].division_no <= slices[k].division_no
}

/// Whether no two slices are of one division.
pub open spec fn one_per_division(slices: Seq<SliceView>) -> bool {
    forall|j: int, k: int|
        0 <= j < k < slices.len() ==> slices[j].division_no != slices[k].division_no
}

/// The slices that `at` picks from `slices`, in the order of `at`.
pub open spec fn picked(slices: Seq<SliceView>, at: Seq<int>) -> Seq<SliceView> {
    Seq::new(at.len(), |k: int| slices[at[k]])
}

/// Putting a slice in puts it at the place `j` behind which all divisions
/// are greater and before which the next one is not.
pub proof fn lemma_put_in_at(sorted: Seq<SliceView>, x: SliceView, j: int)
    requires
        0 <= j <= sorted.len(),
        forall|k: int| j <= k < sorted.len() ==> sorted[k].division_no > x.division_no,
        j > 0 ==> sorted[j - 1].division_no <= x.division_no,
    ensures
        put_in(sorted, x) == sorted.insert(j, x),
    decreases sorted.len() - j,
{
    if j == sorted.len() {
        assert(sorted.push(x) =~= sorted.insert(j, x));
    } else {
        lemma_put_in_at(sorted.drop_last(), x, j);
        assert(sorted.drop_last().insert(j, x).push(sorted.last()) =~= sorted.insert(j, x));
    }
}

/// What is put in finds its place: there is one as `lemma_put_in_at` asks
/// for it.
pub proof fn lemma_place_exists(sorted: Seq<SliceView>, x: SliceView) -> (j: int)
    ensures
        0 <= j <= sorted.len(),
        forall|k: int| j <= k < sorted.len() ==> sorted[k].division_no > x.division_no,
        j > 0 ==> sorted[j - 1].division_no <= x.division_no,
        put_in(sorted, x) == sorted.insert(j, x),
    decreases sorted.len(),
{
    if sorted.len() == 0 || sorted.last().division_no <= x.division_no {
        let j = sorted.len() as int;
        lemma_put_in_at(sorted, x, j);
        j
    } else {
        let rest = sorted.drop_last();
        let j = lemma_place_exists(rest, x);
        assert forall|k: int| j <= k < sorted.len() implies sorted[k].division_no
            > x.division_no by {
            if k < rest.len() {
                assert(rest[k] == sorted[k]);
            }
        }
        if j > 0 {
            assert(rest[j - 1] == sorted[j - 1]);
        }
        lemma_put_in_at(sorted, x, j);
        j
    }
}

/// Division order is ascending, and has as many slices as came.
pub proof fn lemma_order_ascends(slices: Seq<SliceView>)
    ensures
        ascending(in_division_order(slices)),
        in_division_order(slices).len() == slices.len(),
    decreases slices.len(),
{
    if slices.len() > 0 {
        let before = in_division_order(slices.drop_last());
        lemma_order_ascends(slices.drop_last());
        let j = lemma_place_exists(before, slices.last());
        let after = before.insert(j, slices.last());
        assert forall|a: int, b: int| 0 <= a < b < after.len() implies after[a].division_no
            <= after[b].division_no by {
            if a < j && b > j {
                assert(before[a].division_no <= before[j - 1].division_no);
            }
        }
    }
}

/// Division order has the slices that came, each as often as it came: it
/// is the slices in another order. `at` says for each place which slice
/// stands there; slices of one division keep the order of their arrival.
pub proof fn lemma_order_permutes(slices: Seq<SliceView>) -> (at: Seq<int>)
    ensures
        at.len() == slices.len(),
        forall|k: int| 0 <= k < at.len() ==> 0 <= #[trigger] at[k] < slices.len(),
        at.no_duplicates(),
        picked(slices, at) == in_division_order(slices),
        forall|j: int, k: int|
            0 <= j < k < at.len() && slices[at[j]].division_no == slices[at[k]].division_no
                ==> at[j] < at[k],
    decreases slices.len(),
{
    if slices.len() == 0 {
        let at = Seq::<int>::empty();
        assert(picked(slices, at) =~= in_division_order(slices));
        at
    } else {
        let rest = slices.drop_last();
        let before = lemma_order_permutes(rest);
        let last = slices.len() - 1;
        let ordered = in_division_order(rest);
        lemma_order_ascends(rest);
        let j = lemma_place_exists(ordered, slices.last());
        let at = before.insert(j, last);
        assert forall|k: int| 0 <= k < before.len() implies ordered[k]
            == slices[#[trigger] before[k]] by {
            assert(picked(rest, before)[k] == rest[before[k]]);
        }
        assert forall|k: int| 0 <= k < at.len() implies (#[trigger] picked(slices, at)[k])
            == ordered.insert(j, slices.last())[k] by {
            if k < j {
                assert(at[k] == before[k]);
            } else if k > j {
                assert(at[k] == before[k - 1]);
            }
        }
        assert(picked(slices, at) =~= in_division_order(slices));
        assert forall|a: int, b: int| 0 <= a < b < at.len() && slices[at[a]].division_no
            == slices[at[b]].division_no implies at[a] < at[b] by {
            if b == j {
                assert(at[a] == before[a]);
            } else if a == j {
                assert(at[b] == before[b - 1]);
                assert(ordered[b - 1].division_no > slices.last().division_no);
            } else {
                let a0 = if a < j {
                    a
                } else {
                    a - 1
                };
                let b0 = if b < j {
                    b
                } else {
                    b - 1
                };
                assert(at[a] == before[a0] && at[b] == before[b0]);
                assert(before[a0] < before[b0]);
            }
        }
        assert forall|a: int, b: int| 0 <= a < at.len() && 0 <= b < at.len() && a != b implies at[a]
            != at[b] by {
            let a0 = if a < j {
                a
            } else {
                a - 1
            };
            let b0 = if b < j {
                b
            } else {
                b - 1
            };
            if a != j && b != j {
                assert(at[a] == before[a0] && at[b] == before[b0]);
            } else if a == j {
                assert(at[b] == before[b0]);
            } else {
                assert(at[a] == before[a0]);
            }
        }
        at
    }
}

/// Ascending numbers below `n`, no two alike and `n` of them, are the numbers
/// from nought on: each stands at the place of its own value.
proof fn lemma_counted_out(slices: Seq<SliceView>, k: int)
    requires
        ascending(slices),
        one_per_division(slices),
        forall|i: int| 0 <= i < slices.len() ==> (#[trigger] slices[i]).division_no < slices.len(),
        0 <= k < slices.len(),
    ensures
        slices[k].division_no == k,
{
    // From below: each division is greater than the one before.
    lemma_at_least(slices, k);
    // From above: each division is less than the one behind.
    lemma_at_most(slices, k);
}

proof fn lemma_at_least(slices: Seq<SliceView>, k: int)
    requires
        ascending(slices),
        one_per_division(slices),
        0 <= k < slices.len(),
    ensures
        slices[k].division_no >= k,
    decreases k,
{
    if k > 0 {
        lemma_at_least(slices, k - 1);
        assert(slices[k - 1].division_no <= slices[k].division_no);
        assert(slices[k - 1].division_no != slices[k].division_no);
    }
}

proof fn lemma_at_most(slices: Seq<SliceView>, k: int)
    requires
        ascending(slices),
        one_per_division(slices),
        forall|i: int| 0 <= i < slices.len() ==> (#[trigger] slices[i]).division_no < slices.len(),
        0 <= k < slices.len(),
    ensures
        slices[k].division_no <= k,
    decreases slices.len() - k,
{
    if k < slices.len() - 1 {
        lemma_at_most(slices, k + 1);
        assert(slices[k].division_no <= slices[k + 1].division_no);
        assert(slices[k].division_no != slices[k + 1].division_no);
    }
}

/// Where each division below `slices.len()` sent one slice and nothing else
/// came, division order has the slice of division `d` at place `d`, whatever
/// the order of arrival.
pub proof fn lemma_one_slice_each(slices: Seq<SliceView>, d: int)
    requires
        one_per_division(slices),
        forall|i: int| 0 <= i < slices.len() ==> (#[trigger] slices[i]).division_no < slices.len(),
        0 <= d < slices.len(),
    ensures
        in_division_order(slices).len() == slices.len(),
        in_division_order(slices)[d].division_no == d,
        exists|k: int| 0 <= k < slices.len() && slices[k] == in_division_order(slices)[d],
{
    let ordered = in_division_order(slices);
    lemma_order_ascends(slices);
    let at = lemma_order_permutes(slices);
    assert forall|j: int, k: int| 0 <= j < k < ordered.len() implies ordered[j].division_no
        != ordered[k].division_no by {
        assert(picked(slices, at)[j] == slices[at[j]]);
        assert(picked(slices, at)[k] == slices[at[k]]);
        assert(at[j] != at[k]);
        if at[j] < at[k] {
            assert(slices[at[j]].division_no != slices[at[k]].division_no);
        } else {
            assert(slices[at[k]].division_no != slices[at[j]].division_no);
        }
    }
    assert forall|i: int| 0 <= i < ordered.len() implies (#[trigger] ordered[i]).division_no
        < ordered.len() by {
        assert(picked(slices, at)[i] == slices[at[i]]);
    }
    lemma_counted_out(ordered, d);
    assert(picked(slices, at)[d] == slices[at[d]]);
}

/// Joined slices are as long as the slices together.
pub proof fn lemma_joined_len(slices: Seq<SliceView>, len: nat)
    requires
        forall|i: int| 0 <= i < slices.len() ==> (#[trigger] slices[i]).image.len() == len,
    ensures
        joined(slices).len() == slices.len() * len,
    decreases slices.len(),
{
    if slices.len() > 0 {
        let rest = slices.drop_last();
        assert forall|i: int| 0 <= i < rest.len() implies (#[trigger] rest[i]).image.len()
            == len by {
            assert(rest[i] == slices[i]);
        }
        lemma_joined_len(rest, len);
        assert((slices.len() - 1) * len + len == slices.len() * len) by (nonlinear_arith);
    }
}

/// Where each slice is `len` long, slice `k` fills the bytes of the joined
/// slices from `k * len` on.
pub proof fn lemma_joined_even(slices: Seq<SliceView>, len: nat, k: int)
    requires
        forall|i: int| 0 <= i < slices.len() ==> (#[trigger] slices[i]).image.len() == len,
        0 <= k < slices.len(),
    ensures
        joined(slices).len() == slices.len() * len,
        0 <= k * len,
        (k + 1) * len <= joined(slices).len(),
        joined(slices).subrange(k * len, (k + 1) * len) == slices[k].image,
    decreases slices.len(),
{
    let rest = slices.drop_last();
    let n = slices.len() as int;
    lemma_joined_len(slices, len);
    assert forall|i: int| 0 <= i < rest.len() implies (#[trigger] rest[i]).image.len() == len by {
        assert(rest[i] == slices[i]);
    }
    lemma_joined_len(rest, len);
    assert((n - 1) * len + len == n * len && 0 <= k * len && (k + 1) * len <= n * len && k * len
        + len == (k + 1) * len) by (nonlinear_arith)
        requires
            0 <= k < n,
            0 <= len,
    ;
    if k < n - 1 {
        lemma_joined_even(rest, len, k);
        assert(joined(slices).subrange(k * len, (k + 1) * len) =~= joined(rest).subrange(
            k * len,
            (k + 1) * len,
        ));
        assert(rest[k] == slices[k]);
    } else {
        assert(joined(slices).subrange(k * len, (k + 1) * len) =~= slices[k].image);
    }
}

/// The slices that `at` picks from `slices`, in the order of `at`.
pub open spec fn picked_by(slices: Seq<SliceView>, at: Seq<usize>) -> Seq<SliceView> {
    Seq::new(at.len(), |k: int| slices[at[k] as int])
}

/// For each place of division order, where in `slices` its slice stands.
pub fn division_order(slices: &Vec<ImageSlice>) -> (at: Vec<usize>)
    ensures
        at@.len() == slices@.len(),
        forall|k: int| 0 <= k < at@.len() ==> (#[trigger] at@[k]) < slices@.len(),
        picked_by(views(slices@), at@) == in_division_order(views(slices@)),
{
    let ghost all = views(slices@);
    let mut at: Vec<usize> = Vec::new();
    let mut i: usize = 0;
    assert(picked_by(all, at@) =~= in_division_order(all.take(0)));
    while i < slices.len()
        invariant
            i <= slices@.len(),
            all == views(slices@),
            at@.len() == i,
            forall|k: int| 0 <= k < at@.len() ==> (#[trigger] at@[k]) < i,
            picked_by(all, at@) == in_division_order(all.take(i as int)),
        decreases slices@.len() - i,
    {
        let ghost ordered = picked_by(all, at@);
        let division: u32 = slices[i].division_no;
        let mut j: usize = at.len();
        while j > 0 && slices[at[j - 1]].division_no > division
            invariant
                j <= at@.len(),
                at@.len() == i,
                i < slices@.len(),
                all == views(slices@),
                ordered == picked_by(all, at@),
                division == all[i as int].division_no,
                forall|k: int| 0 <= k < at@.len() ==> (#[trigger] at@[k]) < i,
                forall|k: int| j <= k < ordered.len() ==> ordered[k].division_no > division,
            decreases j,
        {
            assert(ordered[j - 1] == all[at@[j - 1] as int]);
            j = j - 1;
        }
        proof {
            if j > 0 {
                assert(ordered[j - 1] == all[at@[j - 1] as int]);
            }
            lemma_put_in_at(ordered, all[i as int], j as int);
            assert(all.take(i + 1).drop_last() =~= all.take(i as int));
            assert(all.take(i + 1).last() == all[i as int]);
        }
        at.insert(j, i);
        assert(picked_by(all, at@) =~= ordered.insert(j as int, all[i as int]));
        i = i + 1;
    }
    assert(all.take(slices@.len() as int) =~= all);
    at
}

/// The frame that the slices make: their pixels in division order.
pub fn assemble(slices: &Vec<ImageSlice>) -> (frame: Vec<u8>)
    ensures
        frame@ == joined(in_division_order(views(slices@))),
{
    let at = division_order(slices);
    let ghost ordered = in_division_order(views(slices@));
    let mut frame: Vec<u8> = Vec::new();
    let mut k: usize = 0;
    while k < at.len()
        invariant
            k <= at@.len(),
            at@.len() == slices@.len(),
            forall|m: int| 0 <= m < at@.len() ==> (#[trigger] at@[m]) < slices@.len(),
            ordered == picked_by(views(slices@), at@),
            frame@ == joined(ordered.take(k as int)),
        decreases at@.len() - k,
    {
        let image = &slices[at[k]].image;
        let ghost before = frame@;
        let mut b: usize = 0;
        while b < image.len()
            invariant
                b <= image@.len(),
                frame@ == before + image@.take(b as int),
            decreases image@.len() - b,
        {
            frame.push(image[b]);
            assert(image@.take(b + 1) =~= image@.take(b as int).push(image@[b as int]));
            b = b + 1;
        }
        proof {
            assert(image@.take(image@.len() as int) =~= image@);
            assert(ordered.take(k + 1).drop_last() =~= ordered.take(k as int));
            assert(ordered.take(k + 1).last().image == image@);
        }
        k = k + 1;
    }
    assert(ordered.take(at@.len() as int) =~= ordered);
    frame
}

} // verus!
