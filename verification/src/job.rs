//! Render jobs as the coordinator keeps them: what a job is, which of its
//! slices have come, and when it is complete.

use crate::frame::RenderMeta;
use crate::slices::{assemble, in_division_order, joined, views, ImageSlice, SliceView};
use vstd::prelude::*;

verus! {

/// A render job: what was fixed when the scene came in, and the slices that
/// workers have sent since, in the order of their arrival.
#[derive(Debug)]
pub struct Job {
    pub render_meta: RenderMeta,
    pub result: Vec<ImageSlice>,
}

/// A job as a mathematical value.
pub struct JobView {
    pub meta: RenderMeta,
    pub slices: Seq<SliceView>,
}

impl View for Job {
    type V = JobView;

    open spec fn view(&self) -> JobView {
        JobView { meta: self.render_meta, slices: views(self.result@) }
    }
}

/// What one division of a job is asked to render: the scene, the job's
/// frame, and the division's number.
#[derive(Debug)]
pub struct RenderInfo<W> {
    pub world: W,
    pub render_meta: RenderMeta,
    pub division_no: u32,
}

impl JobView {
    /// A job that has just come in.
    pub open spec fn fresh(meta: RenderMeta) -> JobView {
        JobView { meta, slices: Seq::empty() }
    }

    /// The job with one more slice.
    pub open spec fn with(&self, slice: SliceView) -> JobView {
        JobView { meta: self.meta, slices: self.slices.push(slice) }
    }

    /// Whether a slice of division `d` has come.
    pub open spec fn has(&self, d: u32) -> bool {
        exists|k: int| 0 <= k < self.slices.len() && #[trigger] self.slices[k].division_no == d
    }

    /// Of how many divisions below `d` a slice has come.
    pub open spec fn received_below(&self, d: nat) -> nat
        decreases d,
    {
        if d == 0 {
            0
        } else {
            self.received_below((d - 1) as nat) + if self.has((d - 1) as u32) {
                1nat
            } else {
                0nat
            }
        }
    }

    /// Of how many of the job's divisions a slice has come. Slices of one
    /// division count once, slices of a division that the job does not have
    /// not at all.
    pub open spec fn received(&self) -> nat {
        self.received_below(self.meta.divisions as nat)
    }

    /// Whether a slice of every division has come.
    pub open spec fn complete(&self) -> bool {
        forall|d: u32| d < self.meta.divisions ==> self.has(d)
    }

    /// The job's frame: the pixels of its slices in division order.
    pub open spec fn frame(&self) -> Seq<u8> {
        joined(in_division_order(self.slices))
    }

    /// No more divisions are counted than there are, and all are counted if
    /// and only if of each a slice has come.
    pub proof fn lemma_received_below(&self, d: nat)
        requires
            d <= u32::MAX,
        ensures
            self.received_below(d) <= d,
            self.received_below(d) == d <==> forall|e: u32| e < d ==> self.has(e),
        decreases d,
    {
        if d > 0 {
            self.lemma_received_below((d - 1) as nat);
            if self.received_below(d) == d {
                assert forall|e: u32| e < d implies self.has(e) by {
                    if e < d - 1 {
                    }
                }
            }
            if forall|e: u32| e < d ==> self.has(e) {
                assert(self.has((d - 1) as u32));
            }
        }
    }

    /// A job is complete if and only if as many divisions are counted as it
    /// has.
    pub proof fn lemma_complete_is_all_received(&self)
        ensures
            self.received() <= self.meta.divisions,
            self.complete() <==> self.received() == self.meta.divisions,
    {
        self.lemma_received_below(self.meta.divisions as nat);
    }

    /// One more slice takes none away: what had come has come still, and the
    /// new slice's division has come now.
    pub proof fn lemma_with_keeps(&self, slice: SliceView, d: u32)
        ensures
            self.has(d) ==> self.with(slice).has(d),
            self.with(slice).has(slice.division_no),
            self.with(slice).has(d) ==> self.has(d) || d == slice.division_no,
    {
        let more = self.with(slice);
        if self.has(d) {
            let k = choose|k: int|
                0 <= k < self.slices.len() && #[trigger] self.slices[k].division_no == d;
            assert(more.slices[k].division_no == d);
        }
        assert(more.slices[self.slices.len() as int].division_no == slice.division_no);
        if more.has(d) {
            let k = choose|k: int|
                0 <= k < more.slices.len() && #[trigger] more.slices[k].division_no == d;
            if k < self.slices.len() {
                assert(self.slices[k].division_no == d);
            }
        }
    }

    /// A slice of a division of the job of which none had come is counted;
    /// any other slice leaves the count as it was.
    pub proof fn lemma_received_grows(&self, slice: SliceView, d: nat)
        requires
            d <= u32::MAX + 1,
        ensures
            self.with(slice).received_below(d) == self.received_below(d) + if slice.division_no
                < d && !self.has(slice.division_no) {
                1nat
            } else {
                0nat
            },
        decreases d,
    {
        if d > 0 {
            self.lemma_received_grows(slice, (d - 1) as nat);
            self.lemma_with_keeps(slice, (d - 1) as u32);
        }
    }

    /// Where no two slices are of one division and each is of a division of
    /// the job, as many divisions are counted as slices have come.
    pub proof fn lemma_received_counts(&self)
        requires
            forall|i: int, j: int|
                0 <= i < j < self.slices.len() ==> self.slices[i].division_no
                    != self.slices[j].division_no,
            forall|i: int|
                0 <= i < self.slices.len() ==> (#[trigger] self.slices[i]).division_no
                    < self.meta.divisions,
        ensures
            self.received() == self.slices.len(),
        decreases self.slices.len(),
    {
        let d = self.meta.divisions as nat;
        if self.slices.len() == 0 {
            self.lemma_none_received(d);
        } else {
            let rest = JobView { meta: self.meta, slices: self.slices.drop_last() };
            let last = self.slices.last();
            assert(rest.with(last).slices =~= self.slices);
            rest.lemma_received_counts();
            rest.lemma_received_grows(last, d);
            if rest.has(last.division_no) {
                let k = choose|k: int|
                    0 <= k < rest.slices.len() && #[trigger] rest.slices[k].division_no
                        == last.division_no;
                assert(self.slices[k].division_no != self.slices[self.slices.len() - 1].division_no);
            }
        }
    }

    /// Of a job without slices no division has come.
    pub proof fn lemma_none_received(&self, d: nat)
        requires
            self.slices.len() == 0,
        ensures
            self.received_below(d) == 0,
        decreases d,
    {
        if d > 0 {
            self.lemma_none_received((d - 1) as nat);
        }
    }

    /// A job of `n` divisions of which each sent one slice of `len` bytes,
    /// in whatever order, has a frame of `n * len` bytes that holds the
    /// slice of division `d` from byte `d * len` on.
    pub proof fn lemma_frame_in_division_order(&self, len: nat, d: int) -> (k: int)
        requires
            self.slices.len() == self.meta.divisions,
            forall|i: int, j: int|
                0 <= i < j < self.slices.len() ==> self.slices[i].division_no
                    != self.slices[j].division_no,
            forall|i: int|
                0 <= i < self.slices.len() ==> (#[trigger] self.slices[i]).division_no
                    < self.meta.divisions && self.slices[i].image.len() == len,
            0 <= d < self.meta.divisions,
        ensures
            0 <= k < self.slices.len(),
            self.slices[k].division_no == d,
            self.frame().len() == self.meta.divisions * len,
            0 <= d * len,
            (d + 1) * len <= self.frame().len(),
            self.frame().subrange(d * len, (d + 1) * len) == self.slices[k].image,
    {
        let ordered = in_division_order(self.slices);
        crate::slices::lemma_one_slice_each(self.slices, d);
        let k = choose|k: int| 0 <= k < self.slices.len() && self.slices[k] == ordered[d];
        assert forall|i: int| 0 <= i < ordered.len() implies (#[trigger] ordered[i]).image.len()
            == len by {
            crate::slices::lemma_one_slice_each(self.slices, i);
        }
        crate::slices::lemma_joined_even(ordered, len, d);
        k
    }
}

impl Job {
    /// A job that has just come in: no slice yet.
    pub fn new(render_meta: RenderMeta) -> (job: Job)
        ensures
            job@ == JobView::fresh(render_meta),
    {
        let job = Job { render_meta, result: Vec::new() };
        assert(job@.slices =~= Seq::empty());
        job
    }

    /// Keeps one more slice, behind those that came before.
    pub fn push(&mut self, slice: ImageSlice)
        ensures
            final(self)@ == old(self)@.with(slice@),
    {
        self.result.push(slice);
        assert(self@.slices =~= old(self)@.slices.push(slice@));
    }

    /// Whether a slice of division `d` has come.
    pub fn has_division(&self, d: u32) -> (yes: bool)
        ensures
            yes == self@.has(d),
    {
        let mut k: usize = 0;
        while k < self.result.len()
            invariant
                k <= self.result@.len(),
                forall|m: int| 0 <= m < k ==> (#[trigger] self@.slices[m]).division_no != d,
            decreases self.result@.len() - k,
        {
            if self.result[k].division_no == d {
                assert(self@.slices[k as int].division_no == d);
                return true;
            }
            k = k + 1;
        }
        false
    }

    /// Of how many of the job's divisions a slice has come.
    pub fn received(&self) -> (n: u32)
        ensures
            n == self@.received(),
            n <= self.render_meta.divisions,
            n == self.render_meta.divisions <==> self@.complete(),
    {
        let mut n: u32 = 0;
        let mut d: u32 = 0;
        while d < self.render_meta.divisions
            invariant
                d <= self.render_meta.divisions,
                n == self@.received_below(d as nat),
                n <= d,
            decreases self.render_meta.divisions - d,
        {
            if self.has_division(d) {
                n = n + 1;
            }
            d = d + 1;
        }
        proof {
            self@.lemma_complete_is_all_received();
        }
        n
    }

    /// Whether a slice of every division has come.
    pub fn is_complete(&self) -> (yes: bool)
        ensures
            yes == self@.complete(),
    {
        self.received() == self.render_meta.divisions
    }

    /// The job's frame as far as it has come: the pixels of its slices in
    /// division order.
    pub fn frame(&self) -> (frame: Vec<u8>)
        ensures
            frame@ == self@.frame(),
    {
        assemble(&self.result)
    }
}

/// The requests that go out for a job, one to each division: all with the
/// job's frame and the scene, request `d` for division `d`.
pub fn requests<'a, W>(render_meta: RenderMeta, world: &'a W) -> (out: Vec<RenderInfo<&'a W>>)
    ensures
        out@.len() == render_meta.divisions,
        forall|d: int|
            0 <= d < out@.len() ==> (#[trigger] out@[d]).division_no == d && out@[d].render_meta
                == render_meta && out@[d].world == world,
{
    let mut out: Vec<RenderInfo<&'a W>> = Vec::new();
    let mut d: u32 = 0;
    while d < render_meta.divisions
        invariant
            d <= render_meta.divisions,
            out@.len() == d,
            forall|e: int|
                0 <= e < out@.len() ==> (#[trigger] out@[e]).division_no == e && out@[e].render_meta
                    == render_meta && out@[e].world == world,
        decreases render_meta.divisions - d,
    {
        out.push(RenderInfo { world, render_meta, division_no: d });
        d = d + 1;
    }
    out
}

} // verus!
