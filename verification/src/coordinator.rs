//! The coordinator's table of jobs and what each of its three requests does
//! to it: a scene comes in and a job is opened; a slice comes in and is kept
//! with its job; a client polls and gets the frame once, when it is
//! complete.
//!
//! No two jobs of the table have one id. A job leaves the table when its
//! frame is handed out, and in no other way.

use crate::encode::{encodable, encode_jpeg, jpeg_bytes};
use crate::frame::RenderMeta;
use crate::id::{
    has_id_length, hyphenated, is_random_id, mint_id, parse_id, parsed_id, print_id,
};
use crate::job::{Job, JobView};
use crate::slices::ImageSlice;
use crate::text::{decimal, push_decimal};
use vstd::prelude::*;
use vstd::string::StringExecFns;

verus! {

/// The quality at which frames are encoded.
pub const JPEG_QUALITY: u8 = 90;

/// The jobs that are under way.
pub struct JobTable {
    jobs: Vec<Job>,
}

/// What a poll is answered with.
#[derive(Debug)]
pub enum PollReply {
    /// The request does not name an id.
    InvalidId,
    /// No job of the table has the id.
    NoSuchJob,
    /// The job lacks slices: of `received` of its `divisions` one has come.
    NotFinished { received: u32, divisions: u32 },
    /// The job was complete: its frame, encoded. The job has left the table.
    Image(Vec<u8>),
}

/// Why a poll could not be answered.
#[derive(Clone, Copy, Debug, PartialEq, Eq, Structural)]
pub enum PollError {
    /// The job is complete, and its slices do not make a frame that the
    /// encoder takes. The job stays in the table.
    Unencodable,
}

/// The outcome of a poll as a mathematical value.
pub enum Outcome {
    InvalidId,
    NoSuchJob,
    NotFinished { received: nat, divisions: nat },
    Image(Seq<u8>),
    Unencodable,
}

/// The outcome that an answer stands for.
pub open spec fn outcome_of(answer: Result<PollReply, PollError>) -> Outcome {
    match answer {
        Ok(PollReply::InvalidId) => Outcome::InvalidId,
        Ok(PollReply::NoSuchJob) => Outcome::NoSuchJob,
        Ok(PollReply::NotFinished { received, divisions }) => Outcome::NotFinished {
            received: received as nat,
            divisions: divisions as nat,
        },
        Ok(PollReply::Image(file)) => Outcome::Image(file@),
        Err(PollError::Unencodable) => Outcome::Unencodable,
    }
}

/// Whether no two jobs have one id.
pub open spec fn distinct_ids(jobs: Seq<JobView>) -> bool {
    forall|i: int, j: int|
        0 <= i < j < jobs.len() ==> (#[trigger] jobs[i]).meta.id != (#[trigger] jobs[j]).meta.id
}

/// Whether a job has the id.
pub open spec fn holds(jobs: Seq<JobView>, id: u128) -> bool {
    exists|i: int| 0 <= i < jobs.len() && (#[trigger] jobs[i]).meta.id == id
}

/// Whether no job has an id with the marks of a random id: such a table has
/// room for every id that is minted.
pub open spec fn holds_no_random_id(jobs: Seq<JobView>) -> bool {
    forall|i: int| 0 <= i < jobs.len() ==> !is_random_id((#[trigger] jobs[i]).meta.id)
}

/// Where the job with the id stands.
pub open spec fn place_of(jobs: Seq<JobView>, id: u128) -> int {
    choose|i: int| 0 <= i < jobs.len() && (#[trigger] jobs[i]).meta.id == id
}

/// The job with the id.
pub open spec fn job_of(jobs: Seq<JobView>, id: u128) -> JobView {
    jobs[place_of(jobs, id)]
}

/// The jobs after a slice came in: the job that it names has it behind
/// its other slices; where no job has its id, nothing has changed.
pub open spec fn with_slice(jobs: Seq<JobView>, slice: crate::slices::SliceView) -> Seq<JobView> {
    Seq::new(
        jobs.len(),
        |i: int|
            if jobs[i].meta.id == slice.id {
                jobs[i].with(slice)
            } else {
                jobs[i]
            },
    )
}

/// The jobs without the one that has the id.
pub open spec fn without(jobs: Seq<JobView>, id: u128) -> Seq<JobView> {
    if holds(jobs, id) {
        jobs.remove(place_of(jobs, id))
    } else {
        jobs
    }
}

/// What a poll for the id that was read from the request comes to.
pub open spec fn poll_outcome(jobs: Seq<JobView>, parsed: Option<u128>) -> Outcome {
    match parsed {
        None => Outcome::InvalidId,
        Some(id) => if !holds(jobs, id) {
            Outcome::NoSuchJob
        } else {
            let job = job_of(jobs, id);
            if !job.complete() {
                Outcome::NotFinished {
                    received: job.received(),
                    divisions: job.meta.divisions as nat,
                }
            } else {
                match jpeg_bytes(job.meta.width, job.meta.height, job.frame(), JPEG_QUALITY) {
                    Some(file) => Outcome::Image(file),
                    None => Outcome::Unencodable,
                }
            }
        },
    }
}

/// Whether the slices of a job make a frame that the encoder takes: for every
/// pixel of the job's frame three bytes at least, and neither side of the
/// frame longer than a JPEG file can say.
pub open spec fn frame_is_encodable(job: JobView) -> bool {
    encodable(job.meta.width, job.meta.height, job.frame().len())
}

/// The jobs after a poll: the polled job has left if its frame was handed
/// out, and nothing has changed otherwise.
pub open spec fn after_poll(jobs: Seq<JobView>, parsed: Option<u128>) -> Seq<JobView> {
    match parsed {
        Some(id) => if poll_outcome(jobs, parsed) is Image {
            without(jobs, id)
        } else {
            jobs
        },
        None => jobs,
    }
}

/// The status line for an outcome that is no frame.
pub open spec fn status_text(outcome: Outcome) -> Seq<char> {
    match outcome {
        Outcome::InvalidId => "invalid id"@,
        Outcome::NoSuchJob => "no such job"@,
        Outcome::NotFinished { received, divisions } => "not finished ("@ + decimal(received)
            + "/"@ + decimal(divisions) + ")"@,
        Outcome::Image(_) => Seq::empty(),
        Outcome::Unencodable => Seq::empty(),
    }
}

impl PollReply {
    /// The status line of an answer that is no frame: `invalid id`,
    /// `no such job`, or `not finished (k/D)` with the numbers in decimal
    /// digits. `None` for a frame.
    pub fn status(&self) -> (text: Option<String>)
        ensures
            self is Image <==> text is None,
            text matches Some(line) ==> line@ == status_text(outcome_of(Ok(*self))),
    {
        match self {
            PollReply::InvalidId => Some(String::from_str("invalid id")),
            PollReply::NoSuchJob => Some(String::from_str("no such job")),
            PollReply::NotFinished { received, divisions } => {
                let mut line = String::from_str("not finished (");
                push_decimal(&mut line, *received);
                line.append("/");
                push_decimal(&mut line, *divisions);
                line.append(")");
                Some(line)
            },
            PollReply::Image(_) => None,
        }
    }
}

/// The jobs of a vector as mathematical values.
pub open spec fn job_views(jobs: Seq<Job>) -> Seq<JobView> {
    Seq::new(jobs.len(), |i: int| jobs[i]@)
}

impl View for JobTable {
    type V = Seq<JobView>;

    closed spec fn view(&self) -> Seq<JobView> {
        job_views(self.jobs@)
    }
}

impl JobTable {
    #[verifier::type_invariant]
    closed spec fn whole(&self) -> bool {
        distinct_ids(self@)
    }

    /// Takes the jobs out of the table, to put them back changed.
    fn take(&mut self) -> (jobs: Vec<Job>)
        ensures
            job_views(jobs@) == old(self)@,
            distinct_ids(old(self)@),
    {
        proof {
            use_type_invariant(&*self);
        }
        let mut taken = JobTable { jobs: Vec::new() };
        std::mem::swap(self, &mut taken);
        let JobTable { jobs } = taken;
        jobs
    }

    /// Puts jobs into the table, in place of those that it has.
    fn put(&mut self, jobs: Vec<Job>)
        requires
            distinct_ids(job_views(jobs@)),
        ensures
            final(self)@ == job_views(jobs@),
    {
        *self = JobTable { jobs };
    }

    /// A table without jobs.
    pub fn new() -> (table: JobTable)
        ensures
            table@ == Seq::<JobView>::empty(),
    {
        let table = JobTable { jobs: Vec::new() };
        assert(table@ =~= Seq::<JobView>::empty());
        table
    }

    /// The number of jobs under way.
    pub fn len(&self) -> (n: usize)
        ensures
            n == self@.len(),
            distinct_ids(self@),
    {
        proof {
            use_type_invariant(self);
        }
        self.jobs.len()
    }

    /// Where the job with the id stands, if there is one.
    pub fn find(&self, id: u128) -> (at: Option<usize>)
        ensures
            distinct_ids(self@),
            at is Some <==> holds(self@, id),
            at matches Some(i) ==> i == place_of(self@, id) && i < self@.len(),
    {
        proof {
            use_type_invariant(self);
        }
        let mut i: usize = 0;
        while i < self.jobs.len()
            invariant
                i <= self.jobs@.len(),
                distinct_ids(self@),
                forall|j: int| 0 <= j < i ==> (#[trigger] self@[j]).meta.id != id,
            decreases self.jobs@.len() - i,
        {
            if self.jobs[i].render_meta.id == id {
                proof {
                    assert(self@[i as int].meta.id == id);
                    lemma_one_place(self@, id, i as int);
                }
                return Some(i);
            }
            i = i + 1;
        }
        None
    }

    /// Opens a job for the frame that `meta` describes, if no job has its
    /// id yet, and says whether it did.
    pub fn open(&mut self, meta: RenderMeta) -> (opened: bool)
        ensures
            opened == !holds(old(self)@, meta.id),
            opened ==> final(self)@ == old(self)@.push(JobView::fresh(meta)),
            !opened ==> final(self)@ == old(self)@,
            distinct_ids(final(self)@),
    {
        match self.find(meta.id) {
            Some(_) => false,
            None => {
                let mut jobs = self.take();
                jobs.push(Job::new(meta));
                proof {
                    assert(job_views(jobs@) =~= old(self)@.push(JobView::fresh(meta)));
                    lemma_opened_job_waits(old(self)@, meta, meta.id);
                }
                self.put(jobs);
                true
            },
        }
    }

    /// Takes in a scene for a frame of `width` by `height` pixels in
    /// `divisions` divisions: mints an id and opens the job behind the jobs
    /// that are under way. The job's frame is the answer. There is none, and
    /// no job, only where the minted id is the id of a job under way: a
    /// table that holds no random id, the empty one first of all, always
    /// opens the job.
    pub fn submit(&mut self, width: u32, height: u32, divisions: u32) -> (opened: Option<
        RenderMeta,
    >)
        ensures
            distinct_ids(final(self)@),
            match opened {
                Some(meta) => {
                    &&& meta.width == width
                    &&& meta.height == height
                    &&& meta.divisions == divisions
                    &&& is_random_id(meta.id)
                    &&& !holds(old(self)@, meta.id)
                    &&& final(self)@ == old(self)@.push(JobView::fresh(meta))
                },
                None => final(self)@ == old(self)@,
            },
            opened is None ==> exists|id: u128| is_random_id(id) && #[trigger] holds(old(self)@, id),
            holds_no_random_id(old(self)@) ==> opened is Some,
            old(self)@.len() == 0 ==> opened is Some,
    {
        let meta = RenderMeta { height, width, divisions, id: mint_id() };
        if self.open(meta) {
            Some(meta)
        } else {
            assert(is_random_id(meta.id) && holds(old(self)@, meta.id));
            None
        }
    }

    /// Takes in a slice: keeps it with the job that it names, behind the
    /// slices that came before, whatever its division; drops it where no
    /// job has its id. Says whether it was kept.
    pub fn record(&mut self, slice: ImageSlice) -> (kept: bool)
        ensures
            kept == holds(old(self)@, slice.id),
            final(self)@ == with_slice(old(self)@, slice@),
            distinct_ids(final(self)@),
    {
        match self.find(slice.id) {
            None => {
                assert(self@ =~= with_slice(self@, slice@));
                false
            },
            Some(at) => {
                let ghost before = self@;
                let ghost slice_view = slice@;
                let mut jobs = self.take();
                let mut job = jobs.remove(at);
                job.push(slice);
                jobs.insert(at, job);
                proof {
                    assert forall|i: int| 0 <= i < before.len() implies (#[trigger] job_views(
                        jobs@,
                    )[i]) == with_slice(before, slice_view)[i] by {
                        if i != at {
                            if i < at {
                                assert(before[i].meta.id != before[at as int].meta.id);
                            } else {
                                assert(before[at as int].meta.id != before[i].meta.id);
                            }
                        }
                    }
                    assert(job_views(jobs@) =~= with_slice(before, slice_view));
                    lemma_slice_goes_to_its_job(before, slice_view, slice_view.id);
                }
                self.put(jobs);
                true
            },
        }
    }

    /// What a poll would show of the job with the id, without a change to
    /// the table: how many of its divisions have come, and how many it has.
    pub fn progress(&self, id: u128) -> (seen: Option<(u32, u32)>)
        ensures
            seen is Some <==> holds(self@, id),
            seen matches Some((received, divisions)) ==> received == job_of(self@, id).received()
                && divisions == job_of(self@, id).meta.divisions,
    {
        match self.find(id) {
            None => None,
            Some(at) => {
                let job = &self.jobs[at];
                assert(job@ == self@[at as int]);
                Some((job.received(), job.render_meta.divisions))
            },
        }
    }

    /// Ends a poll for a complete job with what the encoder made of its
    /// frame: with a file, the job leaves the table and the file is the
    /// answer; without one, the job stays.
    pub fn settle(&mut self, id: u128, file: Option<Vec<u8>>) -> (answer: Result<
        PollReply,
        PollError,
    >)
        ensures
            distinct_ids(final(self)@),
            match file {
                Some(bytes) => answer == Ok::<PollReply, PollError>(PollReply::Image(bytes))
                    && final(self)@ == without(old(self)@, id),
                None => final(self)@ == old(self)@ && answer == Err::<PollReply, PollError>(
                    PollError::Unencodable,
                ),
            },
    {
        proof {
            use_type_invariant(&*self);
        }
        match file {
            None => Err(PollError::Unencodable),
            Some(bytes) => {
                match self.find(id) {
                    None => {},
                    Some(at) => {
                        let ghost before = self@;
                        let mut jobs = self.take();
                        let _gone = jobs.remove(at);
                        proof {
                            assert(job_views(jobs@) =~= before.remove(at as int));
                            lemma_removal_keeps_distinct(before, at as int);
                        }
                        self.put(jobs);
                    },
                }
                proof {
                    use_type_invariant(&*self);
                }
                Ok(PollReply::Image(bytes))
            },
        }
    }

    /// Answers a poll for the job with the id. A job that lacks slices is
    /// answered with its count. A complete job has its frame put together in
    /// division order and encoded for its width and height; it leaves the
    /// table with the answer, so that the next poll finds no such job.
    pub fn poll_job(&mut self, id: u128) -> (answer: Result<PollReply, PollError>)
        ensures
            outcome_of(answer) == poll_outcome(old(self)@, Some(id)),
            final(self)@ == after_poll(old(self)@, Some(id)),
            distinct_ids(final(self)@),
            // A complete job gets its frame if and only if its slices make
            // a frame that the encoder takes.
            holds(old(self)@, id) && job_of(old(self)@, id).complete() ==> (answer is Ok
                <==> frame_is_encodable(job_of(old(self)@, id))),
    {
        let at = match self.find(id) {
            None => {
                return Ok(PollReply::NoSuchJob);
            },
            Some(at) => at,
        };
        let job = &self.jobs[at];
        assert(job@ == job_of(self@, id));
        let received = job.received();
        let divisions = job.render_meta.divisions;
        if received != divisions {
            return Ok(PollReply::NotFinished { received, divisions });
        }
        let file = encode_jpeg(
            job.render_meta.width,
            job.render_meta.height,
            job.frame(),
            JPEG_QUALITY,
        );
        self.settle(id, file)
    }

    /// Answers a poll for what was read from the request: no id, or the id
    /// of a job to poll.
    pub fn poll_parsed(&mut self, parsed: Option<u128>) -> (answer: Result<PollReply, PollError>)
        ensures
            outcome_of(answer) == poll_outcome(old(self)@, parsed),
            final(self)@ == after_poll(old(self)@, parsed),
            distinct_ids(final(self)@),
            parsed is Some && holds(old(self)@, parsed->0) && job_of(
                old(self)@,
                parsed->0,
            ).complete() ==> (answer is Ok <==> frame_is_encodable(
                job_of(old(self)@, parsed->0),
            )),
    {
        match parsed {
            None => {
                proof {
                    use_type_invariant(&*self);
                }
                Ok(PollReply::InvalidId)
            },
            Some(id) => self.poll_job(id),
        }
    }

    /// Answers a poll: reads the id from the request and polls for it. A
    /// request that is the hyphenated form of an id is a poll for that id.
    pub fn poll(&mut self, req: &str) -> (answer: Result<PollReply, PollError>)
        ensures
            outcome_of(answer) == poll_outcome(old(self)@, parsed_id(req@)),
            final(self)@ == after_poll(old(self)@, parsed_id(req@)),
            forall|id: u128|
                req@ == #[trigger] hyphenated(id) ==> outcome_of(answer) == poll_outcome(
                    old(self)@,
                    Some(id),
                ) && final(self)@ == after_poll(old(self)@, Some(id)),
            // A request of another length than an id's forms have names no id.
            !has_id_length(req@) ==> outcome_of(answer) == Outcome::InvalidId && final(self)@
                == old(self)@,
            // A complete job that is asked for by its id gets its frame if
            // and only if its slices make a frame that the encoder takes.
            forall|id: u128|
                req@ == #[trigger] hyphenated(id) && holds(old(self)@, id) && job_of(
                    old(self)@,
                    id,
                ).complete() ==> (answer is Ok <==> frame_is_encodable(job_of(old(self)@, id))),
            distinct_ids(final(self)@),
    {
        let parsed = parse_id(req);
        self.poll_parsed(parsed)
    }
}

/// A table of distinct ids has distinct ids still when a job has left it.
pub proof fn lemma_removal_keeps_distinct(jobs: Seq<JobView>, at: int)
    requires
        distinct_ids(jobs),
        0 <= at < jobs.len(),
    ensures
        distinct_ids(jobs.remove(at)),
{
    let after = jobs.remove(at);
    assert forall|i: int, j: int| 0 <= i < j < after.len() implies (#[trigger] after[i]).meta.id != (
    #[trigger] after[j]).meta.id by {
        let i0 = if i < at {
            i
        } else {
            i + 1
        };
        let j0 = if j < at {
            j
        } else {
            j + 1
        };
        assert(jobs[i0].meta.id != jobs[j0].meta.id);
    }
}

/// The text under which clients know the job: its id in hyphenated form.
pub fn id_text(meta: &RenderMeta) -> (text: String)
    ensures
        text@ == hyphenated(meta.id),
{
    print_id(meta.id)
}

/// A job's slice changes no other job, and a slice for no job changes
/// nothing.
pub proof fn lemma_slice_goes_to_its_job(jobs: Seq<JobView>, slice: crate::slices::SliceView, id: u128)
    requires
        distinct_ids(jobs),
    ensures
        distinct_ids(with_slice(jobs, slice)),
        holds(with_slice(jobs, slice), id) == holds(jobs, id),
        !holds(jobs, slice.id) ==> with_slice(jobs, slice) == jobs,
        holds(jobs, id) && id != slice.id ==> job_of(with_slice(jobs, slice), id) == job_of(
            jobs,
            id,
        ),
        holds(jobs, id) && id == slice.id ==> job_of(with_slice(jobs, slice), id) == job_of(
            jobs,
            id,
        ).with(slice),
{
    let after = with_slice(jobs, slice);
    assert forall|i: int, j: int| 0 <= i < j < after.len() implies (#[trigger] after[i]).meta.id != (
    #[trigger] after[j]).meta.id by {
        assert(jobs[i].meta.id != jobs[j].meta.id);
    }
    if holds(jobs, id) {
        let at = place_of(jobs, id);
        assert(after[at].meta.id == id);
        lemma_one_place(after, id, at);
    }
    if holds(after, id) {
        let at = place_of(after, id);
        assert(jobs[at].meta.id == id);
    }
    if !holds(jobs, slice.id) {
        assert(after =~= jobs);
    }
}

/// In a table of distinct ids, a job with the id stands at the one place of
/// the id.
pub proof fn lemma_one_place(jobs: Seq<JobView>, id: u128, at: int)
    requires
        distinct_ids(jobs),
        0 <= at < jobs.len(),
        jobs[at].meta.id == id,
    ensures
        holds(jobs, id),
        place_of(jobs, id) == at,
{
    let other = place_of(jobs, id);
    if other < at {
        assert(jobs[other].meta.id != jobs[at].meta.id);
    } else if at < other {
        assert(jobs[at].meta.id != jobs[other].meta.id);
    }
}

/// A job that was opened is polled as not finished with no division come,
/// if it has a division at all; the jobs that were there are polled as
/// before.
pub proof fn lemma_opened_job_waits(jobs: Seq<JobView>, meta: RenderMeta, id: u128)
    requires
        distinct_ids(jobs),
        !holds(jobs, meta.id),
    ensures
        distinct_ids(jobs.push(JobView::fresh(meta))),
        meta.divisions > 0 ==> poll_outcome(jobs.push(JobView::fresh(meta)), Some(meta.id)) == (
        Outcome::NotFinished { received: 0, divisions: meta.divisions as nat }),
        id != meta.id ==> poll_outcome(jobs.push(JobView::fresh(meta)), Some(id)) == poll_outcome(
            jobs,
            Some(id),
        ),
{
    let after = jobs.push(JobView::fresh(meta));
    assert forall|i: int, j: int| 0 <= i < j < after.len() implies (#[trigger] after[i]).meta.id != (
    #[trigger] after[j]).meta.id by {
        if j < jobs.len() {
            assert(jobs[i].meta.id != jobs[j].meta.id);
        } else {
            assert(jobs[i].meta.id != meta.id);
        }
    }
    lemma_one_place(after, meta.id, jobs.len() as int);
    let job = JobView::fresh(meta);
    if meta.divisions > 0 {
        assert(!job.has(0));
        job.lemma_none_received(meta.divisions as nat);
    }
    if id != meta.id {
        if holds(jobs, id) {
            let at = place_of(jobs, id);
            assert(after[at].meta.id == id);
            lemma_one_place(after, id, at);
        }
        if holds(after, id) {
            let at = place_of(after, id);
            assert(jobs[at].meta.id == id);
        }
    }
}

/// A frame is handed out once: the poll that follows the one that got the
/// frame finds no such job, and every other job is polled as before.
pub proof fn lemma_frame_comes_once(jobs: Seq<JobView>, id: u128, other: u128)
    requires
        distinct_ids(jobs),
        poll_outcome(jobs, Some(id)) is Image,
    ensures
        distinct_ids(after_poll(jobs, Some(id))),
        poll_outcome(after_poll(jobs, Some(id)), Some(id)) == Outcome::NoSuchJob,
        other != id ==> poll_outcome(after_poll(jobs, Some(id)), Some(other)) == poll_outcome(
            jobs,
            Some(other),
        ),
{
    let at = place_of(jobs, id);
    let after = jobs.remove(at);
    assert(after_poll(jobs, Some(id)) == after);
    assert forall|i: int| 0 <= i < after.len() implies (#[trigger] after[i]).meta.id != id by {
        if i < at {
            assert(jobs[i].meta.id != jobs[at].meta.id);
        } else {
            assert(jobs[at].meta.id != jobs[i + 1].meta.id);
        }
    }
    lemma_removal_keeps_distinct(jobs, at);
    if other != id {
        if holds(jobs, other) {
            let was = place_of(jobs, other);
            let now = if was < at {
                was
            } else {
                was - 1
            };
            assert(after[now].meta.id == other);
            lemma_one_place(after, other, now);
        }
        if holds(after, other) {
            let now = place_of(after, other);
            let was = if now < at {
                now
            } else {
                now + 1
            };
            assert(jobs[was].meta.id == other);
        }
    }
}

/// A poll that hands out no frame leaves the table as it was.
pub proof fn lemma_poll_keeps_unfinished(jobs: Seq<JobView>, parsed: Option<u128>)
    ensures
        !(poll_outcome(jobs, parsed) is Image) ==> after_poll(jobs, parsed) == jobs,
        poll_outcome(jobs, parsed) is Image ==> parsed is Some && holds(jobs, parsed->0) && job_of(
            jobs,
            parsed->0,
        ).complete() && after_poll(jobs, parsed).len() == jobs.len() - 1,
{
}

/// Where a job stands in its life.
pub enum Phase {
    /// The table has no such job: it was never opened, or its frame has
    /// been handed out.
    Unknown,
    /// The job is open and no slice of any of its divisions has come.
    Dispatched,
    /// Slices of `received` of the job's divisions have come, and not of all.
    Collecting { received: nat },
    /// A slice of every division has come. The next poll hands out the frame.
    Complete,
}

/// The phase of the job with the id.
pub open spec fn phase(jobs: Seq<JobView>, id: u128) -> Phase {
    if !holds(jobs, id) {
        Phase::Unknown
    } else if job_of(jobs, id).complete() {
        Phase::Complete
    } else if job_of(jobs, id).received() == 0 {
        Phase::Dispatched
    } else {
        Phase::Collecting { received: job_of(jobs, id).received() }
    }
}

/// A poll tells the phase: no such job for an unknown one, the count for
/// one that is dispatched or collecting, and for a complete one the frame or
/// that there is none to be had.
pub proof fn lemma_poll_tells_phase(jobs: Seq<JobView>, id: u128)
    ensures
        match phase(jobs, id) {
            Phase::Unknown => poll_outcome(jobs, Some(id)) == Outcome::NoSuchJob,
            Phase::Dispatched => poll_outcome(jobs, Some(id)) == (Outcome::NotFinished {
                received: 0,
                divisions: job_of(jobs, id).meta.divisions as nat,
            }),
            Phase::Collecting { received } => poll_outcome(jobs, Some(id)) == (
            Outcome::NotFinished { received, divisions: job_of(jobs, id).meta.divisions as nat })
                && 0 < received < job_of(jobs, id).meta.divisions,
            Phase::Complete => poll_outcome(jobs, Some(id)) is Image || poll_outcome(
                jobs,
                Some(id),
            ) is Unencodable,
        },
{
    if holds(jobs, id) {
        job_of(jobs, id).lemma_complete_is_all_received();
    }
}

/// Opening a job takes it from unknown to dispatched, or to complete at once
/// if it has no divisions.
pub proof fn lemma_open_dispatches(jobs: Seq<JobView>, meta: RenderMeta)
    requires
        distinct_ids(jobs),
        phase(jobs, meta.id) is Unknown,
    ensures
        phase(jobs.push(JobView::fresh(meta)), meta.id) == (if meta.divisions == 0 {
            Phase::Complete
        } else {
            Phase::Dispatched
        }),
{
    let after = jobs.push(JobView::fresh(meta));
    lemma_opened_job_waits(jobs, meta, meta.id);
    lemma_one_place(after, meta.id, jobs.len() as int);
    let job = JobView::fresh(meta);
    job.lemma_none_received(meta.divisions as nat);
    if meta.divisions > 0 {
        assert(!job.has(0));
    }
}

/// A slice moves its job on by one division if it is the first of a division
/// of the job, and to complete if it is the last that was missing. Any other
/// slice leaves the phase of the job as it was, and every slice that of every
/// other job.
pub proof fn lemma_slice_advances(jobs: Seq<JobView>, slice: crate::slices::SliceView, id: u128)
    requires
        distinct_ids(jobs),
    ensures
        id != slice.id || !holds(jobs, id) ==> phase(with_slice(jobs, slice), id) == phase(
            jobs,
            id,
        ),
        id == slice.id && holds(jobs, id) ==> {
            let before = job_of(jobs, id);
            let after = job_of(with_slice(jobs, slice), id);
            let counts = slice.division_no < before.meta.divisions && !before.has(
                slice.division_no,
            );
            &&& holds(with_slice(jobs, slice), id)
            &&& after.meta == before.meta
            &&& after.received() == before.received() + if counts {
                1nat
            } else {
                0nat
            }
            &&& after.complete() <==> after.received() == before.meta.divisions
            &&& before.complete() ==> after.complete()
        },
{
    lemma_slice_goes_to_its_job(jobs, slice, id);
    if id == slice.id && holds(jobs, id) {
        let before = job_of(jobs, id);
        let after = job_of(with_slice(jobs, slice), id);
        before.lemma_received_grows(slice, before.meta.divisions as nat);
        before.lemma_complete_is_all_received();
        after.lemma_complete_is_all_received();
    }
}

/// The poll of a complete job whose frame the encoder takes ends the job's
/// life: it is unknown from then on. A poll in any other phase leaves the
/// phase as it was.
pub proof fn lemma_poll_finalizes(jobs: Seq<JobView>, id: u128)
    requires
        distinct_ids(jobs),
    ensures
        poll_outcome(jobs, Some(id)) is Image ==> phase(jobs, id) is Complete && phase(
            after_poll(jobs, Some(id)),
            id,
        ) is Unknown,
        !(poll_outcome(jobs, Some(id)) is Image) ==> phase(after_poll(jobs, Some(id)), id) == phase(
            jobs,
            id,
        ),
{
    if poll_outcome(jobs, Some(id)) is Image {
        lemma_frame_comes_once(jobs, id, id);
    }
}

} // verus!
