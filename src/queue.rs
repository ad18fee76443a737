use vstd::prelude::*;
use std::collections::VecDeque;

verus! {

/// What a worker gets when it claims from the queue.
pub enum Claim<T> {
    /// The oldest job that no worker has claimed yet.
    Job(T),
    /// Nothing is queued, but more may come.
    Wait,
    /// Nothing is queued and the queue is closed: the worker stops.
    Done,
}

/// The shared job queue of a worker pool: jobs leave in the order in which
/// they were submitted, each exactly once; once closed it takes no more
/// jobs and, when drained, tells each worker to stop.
pub struct JobQueue<T> {
    jobs: VecDeque<T>,
    closed: bool,
    submitted: Ghost<Seq<T>>,
    claimed: Ghost<Seq<T>>,
}

impl<T> JobQueue<T> {
    /// Jobs submitted and not yet claimed, oldest first.
    pub closed spec fn pending(&self) -> Seq<T> {
        self.jobs@
    }

    pub closed spec fn is_closed(&self) -> bool {
        self.closed
    }

    /// Every job ever submitted, in order.
    pub closed spec fn submitted(&self) -> Seq<T> {
        self.submitted@
    }

    /// Every job ever claimed, in order.
    pub closed spec fn claimed(&self) -> Seq<T> {
        self.claimed@
    }

    /// The jobs claimed so far and those still pending are the jobs
    /// submitted, in the same order, each once.
    pub open spec fn wf(&self) -> bool {
        self.claimed() + self.pending() == self.submitted()
    }

    /// An open queue with no jobs.
    pub fn new() -> (r: JobQueue<T>)
        ensures
            r.wf(),
            !r.is_closed(),
            r.pending().len() == 0,
            r.submitted().len() == 0,
    {
        let r = JobQueue {
            jobs: VecDeque::new(),
            closed: false,
            submitted: Ghost(Seq::empty()),
            claimed: Ghost(Seq::empty()),
        };
        assert(r.claimed() + r.pending() =~= r.submitted());
        r
    }

    /// Queues `job` at the back; a closed queue hands it back instead.
    pub fn submit(&mut self, job: T) -> (r: Result<(), T>)
        requires
            old(self).wf(),
        ensures
            final(self).wf(),
            final(self).is_closed() == old(self).is_closed(),
            final(self).claimed() == old(self).claimed(),
            old(self).is_closed() ==> r == Err::<(), T>(job) && final(self).pending() == old(
                self,
            ).pending() && final(self).submitted() == old(self).submitted(),
            !old(self).is_closed() ==> r is Ok && final(self).pending() == old(self).pending().push(
                job,
            ) && final(self).submitted() == old(self).submitted().push(job),
    {
        if self.closed {
            return Err(job);
        }
        let ghost before = self.submitted@;
        self.jobs.push_back(job);
        self.submitted = Ghost(before.push(job));
        assert(self.claimed() + self.pending() =~= self.submitted());
        Ok(())
    }

    /// Takes the oldest pending job; with none, says whether to wait or stop.
    pub fn claim(&mut self) -> (r: Claim<T>)
        requires
            old(self).wf(),
        ensures
            final(self).wf(),
            final(self).is_closed() == old(self).is_closed(),
            final(self).submitted() == old(self).submitted(),
            match r {
                Claim::Job(job) => old(self).pending().len() > 0 && job == old(self).pending()[0]
                    && final(self).pending() == old(self).pending().drop_first()
                    && final(self).claimed() == old(self).claimed().push(job),
                Claim::Wait => old(self).pending().len() == 0 && !old(self).is_closed()
                    && final(self).pending() == old(self).pending()
                    && final(self).claimed() == old(self).claimed(),
                Claim::Done => old(self).pending().len() == 0 && old(self).is_closed()
                    && final(self).pending() == old(self).pending()
                    && final(self).claimed() == old(self).claimed(),
            },
    {
        let ghost before = self.jobs@;
        match self.jobs.pop_front() {
            Some(job) => {
                let ghost done = self.claimed@;
                self.claimed = Ghost(done.push(job));
                assert(before =~= seq![job] + self.jobs@);
                assert(self.claimed() + self.pending() =~= self.submitted());
                Claim::Job(job)
            },
            None => if self.closed {
                Claim::Done
            } else {
                Claim::Wait
            },
        }
    }

    /// Takes no more jobs; those already queued are still handed out.
    pub fn close(&mut self)
        requires
            old(self).wf(),
        ensures
            final(self).wf(),
            final(self).is_closed(),
            final(self).pending() == old(self).pending(),
            final(self).submitted() == old(self).submitted(),
            final(self).claimed() == old(self).claimed(),
    {
        self.closed = true;
    }

    /// Number of pending jobs.
    pub fn len(&self) -> (r: usize)
        ensures
            r == self.pending().len(),
    {
        self.jobs.len()
    }
}

/// Once a closed queue is drained, the point at which it tells workers to
/// stop, every job submitted to it has been claimed, exactly once and in
/// order of submission.
pub proof fn law_each_job_claimed_once<T>(q: JobQueue<T>)
    requires
        q.wf(),
        q.is_closed(),
        q.pending().len() == 0,
    ensures
        q.claimed() == q.submitted(),
{
    assert(q.claimed() + q.pending() =~= q.claimed());
}

} // verus!
