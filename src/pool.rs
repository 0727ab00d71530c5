use std::collections::VecDeque;
use vstd::prelude::*;

verus! {

/// A message to a worker: a job to run, or the signal to stop.
pub enum Message<J> {
    NewJob(J),
    Terminate,
}

/// The queue that the workers of a pool take their messages from, in the
/// order the messages were sent. A pool has at least one worker.
pub struct JobQueue<J> {
    messages: VecDeque<Message<J>>,
    workers: usize,
}

/// `n` stop signals.
pub open spec fn terminations<J>(n: nat) -> Seq<Message<J>> {
    Seq::new(n, |i: int| Message::Terminate)
}

/// The jobs in `s`, in order.
pub open spec fn jobs_in<J>(s: Seq<Message<J>>) -> Seq<J>
    decreases s.len(),
{
    if s.len() == 0 {
        Seq::empty()
    } else {
        match s.last() {
            Message::NewJob(j) => jobs_in(s.drop_last()).push(j),
            Message::Terminate => jobs_in(s.drop_last()),
        }
    }
}

/// How many stop signals `s` holds.
pub open spec fn terminations_in<J>(s: Seq<Message<J>>) -> nat
    decreases s.len(),
{
    if s.len() == 0 {
        0
    } else {
        match s.last() {
            Message::NewJob(_) => terminations_in(s.drop_last()),
            Message::Terminate => terminations_in(s.drop_last()) + 1,
        }
    }
}

/// The messages that a pool of `workers` workers sends when it is given
/// `jobs` and is then shut down: one job message each, then one stop signal
/// per worker.
pub open spec fn shutdown_messages<J>(jobs: Seq<J>, workers: nat) -> Seq<Message<J>> {
    jobs.map_values(|j: J| Message::NewJob(j)) + terminations(workers)
}

impl<J> JobQueue<J> {
    /// The messages waiting, the next one first.
    pub closed spec fn messages(&self) -> Seq<Message<J>> {
        self.messages@
    }

    /// The number of workers that take messages from this queue.
    pub closed spec fn worker_count(&self) -> nat {
        self.workers as nat
    }

    /// An empty queue for `workers` workers; a pool without workers would
    /// never run a job, so there must be at least one.
    pub fn new(workers: usize) -> (r: JobQueue<J>)
        requires
            workers > 0,
        ensures
            r.messages() == Seq::<Message<J>>::empty(),
            r.worker_count() == workers,
    {
        JobQueue { messages: VecDeque::new(), workers }
    }

    /// The number of workers that take messages from this queue.
    pub fn workers(&self) -> (r: usize)
        ensures
            r == self.worker_count(),
    {
        self.workers
    }

    /// Queues a job behind the messages already waiting.
    pub fn submit(&mut self, job: J)
        ensures
            final(self).messages() == old(self).messages().push(Message::NewJob(job)),
            final(self).worker_count() == old(self).worker_count(),
    {
        self.messages.push_back(Message::NewJob(job));
    }

    /// Queues one stop signal per worker behind the messages already
    /// waiting, so that every worker runs what is ahead of it and then stops.
    pub fn shutdown(&mut self)
        ensures
            final(self).messages() == old(self).messages() + terminations::<J>(
                old(self).worker_count(),
            ),
            final(self).worker_count() == old(self).worker_count(),
    {
        let mut k: usize = 0;
        assert(old(self).messages() =~= old(self).messages() + terminations::<J>(0));
        while k < self.workers
            invariant
                k <= self.workers,
                self.workers == old(self).workers,
                self.messages@ == old(self).messages@ + terminations::<J>(k as nat),
            decreases self.workers - k,
        {
            self.messages.push_back(Message::Terminate);
            k = k + 1;
            assert(self.messages@ =~= old(self).messages@ + terminations::<J>(k as nat));
        }
    }

    /// Takes the message at the front, if one is waiting.
    pub fn next(&mut self) -> (r: Option<Message<J>>)
        ensures
            final(self).worker_count() == old(self).worker_count(),
            old(self).messages().len() == 0 ==> r is None && final(self).messages() == old(
                self,
            ).messages(),
            old(self).messages().len() > 0 ==> r == Some(old(self).messages()[0])
                && final(self).messages() == old(self).messages().drop_first(),
    {
        let r = self.messages.pop_front();
        proof {
            if old(self).messages@.len() > 0 {
                assert(self.messages@ =~= old(self).messages@.drop_first());
            }
        }
        r
    }
}

proof fn lemma_job_prefix<J>(jobs: Seq<J>, workers: nat, k: int)
    requires
        0 <= k <= jobs.len(),
    ensures
        terminations_in(shutdown_messages(jobs, workers).subrange(0, k)) == 0,
        jobs_in(shutdown_messages(jobs, workers).subrange(0, k)) == jobs.subrange(0, k),
    decreases k,
{
    let s = shutdown_messages(jobs, workers);
    if k > 0 {
        lemma_job_prefix(jobs, workers, k - 1);
        assert(s.subrange(0, k).drop_last() =~= s.subrange(0, k - 1));
        assert(s[k - 1] == Message::<J>::NewJob(jobs[k - 1]));
        assert(jobs.subrange(0, k - 1).push(jobs[k - 1]) =~= jobs.subrange(0, k));
    } else {
        assert(jobs.subrange(0, 0) =~= Seq::<J>::empty());
    }
}

proof fn lemma_stop_suffix<J>(jobs: Seq<J>, workers: nat, k: int)
    requires
        jobs.len() <= k <= jobs.len() + workers,
    ensures
        terminations_in(shutdown_messages(jobs, workers).subrange(0, k)) == k - jobs.len(),
        jobs_in(shutdown_messages(jobs, workers).subrange(0, k)) == jobs,
    decreases k,
{
    let s = shutdown_messages(jobs, workers);
    if k > jobs.len() {
        lemma_stop_suffix(jobs, workers, k - 1);
        assert(s.subrange(0, k).drop_last() =~= s.subrange(0, k - 1));
        assert(s[k - 1] == Message::<J>::Terminate);
    } else {
        lemma_job_prefix(jobs, workers, k);
        assert(jobs.subrange(0, k) =~= jobs);
    }
}

/// Shutting a pool down runs every job exactly once: the messages are taken
/// one at a time from the front, and the workers are all gone only once
/// `workers` stop signals have been taken. When that happens, the messages
/// taken are all those sent, and the jobs among them are the jobs submitted,
/// each once and in order.
pub proof fn lemma_shutdown_runs_every_job<J>(jobs: Seq<J>, workers: nat, taken: int)
    requires
        workers > 0,
        0 <= taken <= jobs.len() + workers,
        terminations_in(shutdown_messages(jobs, workers).subrange(0, taken)) == workers,
    ensures
        taken == shutdown_messages(jobs, workers).len(),
        jobs_in(shutdown_messages(jobs, workers).subrange(0, taken)) == jobs,
{
    if taken < jobs.len() {
        lemma_job_prefix(jobs, workers, taken);
    } else {
        lemma_stop_suffix(jobs, workers, taken);
    }
}

} // verus!
