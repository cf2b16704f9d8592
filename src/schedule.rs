//! Scheduling the hashing work: the barrier at which both walks end, and the
//! shuffled job stream with one end marker per worker.
use vstd::prelude::*;
use vstd::multiset::Multiset;
use crate::types::{HashTask, Job};

verus! {

broadcast use vstd::seq_lib::group_to_multiset_ensures;

/// Relies on `rand::seq::SliceRandom::shuffle` with `rand::thread_rng()`:
/// the items are permuted in place by swaps, none added or lost. Which
/// permutation comes out is left open.
#[verifier::external_body]
fn shuffle_in_place<T>(v: &mut Vec<T>)
    ensures
        final(v)@.to_multiset() == old(v)@.to_multiset(),
{
    rand::seq::SliceRandom::shuffle(v.as_mut_slice(), &mut rand::thread_rng())
}

/// The tasks carried by the first `n` jobs.
pub open spec fn scheduled_tasks(jobs: Seq<Job>, n: int) -> Seq<HashTask> {
    Seq::new(n as nat, |i: int| jobs[i]->Task_0)
}

/// The job stream for the hashing workers: every task once, in a random
/// order, then exactly one end marker per worker.
pub fn plan_jobs(tasks: Vec<HashTask>, workers: u32) -> (r: Vec<Job>)
    requires
        tasks.len() + workers <= usize::MAX,
    ensures
        r.len() == tasks.len() + workers,
        forall|i: int| 0 <= i < tasks.len() ==> r@[i] is Task,
        forall|i: int| tasks.len() <= i < r.len() ==> r@[i] is End,
        scheduled_tasks(r@, tasks.len() as int).to_multiset() == tasks@.to_multiset(),
{
    let n = tasks.len();
    let mut pending = tasks;
    let ghost given = pending@;
    shuffle_in_place(&mut pending);
    let mut jobs: Vec<Job> = Vec::new();
    let ghost all = pending@.to_multiset();
    assert(pending@.len() == given.len()) by {
        assert(pending@.to_multiset().len() == pending@.len());
        assert(given.to_multiset().len() == given.len());
    }
    assert(scheduled_tasks(jobs@, 0).to_multiset() =~= Multiset::empty());
    while pending.len() > 0
        invariant
            jobs.len() + pending.len() == n,
            forall|i: int| 0 <= i < jobs.len() ==> jobs@[i] is Task,
            scheduled_tasks(jobs@, jobs.len() as int).to_multiset().add(pending@.to_multiset()) == all,
        decreases pending.len(),
    {
        let ghost before = pending@;
        let ghost done = scheduled_tasks(jobs@, jobs.len() as int);
        match pending.pop() {
            Some(t) => {
                assert(before == pending@.push(t));
                jobs.push(Job::Task(t));
                assert(scheduled_tasks(jobs@, jobs.len() as int) =~= done.push(t));
            },
            None => {},
        }
    }
    assert(pending@.to_multiset() =~= Multiset::empty());
    let ghost head = scheduled_tasks(jobs@, n as int);
    let mut k: u32 = 0;
    while k < workers
        invariant
            0 <= k <= workers,
            n + workers <= usize::MAX,
            jobs.len() == n + k,
            forall|i: int| 0 <= i < n ==> jobs@[i] is Task,
            forall|i: int| n <= i < jobs.len() ==> jobs@[i] is End,
            scheduled_tasks(jobs@, n as int) == head,
        decreases workers - k,
    {
        jobs.push(Job::End);
        assert(scheduled_tasks(jobs@, n as int) =~= head);
        k = k + 1;
    }
    jobs
}

/// The rendezvous of the two tree walks: the second walk to finish sends
/// one end marker per hashing worker into the stream of walked files.
pub struct WalkBarrier {
    arrived: u32,
}

impl WalkBarrier {
    /// The number of walks that have finished.
    pub closed spec fn arrived(&self) -> nat {
        self.arrived as nat
    }

    /// A barrier that no walk has reached.
    pub fn new() -> (r: WalkBarrier)
        ensures
            r.arrived() == 0,
    {
        WalkBarrier { arrived: 0 }
    }

    /// Records that one walk has finished, and returns how many end markers
    /// that walk must send: none for the first, one per worker for the
    /// second.
    pub fn arrive(&mut self, workers: u32) -> (markers: u32)
        requires
            old(self).arrived() < 2,
        ensures
            final(self).arrived() == old(self).arrived() + 1,
            markers == if final(self).arrived() == 2 { workers } else { 0 },
    {
        self.arrived = self.arrived + 1;
        if self.arrived > 1 {
            workers
        } else {
            0
        }
    }
}

} // verus!
