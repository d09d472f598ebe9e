//! The queue bookkeeping of the fixed-size worker pool: per-worker job
//! queues, least-loaded dispatch with ties broken toward the lowest worker
//! index, and LIFO consumption by each worker.
//!
//! There is no work-stealing: a worker pops only its own queue, and blocks
//! when that queue is empty until a submitter signals it. The pool's
//! threads, mutexes and condition variables are the application's business;
//! this model carries the decisions they must agree on. Jobs are
//! identified by number, and the pending multiset makes conservation
//! explicit: a submission adds exactly its job, a pop removes exactly the
//! job it returns, so no job is lost or duplicated by the queue discipline.
//! The load counter of a worker is here exactly its queue length; the
//! original's atomic counters approximate the same quantity.
use vstd::prelude::*;

use vstd::multiset::Multiset;

verus! {

/// Why a pool could not be built: a pool needs more than one worker.
#[derive(Debug)]
pub enum PoolError {
    ConstructionFailure,
}

/// The pool's state: one job queue per worker, appended at the back by
/// submitters and popped at the back by its owning worker.
pub struct ThreadPool {
    pub queues: Vec<Vec<u64>>,
}

/// The queues as sequences.
pub open spec fn queue_views(qs: Seq<Vec<u64>>) -> Seq<Seq<u64>> {
    qs.map_values(|q: Vec<u64>| q@)
}

/// Every job waiting anywhere in the pool.
pub open spec fn pending(qs: Seq<Seq<u64>>) -> Multiset<u64>
    decreases qs.len(),
{
    if qs.len() == 0 {
        Multiset::empty()
    } else {
        qs.first().to_multiset().add(pending(qs.drop_first()))
    }
}

/// The first index among the shortest queues.
pub open spec fn least_loaded_of(qs: Seq<Seq<u64>>) -> int
    decreases qs.len(),
{
    if qs.len() <= 1 {
        0
    } else {
        let rest = 1 + least_loaded_of(qs.drop_first());
        if qs[0].len() <= qs[rest].len() {
            0
        } else {
            rest
        }
    }
}

pub proof fn lemma_least_loaded_props(qs: Seq<Seq<u64>>)
    requires
        qs.len() > 0,
    ensures
        0 <= least_loaded_of(qs) < qs.len(),
        forall|i: int| 0 <= i < qs.len() ==> qs[least_loaded_of(qs)].len() <= #[trigger] qs[i].len(),
        forall|i: int|
            0 <= i < least_loaded_of(qs) ==> #[trigger] qs[i].len() > qs[least_loaded_of(qs)].len(),
    decreases qs.len(),
{
    if qs.len() > 1 {
        lemma_least_loaded_props(qs.drop_first());
        let m = least_loaded_of(qs);
        let rest = 1 + least_loaded_of(qs.drop_first());
        assert(qs.drop_first()[rest - 1] == qs[rest]);
        assert forall|i: int| 0 <= i < qs.len() implies qs[m].len() <= #[trigger] qs[i].len() by {
            if i > 0 {
                assert(qs.drop_first()[i - 1] == qs[i]);
            }
        }
        assert forall|i: int| 0 <= i < m implies #[trigger] qs[i].len() > qs[m].len() by {
            if i > 0 {
                assert(qs.drop_first()[i - 1] == qs[i]);
            }
        }
    }
}

proof fn lemma_pending_all_empty(qs: Seq<Seq<u64>>)
    requires
        forall|i: int| 0 <= i < qs.len() ==> #[trigger] qs[i].len() == 0,
    ensures
        pending(qs) == Multiset::<u64>::empty(),
    decreases qs.len(),
{
    broadcast use vstd::seq_lib::group_to_multiset_ensures;
    broadcast use vstd::multiset::group_multiset_axioms;

    if qs.len() > 0 {
        assert(forall|i: int|
            0 <= i < qs.drop_first().len() ==> #[trigger] qs.drop_first()[i].len() == 0);
        lemma_pending_all_empty(qs.drop_first());
        assert(qs.first().len() == 0);
        assert(qs.first().to_multiset().len() == 0);
        assert(qs.first().to_multiset() =~= Multiset::<u64>::empty());
        assert(pending(qs) =~= Multiset::<u64>::empty());
    }
}

proof fn lemma_pending_update_push(qs: Seq<Seq<u64>>, w: int, job: u64)
    requires
        0 <= w < qs.len(),
    ensures
        pending(qs.update(w, qs[w].push(job))) == pending(qs).insert(job),
    decreases qs.len(),
{
    broadcast use vstd::seq_lib::group_to_multiset_ensures;
    broadcast use vstd::multiset::group_multiset_axioms;

    let qs2 = qs.update(w, qs[w].push(job));
    if w == 0 {
        assert(qs2.first() == qs[0].push(job));
        assert(qs2.drop_first() =~= qs.drop_first());
        let q0 = qs[0];
        assert(q0.push(job).to_multiset() =~= q0.to_multiset().insert(job));
        assert(q0.to_multiset().insert(job).add(pending(qs.drop_first()))
            =~= q0.to_multiset().add(pending(qs.drop_first())).insert(job));
    } else {
        assert(qs2.first() == qs.first());
        assert(qs2.drop_first() =~= qs.drop_first().update(w - 1, qs.drop_first()[w - 1].push(job)));
        assert(qs.drop_first()[w - 1] == qs[w]);
        lemma_pending_update_push(qs.drop_first(), w - 1, job);
        assert(qs.first().to_multiset().add(pending(qs.drop_first()).insert(job)) =~= qs.first().to_multiset().add(
            pending(qs.drop_first()),
        ).insert(job));
    }
}

proof fn lemma_pending_update_pop(qs: Seq<Seq<u64>>, w: int)
    requires
        0 <= w < qs.len(),
        qs[w].len() > 0,
    ensures
        pending(qs) == pending(qs.update(w, qs[w].drop_last())).insert(qs[w].last()),
    decreases qs.len(),
{
    broadcast use vstd::seq_lib::group_to_multiset_ensures;
    broadcast use vstd::multiset::group_multiset_axioms;

    let qs2 = qs.update(w, qs[w].drop_last());
    if w == 0 {
        let q0 = qs[0];
        assert(qs2.first() == q0.drop_last());
        assert(qs2.drop_first() =~= qs.drop_first());
        assert(q0 =~= q0.drop_last().push(q0.last()));
        assert(q0.to_multiset() =~= q0.drop_last().to_multiset().insert(q0.last()));
        assert(q0.drop_last().to_multiset().insert(q0.last()).add(pending(qs.drop_first()))
            =~= q0.drop_last().to_multiset().add(pending(qs.drop_first())).insert(q0.last()));
    } else {
        assert(qs2.first() == qs.first());
        assert(qs2.drop_first() =~= qs.drop_first().update(
            w - 1,
            qs.drop_first()[w - 1].drop_last(),
        ));
        assert(qs.drop_first()[w - 1] == qs[w]);
        lemma_pending_update_pop(qs.drop_first(), w - 1);
        assert(qs.first().to_multiset().add(
            pending(qs.drop_first().update(w - 1, qs.drop_first()[w - 1].drop_last())).insert(
                qs[w].last(),
            ),
        ) =~= qs.first().to_multiset().add(
            pending(qs.drop_first().update(w - 1, qs.drop_first()[w - 1].drop_last())),
        ).insert(qs[w].last()));
    }
}

impl ThreadPool {
    /// Builds a pool of `size` workers with empty queues; a size of one or
    /// zero is refused at construction, before any work is scheduled.
    pub fn new(size: usize) -> (r: Result<ThreadPool, PoolError>)
        ensures
            size > 1 ==> r is Ok,
            size > 1 ==> r->Ok_0.queues@.len() == size,
            size > 1 ==> forall|j: int| 0 <= j < size ==> #[trigger] r->Ok_0.queues@[j]@.len()
                == 0,
            size > 1 ==> pending(queue_views(r->Ok_0.queues@)) == Multiset::<u64>::empty(),
            size <= 1 ==> r is Err && r->Err_0 == PoolError::ConstructionFailure,
    {
        if size <= 1 {
            return Err(PoolError::ConstructionFailure);
        }
        let mut queues: Vec<Vec<u64>> = Vec::new();
        let mut i: usize = 0;
        while i < size
            invariant
                i <= size,
                queues@.len() == i,
                forall|j: int| 0 <= j < i ==> #[trigger] queues@[j]@.len() == 0,
            decreases size - i,
        {
            let q: Vec<u64> = Vec::new();
            queues.push(q);
            i += 1;
        }
        proof {
            assert(forall|j: int|
                0 <= j < queue_views(queues@).len() ==> #[trigger] queue_views(queues@)[j].len()
                    == 0);
            lemma_pending_all_empty(queue_views(queues@));
        }
        Ok(ThreadPool { queues })
    }

    /// How many workers the pool has.
    pub fn worker_count(&self) -> (n: usize)
        ensures
            n == self.queues@.len(),
    {
        self.queues.len()
    }

    /// The worker a submission goes to: the first worker whose queue is
    /// currently shortest.
    pub fn get_worker(&self) -> (w: usize)
        requires
            self.queues@.len() > 0,
        ensures
            w == least_loaded_of(queue_views(self.queues@)),
    {
        let ghost qv = queue_views(self.queues@);
        let n = self.queues.len();
        let mut best: usize = 0;
        let mut i: usize = 1;
        while i < n
            invariant
                1 <= i <= n,
                best < i,
                n == self.queues@.len(),
                qv == queue_views(self.queues@),
                forall|j: int| 0 <= j < i ==> qv[best as int].len() <= #[trigger] qv[j].len(),
                forall|j: int| 0 <= j < best ==> #[trigger] qv[j].len() > qv[best as int].len(),
            decreases n - i,
        {
            if self.queues[i].len() < self.queues[best].len() {
                best = i;
            }
            i += 1;
        }
        proof {
            lemma_least_loaded_props(qv);
            let m = least_loaded_of(qv);
            if m < best {
                assert(qv[m].len() > qv[best as int].len());
                assert(qv[best as int].len() >= qv[m].len());
                assert(false);
            } else if best < m {
                assert(qv[best as int].len() > qv[m].len());
                assert(qv[m].len() >= qv[best as int].len());
                assert(false);
            }
        }
        best
    }

    /// Appends the job to the queue of the currently least loaded worker and
    /// returns that worker's index. Submission never waits for the job to
    /// run; exactly the submitted job joins the pending multiset.
    pub fn execute(&mut self, job: u64) -> (w: usize)
        requires
            old(self).queues@.len() > 0,
        ensures
            w == least_loaded_of(queue_views(old(self).queues@)),
            queue_views(final(self).queues@) == queue_views(old(self).queues@).update(
                w as int,
                queue_views(old(self).queues@)[w as int].push(job),
            ),
            pending(queue_views(final(self).queues@)) == pending(
                queue_views(old(self).queues@),
            ).insert(job),
    {
        let ghost qv = queue_views(old(self).queues@);
        let w = self.get_worker();
        proof {
            lemma_least_loaded_props(qv);
        }
        let mut q = self.queues.remove(w);
        q.push(job);
        self.queues.insert(w, q);
        proof {
            assert(queue_views(self.queues@) =~= qv.update(w as int, qv[w as int].push(job)));
            lemma_pending_update_push(qv, w as int, job);
        }
        w
    }

    /// Submits a batch of jobs in order. Exactly the submitted jobs join the
    /// pending multiset: none is lost, none is duplicated, so draining the
    /// queues runs each of them exactly once.
    pub fn execute_all(&mut self, jobs: &Vec<u64>)
        requires
            old(self).queues@.len() > 0,
        ensures
            final(self).queues@.len() == old(self).queues@.len(),
            pending(queue_views(final(self).queues@)) == pending(
                queue_views(old(self).queues@),
            ).add(jobs@.to_multiset()),
    {
        let ghost base = pending(queue_views(old(self).queues@));
        let n = jobs.len();
        let mut i: usize = 0;
        proof {
            broadcast use vstd::seq_lib::group_to_multiset_ensures;
            broadcast use vstd::multiset::group_multiset_axioms;

            assert(jobs@.subrange(0, 0) =~= Seq::<u64>::empty());
            assert(jobs@.subrange(0, 0).to_multiset().len() == 0);
            assert(base.add(jobs@.subrange(0, 0).to_multiset()) =~= base);
        }
        while i < n
            invariant
                i <= n,
                n == jobs@.len(),
                self.queues@.len() == old(self).queues@.len() > 0,
                pending(queue_views(self.queues@)) == base.add(
                    jobs@.subrange(0, i as int).to_multiset(),
                ),
            decreases n - i,
        {
            let ghost pre_q = self.queues@;
            let job = jobs[i];
            let w = self.execute(job);
            proof {
                broadcast use vstd::seq_lib::group_to_multiset_ensures;
                broadcast use vstd::multiset::group_multiset_axioms;

                assert(queue_views(pre_q).len() == pre_q.len());
                lemma_least_loaded_props(queue_views(pre_q));
                assert(0 <= w < pre_q.len());
                assert(queue_views(self.queues@) == queue_views(pre_q).update(
                    w as int,
                    queue_views(pre_q)[w as int].push(job),
                ));
                assert(queue_views(self.queues@).len() == pre_q.len());
                assert(self.queues@.len() == queue_views(self.queues@).len());
                assert(jobs@.subrange(0, i + 1) =~= jobs@.subrange(0, i as int).push(job));
                assert(jobs@.subrange(0, i as int).push(job).to_multiset() =~= jobs@.subrange(
                    0,
                    i as int,
                ).to_multiset().insert(job));
                assert(jobs@.subrange(0, i + 1).to_multiset() =~= jobs@.subrange(
                    0,
                    i as int,
                ).to_multiset().insert(job));
                assert(base.add(jobs@.subrange(0, i as int).to_multiset().insert(job)) =~= base.add(
                    jobs@.subrange(0, i as int).to_multiset(),
                ).insert(job));
            }
            i += 1;
        }
        proof {
            assert(jobs@.subrange(0, n as int) =~= jobs@);
        }
    }

    /// The worker loop's decision: pop the most recently added job of the
    /// worker's own queue, or report that the queue is empty and the worker
    /// should block until a submitter signals it.
    pub fn take(&mut self, worker: usize) -> (r: Option<u64>)
        requires
            worker < old(self).queues@.len(),
        ensures
            queue_views(old(self).queues@)[worker as int].len() == 0 ==> r is None
                && queue_views(final(self).queues@) == queue_views(old(self).queues@),
            queue_views(old(self).queues@)[worker as int].len() > 0 ==> {
                &&& r is Some
                &&& r->Some_0 == queue_views(old(self).queues@)[worker as int].last()
                &&& queue_views(final(self).queues@) == queue_views(old(self).queues@).update(
                    worker as int,
                    queue_views(old(self).queues@)[worker as int].drop_last(),
                )
                &&& pending(queue_views(old(self).queues@)) == pending(
                    queue_views(final(self).queues@),
                ).insert(r->Some_0)
            },
    {
        let ghost qv = queue_views(old(self).queues@);
        let mut q = self.queues.remove(worker);
        let r = q.pop();
        self.queues.insert(worker, q);
        proof {
            if qv[worker as int].len() == 0 {
                assert(queue_views(self.queues@) =~= qv);
            } else {
                assert(queue_views(self.queues@) =~= qv.update(
                    worker as int,
                    qv[worker as int].drop_last(),
                ));
                lemma_pending_update_pop(qv, worker as int);
            }
        }
        r
    }
}

} // verus!
