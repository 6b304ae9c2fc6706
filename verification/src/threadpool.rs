use vstd::prelude::*;

use crate::error::{ErrSpec, Error};
use vstd::multiset::Multiset;

verus! {

broadcast use vstd::multiset::group_multiset_axioms;

/// The verified accounting of the worker pool's queue discipline.
///
/// The pool itself runs on threads and a channel, which stay outside the
/// verified library; this model is the contract those parts are written
/// against. Jobs are named by caller-chosen identifiers. Submitting puts a
/// job at the back of the FIFO queue; a worker takes the front job, runs it,
/// and reports it finished. The model shows that this discipline hands every
/// submitted job to exactly one worker: a job leaves the queue the moment it
/// is taken, so no two workers ever hold the same job, and a drained pool has
/// completed every job exactly once.
pub struct PoolState {
    /// How many workers the pool was built with; at least 1.
    pub size: usize,
    /// Submitted jobs no worker has taken yet, front first.
    pub pending: Vec<u64>,
    /// Jobs a worker has taken and not yet finished.
    pub running: Vec<u64>,
    /// Finished jobs, in the order they were reported finished.
    pub completed: Vec<u64>,
    /// Whether shutdown has begun; no job is accepted afterwards.
    pub closed: bool,
    /// Every job ever submitted, in submission order.
    pub submitted: Ghost<Seq<u64>>,
}

impl PoolState {
    /// The pool's invariant: a real size, distinct job names, and an exact
    /// balance — every submitted job is pending, running or completed, and
    /// nothing else is.
    pub open spec fn wf(&self) -> bool {
        &&& self.size >= 1
        &&& self.submitted@.no_duplicates()
        &&& self.pending@.to_multiset().add(self.running@.to_multiset()).add(
            self.completed@.to_multiset(),
        ) == self.submitted@.to_multiset()
    }

    /// Shutdown has begun and no job is waiting or running any more.
    pub open spec fn is_drained(&self) -> bool {
        self.closed && self.pending@.len() == 0 && self.running@.len() == 0
    }

    /// A pool of `size` workers; fails with `InvalidPoolSize` exactly when
    /// `size` is zero.
    pub fn build(size: usize) -> (r: Result<PoolState, Error>)
        ensures
            r is Err <==> size == 0,
            r is Err ==> r->Err_0@ == ErrSpec::InvalidPoolSize,
            r is Ok ==> ({
                let p = r->Ok_0;
                &&& p.wf()
                &&& p.size == size
                &&& !p.closed
                &&& p.pending@ == Seq::<u64>::empty()
                &&& p.running@ == Seq::<u64>::empty()
                &&& p.completed@ == Seq::<u64>::empty()
                &&& p.submitted@ == Seq::<u64>::empty()
            }),
    {
        if size == 0 {
            return Err(Error::InvalidPoolSize);
        }
        let p = PoolState {
            size,
            pending: Vec::new(),
            running: Vec::new(),
            completed: Vec::new(),
            closed: false,
            submitted: Ghost(Seq::empty()),
        };
        proof {
            lemma_empty_seq_multiset(p.pending@);
            assert(p.pending@.to_multiset().add(p.running@.to_multiset()).add(
                p.completed@.to_multiset(),
            ) =~= p.submitted@.to_multiset());
        }
        Ok(p)
    }

    /// Put a fresh job at the back of the queue. Submitting after shutdown
    /// has begun, or submitting a name twice, is a caller error that the
    /// precondition rules out.
    pub fn execute(&mut self, job: u64)
        requires
            old(self).wf(),
            !old(self).closed,
            !old(self).submitted@.contains(job),
        ensures
            final(self).wf(),
            final(self).pending@ == old(self).pending@.push(job),
            final(self).running@ == old(self).running@,
            final(self).completed@ == old(self).completed@,
            final(self).submitted@ == old(self).submitted@.push(job),
            final(self).closed == old(self).closed,
            final(self).size == old(self).size,
    {
        self.pending.push(job);
        self.submitted = Ghost(old(self).submitted@.push(job));
        proof {
            let subs = old(self).submitted@;
            subs.to_multiset_ensures();
            old(self).pending@.to_multiset_ensures();
            assert forall|i: int, j: int|
                0 <= i < subs.push(job).len() && 0 <= j < subs.push(job).len() && i
                    != j implies subs.push(job)[i] != subs.push(job)[j] by {
                if i < subs.len() && j < subs.len() {
                } else if i == subs.len() {
                    assert(subs[j] != job);
                } else {
                    assert(subs[i] != job);
                }
            }
            assert(self.pending@.to_multiset().add(self.running@.to_multiset()).add(
                self.completed@.to_multiset(),
            ) =~= self.submitted@.to_multiset());
        }
    }

    /// Begin shutdown: the queue accepts nothing new; what is queued or
    /// running is unaffected.
    pub fn begin_shutdown(&mut self)
        requires
            old(self).wf(),
        ensures
            final(self).wf(),
            final(self).closed,
            final(self).pending@ == old(self).pending@,
            final(self).running@ == old(self).running@,
            final(self).completed@ == old(self).completed@,
            final(self).submitted@ == old(self).submitted@,
            final(self).size == old(self).size,
    {
        self.closed = true;
    }

    /// A worker takes the front job, if any: the job leaves the queue as it
    /// is taken, so no other worker can ever receive it.
    pub fn next_job(&mut self) -> (r: Option<u64>)
        requires
            old(self).wf(),
        ensures
            final(self).wf(),
            old(self).pending@.len() == 0 ==> r is None && *final(self) == *old(self),
            old(self).pending@.len() > 0 ==> {
                &&& r == Some(old(self).pending@[0])
                &&& final(self).pending@ == old(self).pending@.drop_first()
                &&& final(self).running@ == old(self).running@.push(old(self).pending@[0])
            },
            final(self).completed@ == old(self).completed@,
            final(self).submitted@ == old(self).submitted@,
            final(self).closed == old(self).closed,
            final(self).size == old(self).size,
    {
        if self.pending.len() == 0 {
            return None;
        }
        let job = self.pending.remove(0);
        self.running.push(job);
        proof {
            old(self).pending@.to_multiset_ensures();
            old(self).running@.to_multiset_ensures();
            assert(self.pending@ =~= old(self).pending@.drop_first());
            assert(self.pending@ == old(self).pending@.remove(0));
            assert(self.pending@.to_multiset() =~= old(self).pending@.to_multiset().remove(job));
            assert(old(self).pending@.to_multiset().count(job) > 0);
            assert(self.pending@.to_multiset().add(self.running@.to_multiset()).add(
                self.completed@.to_multiset(),
            ) =~= self.submitted@.to_multiset());
        }
        Some(job)
    }

    /// A worker reports a job it took as finished: the job moves from
    /// `running` to `completed`, once.
    pub fn finish(&mut self, job: u64)
        requires
            old(self).wf(),
            old(self).running@.contains(job),
        ensures
            final(self).wf(),
            final(self).running@ == old(self).running@.remove_value(job),
            final(self).running@.len() == old(self).running@.len() - 1,
            final(self).completed@ == old(self).completed@.push(job),
            final(self).pending@ == old(self).pending@,
            final(self).submitted@ == old(self).submitted@,
            final(self).closed == old(self).closed,
            final(self).size == old(self).size,
    {
        let n: usize = self.running.len();
        let mut i: usize = 0;
        while i < n
            invariant
                0 <= i <= n,
                n == self.running@.len(),
                forall|j: int| 0 <= j < i ==> self.running@[j] != job,
            ensures
                0 <= i <= n,
                forall|j: int| 0 <= j < i ==> self.running@[j] != job,
                i == n || self.running@[i as int] == job,
            decreases n - i,
        {
            if self.running[i] == job {
                break;
            }
            i = i + 1;
        }
        assert(i < n && self.running@[i as int] == job) by {
            if i == n {
                assert(forall|j: int| 0 <= j < n ==> self.running@[j] != job);
                assert(!self.running@.contains(job));
            }
        }
        let _ = self.running.remove(i);
        self.completed.push(job);
        proof {
            old(self).running@.index_of_first_ensures(job);
            let idx = old(self).running@.index_of_first(job)->0;
            assert(idx == i) by {
                if idx < i {
                    assert(old(self).running@[idx] == job);
                } else if idx > i {
                    assert(old(self).running@[i as int] == job);
                }
            }
            assert(old(self).running@.remove_value(job) == old(self).running@.remove(i as int));
            old(self).running@.to_multiset_ensures();
            old(self).completed@.to_multiset_ensures();
            assert(self.running@.to_multiset() =~= old(self).running@.to_multiset().remove(job));
            assert(old(self).running@.to_multiset().count(job) > 0);
            assert(self.pending@.to_multiset().add(self.running@.to_multiset()).add(
                self.completed@.to_multiset(),
            ) =~= self.submitted@.to_multiset());
        }
    }
}

proof fn lemma_empty_seq_multiset(s: Seq<u64>)
    requires
        s.len() == 0,
    ensures
        s.to_multiset() == Multiset::<u64>::empty(),
{
    s.to_multiset_ensures();
    assert forall|a: u64| s.to_multiset().count(a) == 0 by {
        assert(!s.contains(a));
    }
    assert(s.to_multiset() =~= Multiset::<u64>::empty());
}

/// Once the pool is drained — shutdown begun, queue empty, no worker busy —
/// every job ever submitted has completed exactly once: none was lost, none
/// ran twice.
pub proof fn lemma_drained_pool_completed_every_job(p: PoolState)
    requires
        p.wf(),
        p.is_drained(),
    ensures
        p.completed@.to_multiset() == p.submitted@.to_multiset(),
        p.completed@.no_duplicates(),
        forall|j: u64| #[trigger] p.completed@.contains(j) <==> p.submitted@.contains(j),
{
    lemma_empty_seq_multiset(p.pending@);
    lemma_empty_seq_multiset(p.running@);
    assert(p.completed@.to_multiset() =~= p.pending@.to_multiset().add(
        p.running@.to_multiset(),
    ).add(p.completed@.to_multiset()));
    p.submitted@.lemma_multiset_has_no_duplicates();
    p.completed@.lemma_multiset_has_no_duplicates_conv();
    p.completed@.to_multiset_ensures();
    p.submitted@.to_multiset_ensures();
    assert forall|j: u64| #[trigger] p.completed@.contains(j) <==> p.submitted@.contains(j) by {
        assert(p.completed@.contains(j) <==> p.completed@.to_multiset().count(j) > 0);
        assert(p.submitted@.contains(j) <==> p.submitted@.to_multiset().count(j) > 0);
    }
}

} // verus!
