//! The queues that jobs wait in: one per worker, which others steal from, and one
//! for all.
//!
//! A job is known here by a number. Other threads take jobs out at any time, so what
//! exactly a queue holds is out of sight. What its owner put in and took out is not: a
//! worker's queue keeps that in ghost form, and the shared one gives a receipt for
//! each job.
use crate::sync::flag::{change_to, new_record};
use crate::util::next_pow2;
use concurrent_queue::ConcurrentQueue;
use st3::StealError;
use st3::lifo::{Stealer, Worker};
use vstd::prelude::*;

verus! {

/// The owner's end of st3's work-stealing queue.
#[verifier::external_type_specification]
#[verifier::external_body]
#[verifier::reject_recursive_types(T)]
pub struct ExWorker<T>(st3::lifo::Worker<T>);

/// The thieves' end of st3's work-stealing queue.
#[verifier::external_type_specification]
#[verifier::external_body]
#[verifier::reject_recursive_types(T)]
pub struct ExStealer<T>(st3::lifo::Stealer<T>);

/// The shared queue of concurrent-queue.
#[verifier::external_type_specification]
#[verifier::external_body]
#[verifier::reject_recursive_types(T)]
pub struct ExConcurrentQueue<T>(concurrent_queue::ConcurrentQueue<T>);

/// `st3::lifo::Worker::new`: a new empty queue for `min_capacity` jobs, rounded up to
/// a power of two. It panics above `2^15` on some machines, so larger ones are left
/// out.
#[verifier::external_body]
fn open_deque(min_capacity: usize) -> (r: LocalQueue)
    requires
        min_capacity <= 32768,
    ensures
        r@ == Seq::<usize>::empty(),
        r.pushed() == Seq::<usize>::empty(),
        r.popped() == Seq::<usize>::empty(),
        r.attempts() == Seq::<(Deque, Steal)>::empty(),
        r.limit() == next_pow2(min_capacity as nat),
{
    LocalQueue {
        worker: Worker::new(min_capacity),
        kept: Ghost(Seq::empty()),
        pushed: Ghost(Seq::empty()),
        popped: Ghost(Seq::empty()),
        attempts: Ghost(Seq::empty()),
        limit: Ghost(next_pow2(min_capacity as nat)),
        id: Ghost(vstd::pervasive::arbitrary()),
    }
}

/// `st3::lifo::Worker::stealer`: a thieves' end of the same queue.
#[verifier::external_body]
fn stealer_of(queue: &LocalQueue) -> (r: ThievesEnd)
    ensures
        r.queue() == queue.id(),
{
    ThievesEnd { stealer: queue.worker.stealer(), of: queue.id }
}

/// `st3::lifo::Worker::is_empty`: a queue whose owner has taken out what it put in
/// is empty. Where another one is, thieves have taken all that was left, as only the
/// owner puts jobs in.
#[verifier::external_body]
fn deque_is_empty(queue: &mut LocalQueue) -> (b: bool)
    ensures
        final(queue).same_queue(old(queue)),
        final(queue).pushed() == old(queue).pushed(),
        final(queue).popped() == old(queue).popped(),
        b ==> final(queue)@ == Seq::<usize>::empty(),
        !b ==> final(queue)@ == old(queue)@ && old(queue)@.len() > 0,
{
    queue.worker.is_empty()
}

/// `st3::lifo::Worker::push`: a job goes on top, or comes back where there is no
/// room. There is room as long as fewer jobs than the queue is made for were put in
/// and not taken out by the owner; thieves may have made more.
#[verifier::external_body]
fn deque_push(queue: &mut LocalQueue, job: usize) -> (r: Result<(), usize>)
    ensures
        final(queue).same_queue(old(queue)),
        final(queue).popped() == old(queue).popped(),
        r is Ok ==> final(queue)@ == old(queue)@.push(job) && final(queue).pushed() == old(
            queue,
        ).pushed().push(job),
        r is Err ==> final(queue)@ == old(queue)@ && final(queue).pushed() == old(queue).pushed(),
        r matches Err(back) ==> back == job,
        old(queue).pushed().len() - old(queue).popped().len() < old(queue).limit() ==> r is Ok,
{
    queue.worker.push(job)
}

/// `st3::lifo::Worker::pop`: the job on top. Thieves take from below, so where no job
/// comes they have taken all that was left.
#[verifier::external_body]
fn deque_pop(queue: &mut LocalQueue) -> (r: Option<usize>)
    ensures
        final(queue).same_queue(old(queue)),
        final(queue).pushed() == old(queue).pushed(),
        r matches Some(job) ==> old(queue)@.len() > 0 && job == old(queue)@.last() && final(queue)@
            == old(queue)@.drop_last() && final(queue).popped() == old(queue).popped().push(job),
        r is None ==> final(queue)@ == Seq::<usize>::empty() && final(queue).popped() == old(
            queue,
        ).popped(),
{
    queue.worker.pop()
}

/// What an attempt to steal came to.
#[derive(Debug, Clone, Copy, PartialEq, Eq, Structural)]
pub enum Steal {
    /// A job was stolen.
    Job(usize),
    /// There was none.
    Empty,
    /// Another thief was at it; trying again may help.
    Busy,
}

/// A worker's queue, as owner and thieves see it.
///
/// Its life is all that it holds, one change after the other, from its making on, lowest
/// job first. Which jobs those are is up to the owner and to all thieves. Jobs are plain
/// numbers, so nothing that is queued can depend on it.
pub ghost struct Deque {
    pub id: int,
    pub life: spec_fn(nat) -> Seq<usize>,
}

impl Deque {
    /// At some moment `job` was the lowest, and was taken out.
    pub open spec fn lost(self, job: usize) -> bool {
        exists|n: nat|
            (#[trigger] (self.life)(n)).len() > 0 && (self.life)(n)[0] == job && (self.life)(n + 1)
                == (self.life)(n).skip(1)
    }

    /// At some moment the queue was empty.
    pub open spec fn was_empty(self) -> bool {
        exists|n: nat| (#[trigger] (self.life)(n)).len() == 0
    }
}

/// What an attempt to steal from a queue shows of it.
pub open spec fn stole(victim: Deque, came: Steal) -> bool {
    match came {
        Steal::Job(job) => victim.lost(job),
        Steal::Empty => victim.was_empty(),
        Steal::Busy => true,
    }
}

/// The end of a worker's queue that others steal from.
pub struct ThievesEnd {
    stealer: Stealer<usize>,
    of: Ghost<Deque>,
}

impl ThievesEnd {
    /// The queue that the end belongs to.
    pub closed spec fn queue(&self) -> Deque {
        self.of@
    }
}

/// `st3::lifo::Stealer::steal_and_pop` with a budget of one job, which is returned
/// and not queued: the lowest job of the queue is taken out, unless the queue is empty
/// or another thief is at it.
#[verifier::external_body]
fn steal_one(victim: &ThievesEnd, thief: &Worker<usize>) -> (r: Steal)
    ensures
        stole(victim.queue(), r),
{
    match victim.stealer.steal_and_pop(thief, |_| 1) {
        Ok((job, _)) => Steal::Job(job),
        Err(StealError::Empty) => Steal::Empty,
        Err(StealError::Busy) => Steal::Busy,
    }
}

/// What stands in an `opens_invariants` clause for putting a job into a shared queue. A
/// function puts jobs in, itself or through what it calls, only if its clause lists it.
pub open spec fn put_in() -> int {
    3
}

/// What stands in an `opens_invariants` clause for taking a job out of a shared queue.
pub open spec fn take_out() -> int {
    4
}

/// To put a job in, to take one out, to begin a record and to change a flag are listed
/// apart.
pub proof fn law_uses_of_queues_are_listed_apart(set: bool)
    ensures
        put_in() != take_out(),
        put_in() != new_record(),
        take_out() != new_record(),
        put_in() != change_to(set),
        take_out() != change_to(set),
{
}

/// `ConcurrentQueue::unbounded` of concurrent-queue: an empty shared queue.
#[verifier::external_body]
fn new_injector() -> (r: SharedQueue)
    ensures
        r.contents(0) == Seq::<usize>::empty(),
{
    SharedQueue {
        jobs: ConcurrentQueue::unbounded(),
        life: Ghost(vstd::pervasive::arbitrary()),
    }
}

/// `ConcurrentQueue::push` of concurrent-queue. An unbounded queue takes every job, as
/// its last one, unless it is closed, which a [`SharedQueue`] never is. It does so at a
/// later moment than those on record, all of which came before. No invariant is opened; the
/// clause makes callers list that a job goes in.
#[verifier::external_body]
fn injector_push(queue: &SharedQueue, job: usize, log: &mut PutLog) -> (r: Result<(), usize>)
    ensures
        r is Ok,
        final(log)@.len() == old(log)@.len() + 1,
        final(log)@.drop_last() == old(log)@,
        goes_in_next(old(log)@, *queue, job, final(log)@.last()),
    opens_invariants [ put_in() ]
{
    queue.jobs.push(job).map_err(|e| e.into_inner())
}

/// `ConcurrentQueue::pop` of concurrent-queue: the oldest job, or none where the queue
/// was empty. No invariant is opened; the clause makes callers list that a job comes out.
#[verifier::external_body]
fn injector_pop(queue: &SharedQueue) -> (r: Option<usize>)
    ensures
        r matches Some(job) ==> queue.gave_out(job),
        r is None ==> queue.was_empty(true),
    opens_invariants [ take_out() ]
{
    queue.jobs.pop().ok()
}

/// `ConcurrentQueue::is_empty` of concurrent-queue: whether the queue was empty. Other
/// threads push and pop, so it may be otherwise again.
#[verifier::external_body]
fn injector_is_empty(queue: &SharedQueue) -> (b: bool)
    ensures
        queue.was_empty(b),
    opens_invariants none
{
    queue.jobs.is_empty()
}

/// A worker's own queue. Its owner puts jobs on top and takes them from there; thieves
/// take them from below.
///
/// The view is what the owner put in and may still be there, lowest first: thieves
/// may have taken some from the front.
pub struct LocalQueue {
    worker: Worker<usize>,
    kept: Ghost<Seq<usize>>,
    pushed: Ghost<Seq<usize>>,
    popped: Ghost<Seq<usize>>,
    attempts: Ghost<Seq<(Deque, Steal)>>,
    limit: Ghost<nat>,
    id: Ghost<Deque>,
}

impl View for LocalQueue {
    type V = Seq<usize>;

    closed spec fn view(&self) -> Seq<usize> {
        self.kept@
    }
}

impl LocalQueue {
    /// The jobs that the owner put in, in order.
    pub closed spec fn pushed(&self) -> Seq<usize> {
        self.pushed@
    }

    /// The jobs that the owner took out, in order.
    pub closed spec fn popped(&self) -> Seq<usize> {
        self.popped@
    }

    /// The owner's attempts to steal from others, in order: from which queue, and what
    /// each came to.
    pub closed spec fn attempts(&self) -> Seq<(Deque, Steal)> {
        self.attempts@
    }

    /// How many jobs the queue is made for.
    pub closed spec fn limit(&self) -> nat {
        self.limit@
    }

    /// The queue, as its thieves know it.
    pub closed spec fn id(&self) -> Deque {
        self.id@
    }

    /// The queue is the one that `other` is, and its owner tried to steal nothing
    /// meanwhile.
    pub open spec fn same_queue(&self, other: &LocalQueue) -> bool {
        &&& self.id() == other.id()
        &&& self.limit() == other.limit()
        &&& self.attempts() == other.attempts()
    }

    /// An empty queue for `min_capacity` jobs, or for the next power of two of them.
    pub fn new(min_capacity: usize) -> (r: Self)
        requires
            min_capacity <= 32768,
        ensures
            r@ == Seq::<usize>::empty(),
            r.pushed() == Seq::<usize>::empty(),
            r.popped() == Seq::<usize>::empty(),
            r.attempts() == Seq::<(Deque, Steal)>::empty(),
            r.limit() == next_pow2(min_capacity as nat),
    {
        open_deque(min_capacity)
    }

    /// The end that others steal from.
    pub fn thieves_end(&self) -> (r: ThievesEnd)
        ensures
            r.queue() == self.id(),
    {
        stealer_of(self)
    }

    /// Whether nothing is in the queue. Nothing comes out of one of which that is so
    /// before something is put in.
    pub fn is_empty(&mut self) -> (b: bool)
        ensures
            final(self).same_queue(old(self)),
            final(self).pushed() == old(self).pushed(),
            final(self).popped() == old(self).popped(),
            b ==> final(self)@ == Seq::<usize>::empty(),
            !b ==> final(self)@ == old(self)@ && old(self)@.len() > 0,
    {
        deque_is_empty(self)
    }

    /// Puts a job in; one that does not fit comes back.
    pub fn push(&mut self, job: usize) -> (r: Result<(), usize>)
        ensures
            final(self).same_queue(old(self)),
            final(self).popped() == old(self).popped(),
            match r {
                Ok(_) => final(self)@ == old(self)@.push(job) && final(self).pushed() == old(
                    self,
                ).pushed().push(job),
                Err(back) => back == job && final(self)@ == old(self)@ && final(self).pushed()
                    == old(self).pushed(),
            },
            old(self).pushed().len() - old(self).popped().len() < old(self).limit() ==> r is Ok,
    {
        deque_push(self, job)
    }

    /// Takes out the job that was put in last, unless others got all that was left.
    pub fn pop(&mut self) -> (r: Option<usize>)
        ensures
            final(self).same_queue(old(self)),
            final(self).pushed() == old(self).pushed(),
            match r {
                Some(job) => old(self)@.len() > 0 && job == old(self)@.last() && final(self)@ == old(
                    self,
                )@.drop_last() && final(self).popped() == old(self).popped().push(job),
                None => final(self)@ == Seq::<usize>::empty() && final(self).popped() == old(
                    self,
                ).popped(),
            },
    {
        deque_pop(self)
    }

    /// Tries to steal a job from another worker.
    pub fn steal_from(&mut self, victim: &ThievesEnd) -> (r: Steal)
        ensures
            final(self).id() == old(self).id(),
            final(self).limit() == old(self).limit(),
            final(self)@ == old(self)@,
            final(self).pushed() == old(self).pushed(),
            final(self).popped() == old(self).popped(),
            final(self).attempts() == old(self).attempts().push((victim.queue(), r)),
            stole(victim.queue(), r),
    {
        let r = steal_one(victim, &self.worker);
        self.attempts = Ghost(self.attempts@.push((victim.queue(), r)));
        r
    }
}

/// What a worker puts into its own queue last comes out first, and leaves the queue as
/// it was.
pub proof fn law_last_in_first_out(own: Seq<usize>, job: usize)
    ensures
        own.push(job).last() == job,
        own.push(job).drop_last() == own,
{
    assert(own.push(job).drop_last() =~= own);
}

/// Given for a job that went into the shared queue.
pub struct Receipt {
    job: Ghost<usize>,
}

impl Receipt {
    /// The job.
    pub closed spec fn job(&self) -> usize {
        self.job@
    }
}

/// A job that was put into a shared queue, and the moment of that.
pub ghost struct Put {
    pub queue: SharedQueue,
    pub at: nat,
    pub job: usize,
}

/// The jobs that somebody puts into shared queues, in order.
pub struct PutLog {
    puts: Ghost<Seq<Put>>,
}

impl View for PutLog {
    type V = Seq<Put>;

    closed spec fn view(&self) -> Seq<Put> {
        self.puts@
    }
}

impl PutLog {
    /// Before any job.
    pub fn new() -> (r: Self)
        ensures
            r@ == Seq::<Put>::empty(),
        opens_invariants [ new_record() ]
    {
        PutLog { puts: Ghost(Seq::empty()) }
    }
}

/// `put` is the going in of `job`, later than what is on record of the queue.
pub open spec fn goes_in_next(puts: Seq<Put>, queue: SharedQueue, job: usize, put: Put) -> bool {
    &&& put.queue == queue
    &&& put.job == job
    &&& queue.contents(put.at + 1) == queue.contents(put.at).push(job)
    &&& forall|i: int| 0 <= i < puts.len() && (#[trigger] puts[i]).queue == queue
        ==> puts[i].at < put.at
}

/// The queue that all workers of a pool share.
///
/// Its life is all that it holds, one change after the other, from its making on.
/// Which jobs those are is up to all the threads that use it. Jobs are plain numbers,
/// so nothing that is queued can depend on it.
pub struct SharedQueue {
    jobs: ConcurrentQueue<usize>,
    life: Ghost<spec_fn(nat) -> Seq<usize>>,
}

impl SharedQueue {
    /// The jobs in the queue after `n` changes, oldest first.
    pub closed spec fn contents(&self, n: nat) -> Seq<usize> {
        (self.life@)(n)
    }

    /// At some moment `job` was put in, behind all others.
    pub open spec fn took_in(&self, job: usize) -> bool {
        exists|n: nat| self.contents(n + 1) == (#[trigger] self.contents(n)).push(job)
    }

    /// At some moment `job` was the oldest, and was taken out.
    pub open spec fn gave_out(&self, job: usize) -> bool {
        exists|n: nat|
            (#[trigger] self.contents(n)).len() > 0 && self.contents(n)[0] == job && self.contents(
                n + 1,
            ) == self.contents(n).skip(1)
    }

    /// Whether the queue was `empty`, or was not, at some moment.
    pub open spec fn was_empty(&self, empty: bool) -> bool {
        exists|n: nat| ((#[trigger] self.contents(n)).len() == 0) == empty
    }

    /// An empty queue.
    pub fn new() -> (r: Self)
        ensures
            r.contents(0) == Seq::<usize>::empty(),
    {
        new_injector()
    }

    /// Puts a job in, and nothing else.
    pub fn push(&self, job: usize, log: &mut PutLog) -> (receipt: Receipt)
        ensures
            receipt.job() == job,
            self.took_in(job),
            final(log)@.len() == old(log)@.len() + 1,
            final(log)@.drop_last() == old(log)@,
            goes_in_next(old(log)@, *self, job, final(log)@.last()),
        opens_invariants [ put_in() ]
    {
        let _taken = injector_push(self, job, log);
        assert(self.contents(log@.last().at + 1) == self.contents(log@.last().at).push(job));
        Receipt { job: Ghost(job) }
    }

    /// Takes the oldest job out.
    pub fn pop(&self) -> (r: Option<usize>)
        ensures
            r matches Some(job) ==> self.gave_out(job),
            r is None ==> self.was_empty(true),
        opens_invariants [ take_out() ]
    {
        injector_pop(self)
    }

    /// Whether nothing is in the queue.
    pub fn is_empty(&self) -> (b: bool)
        ensures
            self.was_empty(b),
        opens_invariants none
    {
        injector_is_empty(self)
    }
}

} // verus!
