//! Worker bookkeeping: where jobs wait, and where an idle worker looks for them.
//!
//! A job is known here by a number; what it does is known to whoever runs it.
use crate::pool::latch::{LatchState, OnceLatch};
use crate::pool::queues::{
    Deque, LocalQueue, Put, PutLog, Receipt, SharedQueue, Steal, ThievesEnd, goes_in_next, put_in,
    stole, take_out,
};
use crate::pool::sleep::THREADS_MAX;
use crate::sync::flag::new_record;
use crate::util::{lemma_ceil_log2_least, next_pow2};
use vstd::prelude::*;

verus! {

/// Jobs that a worker's own queue holds before further ones go to the shared one.
pub const LOCAL_DEQUE_CAPACITY: usize = 256;

/// A worker's own queue holds just as many jobs as it is asked to.
proof fn lemma_capacity_is_a_power()
    ensures
        next_pow2(LOCAL_DEQUE_CAPACITY as nat) == LOCAL_DEQUE_CAPACITY,
{
    vstd::arithmetic::power2::lemma2_to64();
    lemma_ceil_log2_least(256, 8);
    lemma_ceil_log2_least(256, 7);
}

/// How many workers a pool gets when `wanted` are asked for.
pub open spec fn pool_size(wanted: nat) -> nat {
    if wanted == 0 {
        1
    } else if wanted > THREADS_MAX {
        THREADS_MAX as nat
    } else {
        wanted
    }
}

/// How many workers a pool gets when `wanted` are asked for: at least one, and
/// no more than the counters can hold.
pub fn worker_count(wanted: usize) -> (n: usize)
    ensures
        n == pool_size(wanted as nat),
        1 <= n <= THREADS_MAX,
{
    wanted.max(1).min(THREADS_MAX)
}

/// A small generator of pseudo-random numbers, for picking where to steal first.
#[derive(Debug)]
pub struct XorShift64Star {
    state: u64,
}

/// The state after `state`.
pub open spec fn xorshift(state: u64) -> u64 {
    let a = state ^ (state >> 12);
    let b = a ^ (a << 25);
    b ^ (b >> 27)
}

/// The multiplier that spreads a state over the number it gives.
pub const STAR_MULTIPLIER: u64 = 0x2545_f491_4f6c_dd1d;

/// A state that is not zero is followed by one that is not.
pub proof fn law_xorshift_never_zero(state: u64)
    requires
        state != 0,
    ensures
        xorshift(state) != 0,
{
    assert(state != 0 ==> state ^ (state >> 12) != 0) by (bit_vector);
    let a = state ^ (state >> 12);
    assert(a != 0 ==> a ^ (a << 25) != 0) by (bit_vector);
    let b = a ^ (a << 25);
    assert(b != 0 ==> b ^ (b >> 27) != 0) by (bit_vector);
}

impl View for XorShift64Star {
    type V = u64;

    closed spec fn view(&self) -> u64 {
        self.state
    }
}

impl XorShift64Star {
    /// A generator that starts from `seed`; zero is no start.
    pub fn from_seed(seed: u64) -> (r: Option<Self>)
        ensures
            r is Some == (seed != 0),
            r matches Some(rng) ==> rng@ == seed,
    {
        if seed == 0 {
            None
        } else {
            Some(XorShift64Star { state: seed })
        }
    }

    /// The next number.
    pub fn next(&mut self) -> (r: u64)
        requires
            old(self)@ != 0,
        ensures
            final(self)@ == xorshift(old(self)@),
            final(self)@ != 0,
            r == (final(self)@ * STAR_MULTIPLIER) % 0x1_0000_0000_0000_0000,
    {
        proof {
            law_xorshift_never_zero(self.state);
        }
        let mut x: u64 = self.state;
        x = x ^ (x >> 12);
        x = x ^ (x << 25);
        x = x ^ (x >> 27);
        self.state = x;
        x.wrapping_mul(STAR_MULTIPLIER)
    }

    /// The next number, brought below `n`.
    pub fn next_usize(&mut self, n: usize) -> (r: usize)
        requires
            old(self)@ != 0,
            n > 0,
        ensures
            final(self)@ == xorshift(old(self)@),
            final(self)@ != 0,
            r == (final(self)@ * STAR_MULTIPLIER) % 0x1_0000_0000_0000_0000 % (n as int),
            r < n,
    {
        (self.next() % (n as u64)) as usize
    }
}

/// All workers in turn, from `start` on.
pub open spec fn rotation(num_threads: nat, start: nat) -> Seq<usize> {
    Seq::new(
        num_threads,
        |k: int|
            (if start + k < num_threads {
                start + k
            } else {
                start + k - num_threads
            }) as usize,
    )
}

/// Everybody but worker `me`.
pub open spec fn other_than(me: usize) -> spec_fn(usize) -> bool {
    |i: usize| i != me
}

/// Whom worker `me` steals from, in this order: everybody else, from `start` on.
pub open spec fn victim_order(num_threads: nat, start: nat, me: usize) -> Seq<usize> {
    rotation(num_threads, start).filter(other_than(me))
}

/// Every other worker is tried exactly once, wherever the round starts.
pub proof fn law_everyone_else_is_tried_once(num_threads: nat, start: nat, me: usize)
    requires
        start < num_threads <= usize::MAX,
    ensures
        victim_order(num_threads, start, me).no_duplicates(),
        forall|i: usize| #[trigger]
            victim_order(num_threads, start, me).contains(i) <==> i < num_threads && i != me,
{
    let all = rotation(num_threads, start);
    let keep = other_than(me);
    assert(all.no_duplicates());
    broadcast use vstd::seq_lib::group_filter_ensures;

    lemma_filter_no_duplicates(all, keep);
    assert forall|i: usize| #[trigger] victim_order(num_threads, start, me).contains(i) <==> i
        < num_threads && i != me by {
        if i < num_threads && i != me {
            let k = if i >= start {
                i - start
            } else {
                i - start + num_threads
            };
            assert(all[k] == i);
            assert(all.filter(keep).contains(all[k]));
        }
        if all.filter(keep).contains(i) {
            let j = all.filter(keep).index_of(i);
            assert(all.contains(all.filter(keep)[j]));
            let k = all.index_of(i);
            assert(all[k] == i);
        }
    }
}

proof fn lemma_filter_no_duplicates<A>(s: Seq<A>, keep: spec_fn(A) -> bool)
    requires
        s.no_duplicates(),
    ensures
        s.filter(keep).no_duplicates(),
        forall|a: A| #[trigger] s.filter(keep).contains(a) ==> s.contains(a) && keep(a),
    decreases s.len(),
{
    reveal(Seq::filter);
    if s.len() > 0 {
        let prev = s.drop_last();
        lemma_filter_no_duplicates(prev, keep);
        let kept = prev.filter(keep);
        assert forall|a: A| #[trigger] s.filter(keep).contains(a) implies s.contains(a) && keep(a) by {
            let j = s.filter(keep).index_of(a);
            assert(s.filter(keep)[j] == a);
            if j < kept.len() {
                assert(kept.contains(a));
                assert(prev.contains(a));
                let k = prev.index_of(a);
                assert(s[k] == a);
            } else {
                assert(s[s.len() - 1] == a);
            }
        }
        if keep(s.last()) {
            assert forall|i: int, j: int| 0 <= i < j < s.filter(keep).len() implies s.filter(keep)[i]
                != s.filter(keep)[j] by {
                if j == kept.len() {
                    assert(kept.contains(kept[i]));
                    assert(prev.contains(kept[i]));
                    let k = prev.index_of(kept[i]);
                    assert(s[k] == kept[i]);
                }
            }
        }
    }
}

/// Whom worker `me` steals from, in this order.
pub fn victims(num_threads: usize, start: usize, me: usize) -> (r: Vec<usize>)
    requires
        start < num_threads,
    ensures
        r@ == victim_order(num_threads as nat, start as nat, me),
{
    let ghost all = rotation(num_threads as nat, start as nat);
    let ghost keep = other_than(me);
    let mut r: Vec<usize> = Vec::with_capacity(num_threads);
    proof {
        reveal(Seq::filter);
        assert(all.take(0).filter(keep) =~= Seq::<usize>::empty());
    }
    for k in 0..num_threads
        invariant
            start < num_threads,
            all == rotation(num_threads as nat, start as nat),
            keep == other_than(me),
            r@ == all.take(k as int).filter(keep),
    {
        let i: usize = if k < num_threads - start {
            start + k
        } else {
            k - (num_threads - start)
        };
        proof {
            assert(all[k as int] == i);
            assert(all.take(k + 1) =~= all.take(k as int).push(i));
            all.take(k as int).lemma_filter_push(i, keep);
        }
        if i != me {
            r.push(i);
        }
    }
    assert(all.take(num_threads as int) =~= all);
    r
}

/// The queues that all workers of a pool share.
pub struct Registry {
    stealers: Vec<ThievesEnd>,
    injected_jobs: SharedQueue,
}

/// A worker's own queue and what it needs to look for work elsewhere.
pub struct WorkerThread {
    queue: LocalQueue,
    index: usize,
    rng: XorShift64Star,
}

/// Where a job was queued, and whether that queue was empty before.
pub enum Posted {
    /// In the worker's own queue.
    Local { queue_was_empty: bool },
    /// In the shared queue.
    Injected { queue_was_empty: bool, receipt: Receipt },
}

/// Where a job was found.
#[derive(Debug, Clone, Copy, PartialEq, Eq, Structural)]
pub enum Source {
    /// In the worker's own queue.
    Local,
    /// In the shared queue.
    Injected,
    /// In the queue of the worker with this index.
    Stolen(usize),
}

impl Registry {
    /// How many workers there are.
    pub closed spec fn size(&self) -> nat {
        self.stealers@.len()
    }

    /// The queue of the worker with index `i`.
    pub closed spec fn queue_of(&self, i: int) -> Deque {
        self.stealers@[i].queue()
    }

    /// The queue that all workers share.
    pub closed spec fn shared(&self) -> SharedQueue {
        self.injected_jobs
    }

    /// The queues of a pool that was asked for `num_threads` workers, and the
    /// workers' ends of them. `seed` starts the workers' generators.
    pub fn new(num_threads: usize, seed: u64) -> (r: (Registry, Vec<WorkerThread>))
        requires
            seed != 0,
        ensures
            r.0.size() == pool_size(num_threads as nat),
            r.1@.len() == r.0.size(),
            forall|i: int|
                0 <= i < r.1@.len() ==> (#[trigger] r.1@[i]).wf() && r.1@[i].number() == i
                    && r.1@[i].queue_id() == r.0.queue_of(i)
                    && r.1@[i].own().len() == 0 && r.1@[i].pushed().len() == 0
                    && r.1@[i].popped().len() == 0 && r.1@[i].attempts().len() == 0,
            r.0.shared().contents(0) == Seq::<usize>::empty(),
    {
        proof {
            lemma_capacity_is_a_power();
        }
        let n: usize = worker_count(num_threads);
        let mut stealers: Vec<ThievesEnd> = Vec::with_capacity(n);
        let mut workers: Vec<WorkerThread> = Vec::with_capacity(n);
        let mut state: u64 = seed;
        for index in 0..n
            invariant
                stealers@.len() == index,
                workers@.len() == index,
                state != 0,
                forall|i: int|
                    0 <= i < index ==> (#[trigger] workers@[i]).wf() && workers@[i].number() == i
                        && workers@[i].queue_id() == stealers@[i].queue()
                        && workers@[i].own().len() == 0 && workers@[i].pushed().len() == 0
                        && workers@[i].popped().len() == 0 && workers@[i].attempts().len() == 0,
                next_pow2(LOCAL_DEQUE_CAPACITY as nat) == LOCAL_DEQUE_CAPACITY,
        {
            let queue = LocalQueue::new(LOCAL_DEQUE_CAPACITY);
            stealers.push(queue.thieves_end());
            let mut rng = XorShift64Star { state };
            let _skipped: u64 = rng.next();
            state = rng.state;
            workers.push(WorkerThread { queue, index, rng });
        }
        (Registry { stealers, injected_jobs: SharedQueue::new() }, workers)
    }

    /// How many workers there are.
    pub fn num_threads(&self) -> (n: usize)
        ensures
            n == self.size(),
    {
        self.stealers.len()
    }

    /// Queues a job from outside the pool; returns whether the shared queue was
    /// empty before, and the receipt for the job.
    pub fn inject(&self, job: usize) -> (r: (bool, Receipt))
        ensures
            self.shared().was_empty(r.0),
            r.1.job() == job,
            self.shared().took_in(job),
        opens_invariants [ put_in(), new_record() ]
    {
        let mut log = PutLog::new();
        self.inject_on_record(job, &mut log)
    }

    /// Queues a job from outside the pool, once: nothing is put in but on this record, and
    /// nothing is taken out.
    pub fn inject_on_record(&self, job: usize, log: &mut PutLog) -> (r: (bool, Receipt))
        ensures
            self.shared().was_empty(r.0),
            r.1.job() == job,
            self.shared().took_in(job),
            queued_in_order(self.shared(), old(log)@, seq![job], final(log)@),
        opens_invariants [ put_in() ]
    {
        let queue_was_empty: bool = self.injected_jobs.is_empty();
        let receipt = self.injected_jobs.push(job, log);
        assert(old(log)@ =~= log@.take(old(log)@.len() as int));
        (queue_was_empty, receipt)
    }

    /// Queues several jobs from outside the pool, in order; returns whether the
    /// shared queue was empty before, and the receipts for the jobs.
    pub fn inject_batch(&self, jobs: Vec<usize>) -> (r: (bool, Vec<Receipt>))
        ensures
            r.1@.len() == jobs@.len(),
            self.shared().was_empty(r.0),
            forall|i: int| 0 <= i < jobs@.len() ==> (#[trigger] r.1@[i]).job() == jobs@[i],
            forall|i: int| 0 <= i < jobs@.len() ==> self.shared().took_in(#[trigger] jobs@[i]),
    {
        let mut log = PutLog::new();
        self.inject_batch_on_record(jobs, &mut log)
    }

    /// Queues several jobs from outside the pool, each once and one after the other.
    pub fn inject_batch_on_record(&self, jobs: Vec<usize>, log: &mut PutLog) -> (r: (
        bool,
        Vec<Receipt>,
    ))
        ensures
            r.1@.len() == jobs@.len(),
            self.shared().was_empty(r.0),
            forall|i: int| 0 <= i < jobs@.len() ==> (#[trigger] r.1@[i]).job() == jobs@[i],
            forall|i: int| 0 <= i < jobs@.len() ==> self.shared().took_in(#[trigger] jobs@[i]),
            queued_in_order(self.shared(), old(log)@, jobs@, final(log)@),
    {
        let queue_was_empty: bool = self.injected_jobs.is_empty();
        let ghost all = jobs@;
        let ghost before = log@;
        let mut receipts: Vec<Receipt> = Vec::new();
        assert(before =~= log@.take(before.len() as int));
        for job in it: jobs
            invariant
                it.seq() == all,
                receipts@.len() == it.index(),
                before == old(log)@,
                forall|i: int|
                    0 <= i < receipts@.len() ==> (#[trigger] receipts@[i]).job() == all[i],
                forall|i: int|
                    0 <= i < receipts@.len() ==> self.shared().took_in(#[trigger] all[i]),
                queued_in_order(self.shared(), before, all.take(it.index() as int), log@),
        {
            let ghost i = it.index() as int;
            let ghost puts = log@;
            receipts.push(self.injected_jobs.push(job, log));
            proof {
                assert(log@ =~= puts.push(log@.last()));
                assert(before =~= log@.take(before.len() as int)) by {
                    assert forall|k: int| 0 <= k < before.len() implies before[k] == log@[k] by {
                        assert(before[k] == puts[k]);
                    }
                }
                assert forall|k: int| before.len() <= k < log@.len() implies goes_in_next(
                    log@.take(k),
                    self.shared(),
                    all.take(i + 1)[k - before.len()],
                    #[trigger] log@[k],
                ) by {
                    if k < puts.len() {
                        assert(log@.take(k) =~= puts.take(k));
                        assert(log@[k] == puts[k]);
                    } else {
                        assert(log@.take(k) =~= puts);
                    }
                }
            }
        }
        assert(all.take(all.len() as int) =~= all);
        (queue_was_empty, receipts)
    }

    /// Whether a job waits in the shared queue.
    pub fn has_injected_job(&self) -> (b: bool)
        ensures
            self.shared().was_empty(!b),
        opens_invariants none
    {
        !self.injected_jobs.is_empty()
    }

    /// Takes the oldest job from the shared queue.
    pub fn pop_injected_job(&self) -> (r: Option<usize>)
        ensures
            r matches Some(job) ==> self.shared().gave_out(job),
            r is None ==> self.shared().was_empty(true),
        opens_invariants [ take_out() ]
    {
        self.injected_jobs.pop()
    }
}

/// Since `before` the jobs went into the queue, each once and one after the other, and
/// nothing else did that is on record.
pub open spec fn queued_in_order(
    queue: SharedQueue,
    before: Seq<Put>,
    jobs: Seq<usize>,
    after: Seq<Put>,
) -> bool {
    &&& before.is_prefix_of(after)
    &&& after.len() == before.len() + jobs.len()
    &&& forall|k: int|
        before.len() <= k < after.len() ==> goes_in_next(
            after.take(k),
            queue,
            jobs[k - before.len()],
            #[trigger] after[k],
        )
}

impl WorkerThread {
    /// The worker's index.
    pub closed spec fn number(&self) -> nat {
        self.index as nat
    }

    /// The generator can go on, and the worker's own queue has the usual size.
    pub closed spec fn wf(&self) -> bool {
        self.rng@ != 0 && self.queue.limit() == LOCAL_DEQUE_CAPACITY
    }

    /// The jobs in the worker's own queue, last one put in last; others may have
    /// taken some from the front.
    pub closed spec fn own(&self) -> Seq<usize> {
        self.queue@
    }

    /// The jobs that the worker put into its own queue, in order.
    pub closed spec fn pushed(&self) -> Seq<usize> {
        self.queue.pushed()
    }

    /// The jobs that the worker took out of its own queue, in order.
    pub closed spec fn popped(&self) -> Seq<usize> {
        self.queue.popped()
    }

    /// The worker's own queue, as its thieves know it.
    pub closed spec fn queue_id(&self) -> Deque {
        self.queue.id()
    }

    /// The worker's attempts to steal from others, in order: from which queue, and
    /// what each came to.
    pub closed spec fn attempts(&self) -> Seq<(Deque, Steal)> {
        self.queue.attempts()
    }

    /// The worker is the one that `other` is.
    pub open spec fn same_worker(&self, other: &WorkerThread) -> bool {
        self.number() == other.number() && self.queue_id() == other.queue_id()
    }

    /// The worker's index.
    pub fn index(&self) -> (i: usize)
        ensures
            i == self.number(),
    {
        self.index
    }

    /// Queues a job of this worker: in its own queue, or in the shared one where
    /// the own one is full. Where the own one turns out to be empty, others took what
    /// was left in it.
    pub fn push(&mut self, registry: &Registry, job: usize) -> (posted: Posted)
        requires
            old(self).wf(),
        ensures
            final(self).wf(),
            final(self).same_worker(old(self)),
            final(self).popped() == old(self).popped(),
            final(self).attempts() == old(self).attempts(),
            match posted {
                Posted::Local { queue_was_empty: true } => final(self).own() == seq![job]
                    && final(self).pushed() == old(self).pushed().push(job),
                Posted::Local { queue_was_empty: false } => old(self).own().len() > 0
                    && final(self).own() == old(self).own().push(job) && final(self).pushed()
                    == old(self).pushed().push(job),
                Posted::Injected { queue_was_empty, receipt } => (final(self).own() == old(
                    self,
                ).own() || final(self).own() == Seq::<usize>::empty()) && final(self).pushed()
                    == old(self).pushed() && receipt.job() == job && registry.shared().took_in(job)
                    && registry.shared().was_empty(queue_was_empty),
            },
            old(self).pushed().len() - old(self).popped().len() < LOCAL_DEQUE_CAPACITY
                ==> posted is Local,
    {
        let queue_was_empty: bool = self.queue.is_empty();
        match self.queue.push(job) {
            Ok(_) => {
                assert(queue_was_empty ==> self.own() =~= seq![job]);
                Posted::Local { queue_was_empty }
            },
            Err(overflow) => {
                let (queue_was_empty, receipt) = registry.inject(overflow);
                Posted::Injected { queue_was_empty, receipt }
            },
        }
    }

    /// Whether the worker's own queue is empty. Nothing comes out of one of which that
    /// is so before the worker puts something in.
    pub fn local_deque_is_empty(&mut self) -> (b: bool)
        requires
            old(self).wf(),
        ensures
            final(self).wf(),
            final(self).same_worker(old(self)),
            final(self).pushed() == old(self).pushed(),
            final(self).popped() == old(self).popped(),
            final(self).attempts() == old(self).attempts(),
            b ==> final(self).own() == Seq::<usize>::empty(),
            !b ==> final(self).own() == old(self).own() && old(self).own().len() > 0,
    {
        self.queue.is_empty()
    }

    /// Takes the job that was put last into the worker's own queue, unless others
    /// took all that was left.
    pub fn take_local_job(&mut self) -> (r: Option<usize>)
        requires
            old(self).wf(),
        ensures
            final(self).wf(),
            final(self).same_worker(old(self)),
            final(self).pushed() == old(self).pushed(),
            final(self).attempts() == old(self).attempts(),
            match r {
                Some(job) => old(self).own().len() > 0 && job == old(self).own().last()
                    && final(self).own() == old(self).own().drop_last() && final(self).popped()
                    == old(self).popped().push(job),
                None => final(self).own() == Seq::<usize>::empty() && final(self).popped() == old(
                    self,
                ).popped(),
            },
    {
        self.queue.pop()
    }

    /// Looks for a job: in the worker's own queue, then in the shared one, then in
    /// those of the others.
    pub fn find_work(&mut self, registry: &Registry) -> (r: Option<(usize, Source)>)
        requires
            old(self).wf(),
        ensures
            final(self).wf(),
            final(self).same_worker(old(self)),
            final(self).pushed() == old(self).pushed(),
            old(self).attempts().is_prefix_of(final(self).attempts()),
            match r {
                Some((job, Source::Local)) => old(self).own().len() > 0 && job == old(
                    self,
                ).own().last() && final(self).own() == old(self).own().drop_last()
                    && final(self).popped() == old(self).popped().push(job),
                _ => final(self).own() == Seq::<usize>::empty() && final(self).popped() == old(
                    self,
                ).popped(),
            },
            ({
                let tries = final(self).attempts().skip(old(self).attempts().len() as int);
                match r {
                    Some((_, Source::Local)) => tries.len() == 0,
                    Some((job, Source::Injected)) => tries.len() == 0 && registry.shared().gave_out(
                        job,
                    ),
                    Some((job, Source::Stolen(victim))) => registry.shared().was_empty(true)
                        && went_round(registry, old(self).number(), tries, Some((job, victim))),
                    None => registry.shared().was_empty(true) && went_round(
                        registry,
                        old(self).number(),
                        tries,
                        None,
                    ),
                }
            }),
    {
        if let Some(job) = self.take_local_job() {
            return Some((job, Source::Local));
        }
        if let Some(job) = registry.pop_injected_job() {
            return Some((job, Source::Injected));
        }
        match self.steal(registry) {
            Some((job, victim)) => Some((job, Source::Stolen(victim))),
            None => None,
        }
    }

    /// Tries to steal a job from every other worker in turn, from a random one on,
    /// and again as long as another thief was in the way.
    pub fn steal(&mut self, registry: &Registry) -> (r: Option<(usize, usize)>)
        requires
            old(self).wf(),
        ensures
            final(self).wf(),
            final(self).same_worker(old(self)),
            final(self).own() == old(self).own(),
            final(self).pushed() == old(self).pushed(),
            final(self).popped() == old(self).popped(),
            old(self).attempts().is_prefix_of(final(self).attempts()),
            went_round(
                registry,
                old(self).number(),
                final(self).attempts().skip(old(self).attempts().len() as int),
                r,
            ),
    {
        let num_threads: usize = registry.stealers.len();
        let ghost start_log = self.attempts();
        let ghost mut tries: Seq<(Deque, Steal)> = Seq::empty();
        proof {
            assert(start_log.skip(start_log.len() as int) =~= tries);
            assert(start_log + tries =~= start_log);
        }
        if num_threads <= 1 {
            return None;
        }
        for round in 0..u64::MAX
            invariant
                start_log == old(self).attempts(),
                self.wf(),
                self.same_worker(old(self)),
                self.own() == old(self).own(),
                self.pushed() == old(self).pushed(),
                self.popped() == old(self).popped(),
                self.attempts() == start_log + tries,
                no_job(tries),
                truly_tried(tries),
                tries.len() >= round,
                num_threads == registry.stealers@.len(),
                num_threads > 1,
        {
            let start: usize = self.rng.next_usize(num_threads);
            let order = victims(num_threads, start, self.index);
            proof {
                law_everyone_else_is_tried_once(num_threads as nat, start as nat, self.index);
                let other: usize = if self.index == 0 {
                    1
                } else {
                    0
                };
                assert(order@.contains(other));
            }
            let mut retry: bool = false;
            let tried: usize = order.len();
            let ghost before = tries;
            for k in 0..tried
                invariant
                    start_log == old(self).attempts(),
                    self.wf(),
                    self.same_worker(old(self)),
                    self.own() == old(self).own(),
                    self.pushed() == old(self).pushed(),
                    self.popped() == old(self).popped(),
                    self.attempts() == start_log + tries,
                    no_job(tries),
                    truly_tried(tries),
                    tries.len() == before.len() + k,
                    !retry ==> forall|j: int|
                        before.len() <= j < tries.len() ==> #[trigger] tries[j] == (
                            registry.queue_of(order@[j - before.len()] as int),
                            Steal::Empty,
                        ),
                    num_threads == registry.stealers@.len(),
                    num_threads > 1,
                    tried == order@.len(),
                    start < num_threads,
                    order@ == victim_order(num_threads as nat, start as nat, self.index),
                    forall|i: usize| #[trigger]
                        order@.contains(i) <==> i < num_threads && i != self.index,
            {
                let victim: usize = order[k];
                assert(order@.contains(victim));
                let ghost earlier = tries;
                let came = self.queue.steal_from(&registry.stealers[victim]);
                proof {
                    let entry = (registry.queue_of(victim as int), came);
                    assert((start_log + tries).push(entry) =~= start_log + tries.push(entry));
                    tries = tries.push(entry);
                    assert(tries.drop_last() =~= earlier);
                    assert(self.attempts().skip(start_log.len() as int) =~= tries);
                    if !(came is Job) {
                        assert(no_job(tries));
                    }
                }
                match came {
                    Steal::Job(job) => {
                        return Some((job, victim));
                    },
                    Steal::Empty => {},
                    Steal::Busy => {
                        retry = true;
                    },
                }
            }
            if !retry {
                proof {
                    let last = empty_round(registry, self.index, start as nat);
                    let rest = tries.subrange(before.len() as int, tries.len() as int);
                    assert forall|i: int| 0 <= i < last.len() implies last[i] == rest[i] by {
                        assert(rest[i] == tries[before.len() + i]);
                    }
                    assert(last =~= rest);
                    assert(old(self).number() as usize == self.index);
                    assert(last.is_suffix_of(tries));
                    assert(self.attempts().skip(start_log.len() as int) =~= tries);
                }
                return None;
            }
        }
        assert(self.attempts().skip(start_log.len() as int) =~= tries);
        None
    }
}

/// Each attempt came to what the queue had for it.
pub open spec fn truly_tried(tries: Seq<(Deque, Steal)>) -> bool {
    forall|i: int| 0 <= i < tries.len() ==> stole((#[trigger] tries[i]).0, tries[i].1)
}

/// None of the attempts came to a job.
pub open spec fn no_job(tries: Seq<(Deque, Steal)>) -> bool {
    forall|i: int| 0 <= i < tries.len() ==> !((#[trigger] tries[i]).1 is Job)
}

/// The attempts of a round of worker `me` from `start` on in which every queue turned
/// out to be empty.
pub open spec fn empty_round(registry: &Registry, me: usize, start: nat) -> Seq<(Deque, Steal)> {
    let order = victim_order(registry.size(), start, me);
    Seq::new(order.len(), |k: int| (registry.queue_of(order[k] as int), Steal::Empty))
}

/// Worker `me` went round and truly made the attempts `tries`, of which `r` is what came: the
/// job of the last attempt, from another worker, where that came to one. No earlier one
/// did. Where none came, the last round found every other queue empty, or there have
/// been too many rounds to count. A worker that is alone tries nothing.
pub open spec fn went_round(
    registry: &Registry,
    me: nat,
    tries: Seq<(Deque, Steal)>,
    r: Option<(usize, usize)>,
) -> bool {
    truly_tried(tries) && match r {
        Some((job, victim)) => {
            &&& victim < registry.size()
            &&& victim != me
            &&& tries.len() > 0
            &&& tries.last() == (registry.queue_of(victim as int), Steal::Job(job))
            &&& no_job(tries.drop_last())
        },
        None => {
            &&& no_job(tries)
            &&& registry.size() <= 1 ==> tries.len() == 0
            &&& registry.size() > 1 ==> tries.len() >= u64::MAX || exists|start: nat|
                start < registry.size() && (#[trigger] empty_round(
                    registry,
                    me as usize,
                    start,
                )).is_suffix_of(tries)
        },
    }
}

/// What the worker that forked off a job does while it waits for it.
#[derive(Debug, Clone, Copy, PartialEq, Eq, Structural)]
pub enum JoinAction {
    /// The job is done: take its result.
    TakeResult,
    /// The job came back from the worker's own queue: run it right here.
    RunInline,
    /// Another job came back: run that one and look again.
    Execute(usize),
    /// The job was stolen: work for others until it is done.
    WaitAndSteal,
}

/// What the worker that forked off `job` does, given whether that is done and what
/// came from the worker's own queue.
pub fn join_step(job: usize, is_done: bool, popped: Option<usize>) -> (action: JoinAction)
    ensures
        is_done <==> action == JoinAction::TakeResult,
        !is_done && popped == Some(job) <==> action == JoinAction::RunInline,
        !is_done && popped is None <==> action == JoinAction::WaitAndSteal,
        action matches JoinAction::Execute(other) ==> popped == Some(other) && other != job,
{
    if is_done {
        return JoinAction::TakeResult;
    }
    match popped {
        Some(other) => if other == job {
            JoinAction::RunInline
        } else {
            JoinAction::Execute(other)
        },
        None => JoinAction::WaitAndSteal,
    }
}

/// Who still needs the workers.
#[derive(Debug)]
pub struct TerminateCount {
    count: usize,
}

impl TerminateCount {
    /// How many still need them.
    pub closed spec fn holders(&self) -> nat {
        self.count as nat
    }

    /// One holder.
    pub fn new() -> (r: Self)
        ensures
            r.holders() == 1,
    {
        TerminateCount { count: 1 }
    }

    /// One more holder. There has to be one already.
    pub fn increment_terminate_count(&mut self)
        requires
            0 < old(self).holders() < usize::MAX,
        ensures
            final(self).holders() == old(self).holders() + 1,
    {
        self.count = self.count + 1;
    }

    /// One holder less. The last one ends the workers: their latches are set, and
    /// those that sleep are returned, to be woken.
    pub fn terminate(&mut self, latches: &mut Vec<OnceLatch>) -> (wake: Vec<usize>)
        requires
            old(self).holders() > 0,
        ensures
            final(self).holders() == old(self).holders() - 1,
            final(latches)@.len() == old(latches)@.len(),
            final(self).holders() > 0 ==> wake@.len() == 0 && final(latches)@ == old(latches)@,
            final(self).holders() == 0 ==> forall|i: int|
                0 <= i < final(latches)@.len() ==> (#[trigger] final(latches)@[i]).core@
                    == LatchState::Signalled,
            final(self).holders() == 0 ==> forall|i: usize| #[trigger]
                wake@.contains(i) <==> i < old(latches)@.len() && old(latches)@[i as int].core@
                    == LatchState::Sleeping,
    {
        self.count = self.count - 1;
        let mut wake: Vec<usize> = Vec::new();
        if self.count > 0 {
            return wake;
        }
        let n: usize = latches.len();
        for i in 0..n
            invariant
                n == latches@.len() == old(latches)@.len(),
                forall|j: int|
                    0 <= j < i ==> (#[trigger] latches@[j]).core@ == LatchState::Signalled,
                forall|j: int| i <= j < n ==> #[trigger] latches@[j] == old(latches)@[j],
                forall|j: usize| #[trigger]
                    wake@.contains(j) <==> j < i && old(latches)@[j as int].core@
                        == LatchState::Sleeping,
        {
            let ghost before = wake@;
            assert(latches@[i as int] == old(latches)@[i as int]);
            match latches[i].set_and_tickle_one(i) {
                Some(worker) => {
                    wake.push(worker);
                    assert forall|j: usize| #[trigger] wake@.contains(j) <==> before.contains(j) || j
                        == i by {
                        if before.contains(j) {
                            let k = before.index_of(j);
                            assert(wake@[k] == j);
                        }
                        assert(wake@[before.len() as int] == i);
                    }
                },
                None => {},
            }
        }
        wake
    }
}

/// A pool has as many workers as are asked for, but at least one, and no more than can be
/// counted.
pub proof fn law_a_pool_has_the_workers_it_is_asked_for(wanted: nat)
    ensures
        1 <= pool_size(wanted) <= THREADS_MAX,
        1 <= wanted <= THREADS_MAX ==> pool_size(wanted) == wanted,
        wanted > THREADS_MAX ==> pool_size(wanted) == THREADS_MAX,
{
}

/// A round goes from one worker to the next, and from the last to the first.
pub proof fn law_a_round_goes_in_turn(num_threads: nat, start: nat, k: int)
    requires
        start < num_threads <= usize::MAX,
        0 <= k < num_threads,
    ensures
        rotation(num_threads, start).len() == num_threads,
        rotation(num_threads, start)[k] == (start + k) % (num_threads as int),
{
    if start + k < num_threads {
        vstd::arithmetic::div_mod::lemma_small_mod((start + k) as nat, num_threads);
    } else {
        let r = start + k - num_threads;
        vstd::arithmetic::div_mod::lemma_small_mod(r as nat, num_threads);
        vstd::arithmetic::div_mod::lemma_mod_add_multiples_vanish(r, num_threads as int);
    }
}

/// A job that is stolen was the lowest in the queue of another worker. A worker gives up
/// only where it found the queue of every other worker empty, unless there have been too
/// many rounds to count.
pub proof fn law_a_thief_misses_nobody(
    registry: &Registry,
    me: usize,
    tries: Seq<(Deque, Steal)>,
    r: Option<(usize, usize)>,
    other: usize,
)
    requires
        went_round(registry, me as nat, tries, r),
        registry.size() <= usize::MAX,
        tries.len() < u64::MAX,
    ensures
        r matches Some((job, victim)) ==> victim < registry.size() && victim != me
            && registry.queue_of(victim as int).lost(job),
        r is None && other < registry.size() && other != me && registry.size() > 1
            ==> registry.queue_of(other as int).was_empty(),
{
    match r {
        Some((job, victim)) => {
            assert(stole(tries[tries.len() - 1].0, tries[tries.len() - 1].1));
        },
        None => {
            if other < registry.size() && other != me && registry.size() > 1 {
                let start = choose|start: nat|
                    start < registry.size() && (#[trigger] empty_round(
                        registry,
                        me,
                        start,
                    )).is_suffix_of(tries);
                let round = empty_round(registry, me, start);
                law_everyone_else_is_tried_once(registry.size(), start, me);
                let order = victim_order(registry.size(), start, me);
                assert(order.contains(other));
                let k = choose|k: int| 0 <= k < order.len() && order[k] == other;
                let at = tries.len() - round.len() + k;
                assert(tries[at] == round[k]);
                assert(stole(tries[at].0, tries[at].1));
            }
        },
    }
}

/// Jobs that are queued one after the other go in one after the other: each at a moment of
/// its own, behind everything that is in the queue, and later than the one before it.
pub proof fn law_jobs_go_in_one_after_the_other(
    queue: SharedQueue,
    before: Seq<Put>,
    jobs: Seq<usize>,
    after: Seq<Put>,
    j: int,
    k: int,
)
    requires
        queued_in_order(queue, before, jobs, after),
        0 <= j < k < jobs.len(),
    ensures
        after.len() == before.len() + jobs.len(),
        queue.contents(after[before.len() + k].at + 1) == queue.contents(
            after[before.len() + k].at,
        ).push(jobs[k]),
        after[before.len() + j].at < after[before.len() + k].at,
{
    let at = before.len() + k;
    let earlier = before.len() + j;
    assert(goes_in_next(after.take(at), queue, jobs[k], after[at]));
    assert(goes_in_next(after.take(earlier), queue, jobs[j], after[earlier]));
    assert(after.take(at)[earlier] == after[earlier]);
}

/// The generator is linear: the state that follows the sum of two states, bit by bit, is
/// the sum of those that follow them.
pub proof fn law_xorshift_is_linear(a: u64, b: u64)
    ensures
        xorshift(a ^ b) == xorshift(a) ^ xorshift(b),
{
    assert(xorshift(a ^ b) == xorshift(a) ^ xorshift(b)) by (bit_vector);
}

} // verus!
