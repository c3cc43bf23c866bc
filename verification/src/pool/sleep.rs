//! Sleep and wake governance: which idle worker spins, yields or parks, and whom
//! new work wakes.
//!
//! The state is meant to be held by whoever serialises the calls; parking a
//! thread and notifying it is left to that holder.
use crate::pool::latch::{CoreLatch, LatchState};
use crate::pool::sleep_mask::{SleepMask, answered, is_next, law_scan_of_sleepers, scanned};
use vstd::prelude::*;

verus! {

/// Bits of each thread counter.
pub const THREADS_BITS: u64 = 16;

/// The most workers a pool has.
pub const THREADS_MAX: usize = 65535;

/// Where the count of inactive threads starts within the word.
const INACTIVE_SHIFT: u64 = 16;

/// Where the jobs event counter starts within the word.
const JEC_SHIFT: u64 = 32;

/// One sleeping thread.
const ONE_SLEEPING: u64 = 1;

/// One inactive thread.
const ONE_INACTIVE: u64 = 65536;

/// One event of the jobs event counter.
const ONE_JEC: u64 = 4294967296;

/// How many values the jobs event counter takes before it starts over.
pub const JEC_VALUES: u64 = 4294967296;

/// A snapshot of the three counters, packed into a word.
#[derive(Copy, Clone, Debug, PartialEq, Eq, Structural)]
pub struct Counters {
    pub word: u64,
}

/// A value of the jobs event counter. It is even while some worker has announced
/// that it is sleepy and no job was posted since.
#[derive(Copy, Clone, Debug, PartialEq, Eq, Structural)]
pub struct JobsEventCounter(pub u64);

impl JobsEventCounter {
    /// A value that no counter ever has.
    pub open spec fn dummy() -> JobsEventCounter {
        JobsEventCounter(u64::MAX)
    }

    /// Whether a worker is sleepy.
    pub open spec fn sleepy(self) -> bool {
        self.0 % 2 == 0
    }

    /// Whether a worker is sleepy.
    pub fn is_sleepy(self) -> (b: bool)
        ensures
            b == self.sleepy(),
    {
        let x: u64 = self.0;
        assert(x & 1 == x % 2) by (bit_vector);
        (x & 1) == 0
    }

    /// Whether no worker is sleepy.
    pub fn is_active(self) -> (b: bool)
        ensures
            b == !self.sleepy(),
    {
        !self.is_sleepy()
    }

    /// The value after one more event.
    pub open spec fn next(self) -> JobsEventCounter {
        JobsEventCounter(((self.0 + 1) % (JEC_VALUES as int)) as u64)
    }

    /// The value after a worker announced that it is sleepy.
    pub open spec fn announced(self) -> JobsEventCounter {
        if self.sleepy() {
            self
        } else {
            self.next()
        }
    }

    /// The value after jobs were posted.
    pub open spec fn posted(self) -> JobsEventCounter {
        if self.sleepy() {
            self.next()
        } else {
            self
        }
    }
}

/// Posted work is seen: a worker that got sleepy at some value finds another one
/// there once jobs were posted, even if others got sleepy in the meantime.
pub proof fn law_posting_changes_sleepy_value(seen: JobsEventCounter)
    requires
        seen.0 < JEC_VALUES,
        seen.sleepy(),
    ensures
        seen.posted() != seen,
        !seen.posted().sleepy(),
        seen.posted().announced() != seen,
        seen.posted().announced().sleepy(),
{
}

/// No value of the counter is the dummy one.
pub proof fn law_dummy_is_no_value(counters: Counters)
    ensures
        counters.jec() != JobsEventCounter::dummy(),
{
}

impl Counters {
    /// How many threads sleep.
    pub open spec fn sleeping(self) -> nat {
        (self.word % 65536) as nat
    }

    /// How many threads are idle or sleep.
    pub open spec fn inactive(self) -> nat {
        (self.word / 65536 % 65536) as nat
    }

    /// The jobs event counter.
    pub open spec fn jec(self) -> JobsEventCounter {
        JobsEventCounter(self.word / 4294967296)
    }

    /// The three fields make up the word.
    pub proof fn lemma_fields(self)
        ensures
            self.word == self.jec().0 * 4294967296 + self.inactive() * 65536 + self.sleeping(),
            self.jec().0 < JEC_VALUES,
            self.sleeping() <= 65535,
            self.inactive() <= 65535,
    {
    }

    /// A word made up of three fields has those fields.
    pub proof fn lemma_made_of(self, jec: int, inactive: int, sleeping: int)
        requires
            self.word == jec * 4294967296 + inactive * 65536 + sleeping,
            0 <= inactive < 65536,
            0 <= sleeping < 65536,
        ensures
            self.jec().0 == jec,
            self.inactive() == inactive,
            self.sleeping() == sleeping,
    {
        let w = self.word as int;
        let upper = jec * 65536 + inactive;
        assert(w == upper * 65536 + sleeping);
        assert(w / 65536 == upper && w % 65536 == sleeping);
        assert(upper / 65536 == jec && upper % 65536 == inactive);
        assert(w / 4294967296 == jec) by (nonlinear_arith)
            requires
                w == jec * 4294967296 + inactive * 65536 + sleeping,
                0 <= inactive < 65536,
                0 <= sleeping < 65536,
        ;
    }

    /// The jobs event counter.
    pub fn jobs_counter(self) -> (r: JobsEventCounter)
        ensures
            r == self.jec(),
    {
        let word: u64 = self.word;
        assert(word >> 32 == word / 4294967296) by (bit_vector);
        JobsEventCounter(word >> JEC_SHIFT)
    }

    /// How many threads are idle or sleep.
    pub fn inactive_threads(self) -> (r: usize)
        ensures
            r == self.inactive(),
            r <= THREADS_MAX,
    {
        let word: u64 = self.word;
        assert((word >> 16) & 65535 == word / 65536 % 65536) by (bit_vector);
        ((word >> INACTIVE_SHIFT) & (THREADS_MAX as u64)) as usize
    }

    /// How many threads sleep.
    pub fn sleeping_threads(self) -> (r: usize)
        ensures
            r == self.sleeping(),
            r <= THREADS_MAX,
    {
        let word: u64 = self.word;
        assert(word & 65535 == word % 65536) by (bit_vector);
        (word & (THREADS_MAX as u64)) as usize
    }

    /// How many threads are idle but awake.
    pub fn awake_but_idle_threads(self) -> (r: usize)
        requires
            self.sleeping() <= self.inactive(),
        ensures
            r == self.inactive() - self.sleeping(),
    {
        self.inactive_threads() - self.sleeping_threads()
    }
}

/// The counters of a pool.
pub struct AtomicCounters {
    value: u64,
}

impl View for AtomicCounters {
    type V = Counters;

    closed spec fn view(&self) -> Counters {
        Counters { word: self.value }
    }
}

impl AtomicCounters {
    /// Counters at zero.
    pub fn new() -> (r: Self)
        ensures
            r@ == (Counters { word: 0 }),
            r@.sleeping() == 0,
            r@.inactive() == 0,
            r@.jec() == JobsEventCounter(0),
    {
        AtomicCounters { value: 0 }
    }

    /// A snapshot.
    pub fn load(&self) -> (r: Counters)
        ensures
            r == self@,
    {
        Counters { word: self.value }
    }

    /// A thread enters its idle loop.
    pub fn add_inactive_thread(&mut self)
        requires
            old(self)@.inactive() < THREADS_MAX,
        ensures
            final(self)@.inactive() == old(self)@.inactive() + 1,
            final(self)@.sleeping() == old(self)@.sleeping(),
            final(self)@.jec() == old(self)@.jec(),
    {
        proof {
            self@.lemma_fields();
        }
        self.value = self.value + ONE_INACTIVE;
        proof {
            self@.lemma_made_of(
                old(self)@.jec().0 as int,
                old(self)@.inactive() as int + 1,
                old(self)@.sleeping() as int,
            );
        }
    }

    /// Counts an event if `wanted` holds of the current value, and returns the
    /// counters as they are then.
    pub fn increment_jobs_event_counter_if<F>(&mut self, wanted: F) -> (r: Counters) where
        F: Fn(JobsEventCounter) -> bool,

        requires
            wanted.requires((old(self)@.jec(),)),
        ensures
            r == final(self)@,
            r.sleeping() == old(self)@.sleeping(),
            r.inactive() == old(self)@.inactive(),
            exists|hit: bool| #[trigger]
                wanted.ensures((old(self)@.jec(),), hit) && r.jec() == if hit {
                    old(self)@.jec().next()
                } else {
                    old(self)@.jec()
                },
    {
        let old_counters = self.load();
        let hit: bool = wanted(old_counters.jobs_counter());
        if hit {
            self.value = self.value.wrapping_add(ONE_JEC);
            proof {
                old_counters.lemma_fields();
                self@.lemma_made_of(
                    old_counters.jec().next().0 as int,
                    old_counters.inactive() as int,
                    old_counters.sleeping() as int,
                );
            }
        }
        self.load()
    }

    /// A thread found work. Returns how many sleeping threads to wake: up to two,
    /// to keep the work going.
    pub fn sub_inactive_thread(&mut self) -> (wake: usize)
        requires
            old(self)@.inactive() > 0,
        ensures
            final(self)@.inactive() == old(self)@.inactive() - 1,
            final(self)@.sleeping() == old(self)@.sleeping(),
            final(self)@.jec() == old(self)@.jec(),
            wake == if old(self)@.sleeping() <= 2 {
                old(self)@.sleeping()
            } else {
                2
            },
    {
        let old_counters = self.load();
        proof {
            self@.lemma_fields();
        }
        self.value = self.value - ONE_INACTIVE;
        proof {
            self@.lemma_made_of(
                old_counters.jec().0 as int,
                old_counters.inactive() - 1,
                old_counters.sleeping() as int,
            );
        }
        old_counters.sleeping_threads().min(2)
    }

    /// A thread no longer sleeps.
    pub fn sub_sleeping_thread(&mut self)
        requires
            old(self)@.sleeping() > 0,
        ensures
            final(self)@.sleeping() == old(self)@.sleeping() - 1,
            final(self)@.inactive() == old(self)@.inactive(),
            final(self)@.jec() == old(self)@.jec(),
    {
        proof {
            self@.lemma_fields();
        }
        self.value = self.value - ONE_SLEEPING;
        proof {
            self@.lemma_made_of(
                old(self)@.jec().0 as int,
                old(self)@.inactive() as int,
                old(self)@.sleeping() - 1,
            );
        }
    }

    /// A thread falls asleep, provided that the counters are still `seen`.
    pub fn try_add_sleeping_thread(&mut self, seen: Counters) -> (ok: bool)
        requires
            old(self)@.sleeping() < THREADS_MAX,
        ensures
            ok == (old(self)@ == seen),
            !ok ==> final(self)@ == old(self)@,
            ok ==> final(self)@.sleeping() == old(self)@.sleeping() + 1,
            ok ==> final(self)@.inactive() == old(self)@.inactive(),
            ok ==> final(self)@.jec() == old(self)@.jec(),
    {
        if self.value == seen.word {
            proof {
                self@.lemma_fields();
            }
            self.value = self.value + ONE_SLEEPING;
            proof {
                self@.lemma_made_of(
                    old(self)@.jec().0 as int,
                    old(self)@.inactive() as int,
                    old(self)@.sleeping() as int + 1,
                );
            }
            true
        } else {
            false
        }
    }
}

/// Idle rounds spent spinning.
pub const ROUNDS_SPIN: u32 = 32;

/// Idle rounds after which a worker announces that it is sleepy; those beyond the
/// spinning ones are spent yielding.
pub const ROUNDS_UNTIL_SLEEPY: u32 = 64;

/// How far a worker is in its search for work.
#[derive(Debug, Clone, Copy, PartialEq, Eq, Structural)]
pub struct IdleState {
    pub worker_index: usize,
    pub rounds: u32,
    pub jobs_counter: JobsEventCounter,
}

impl IdleState {
    /// The search starts over.
    pub open spec fn fully_awake(self) -> IdleState {
        IdleState { rounds: 0, jobs_counter: JobsEventCounter::dummy(), ..self }
    }

    /// The search goes on right before the worker gets sleepy.
    pub open spec fn partly_awake(self) -> IdleState {
        IdleState { rounds: ROUNDS_UNTIL_SLEEPY, jobs_counter: JobsEventCounter::dummy(), ..self }
    }

    /// The search starts over.
    pub fn wake_fully(&mut self)
        ensures
            *final(self) == old(self).fully_awake(),
    {
        self.rounds = 0;
        self.jobs_counter = JobsEventCounter(u64::MAX);
    }

    /// The search goes on right before the worker gets sleepy.
    pub fn wake_partly(&mut self)
        ensures
            *final(self) == old(self).partly_awake(),
    {
        self.rounds = ROUNDS_UNTIL_SLEEPY;
        self.jobs_counter = JobsEventCounter(u64::MAX);
    }
}

/// What became of an attempt to sleep.
#[derive(Debug, Clone, Copy, PartialEq, Eq, Structural)]
pub enum SleepOutcome {
    /// The latch was set before the worker got sleepy.
    NotSleepy,
    /// The latch was set before the worker fell asleep.
    LatchSet,
    /// Jobs were posted since the worker got sleepy.
    JobsPosted,
    /// A job was injected at the last moment.
    InjectedJob,
    /// The worker is to block until it is woken, and then call
    /// [`Sleep::after_block`].
    Block,
}

/// What a worker that found no work does next.
#[derive(Debug, Clone, Copy, PartialEq, Eq, Structural)]
pub enum IdleAction {
    /// Spin and look again.
    Spin,
    /// Yield the thread and look again.
    Yield,
    /// It tried to sleep.
    Slept(SleepOutcome),
}

/// The workers that are blocked, lowest first.
pub open spec fn parked(blocked: Seq<bool>) -> Seq<usize>
    decreases blocked.len(),
{
    if blocked.len() == 0 {
        Seq::empty()
    } else if blocked.last() {
        parked(blocked.drop_last()).push((blocked.len() - 1) as usize)
    } else {
        parked(blocked.drop_last())
    }
}

/// Blocking or waking one worker changes the count by one.
proof fn lemma_parked_update(blocked: Seq<bool>, i: int, b: bool)
    requires
        0 <= i < blocked.len(),
    ensures
        parked(blocked).len() <= blocked.len(),
        parked(blocked.update(i, b)).len() == parked(blocked).len() + (if b {
            1int
        } else {
            0
        }) - (if blocked[i] {
            1int
        } else {
            0
        }),
    decreases blocked.len(),
{
    lemma_parked_len(blocked);
    let prev = blocked.drop_last();
    if i == blocked.len() - 1 {
        assert(blocked.update(i, b).drop_last() =~= prev);
    } else {
        lemma_parked_update(prev, i, b);
        assert(blocked.update(i, b).drop_last() =~= prev.update(i, b));
    }
}

proof fn lemma_parked_len(blocked: Seq<bool>)
    ensures
        parked(blocked).len() <= blocked.len(),
    decreases blocked.len(),
{
    if blocked.len() > 0 {
        lemma_parked_len(blocked.drop_last());
    }
}

/// Where nobody is blocked the list is empty.
proof fn lemma_parked_none(blocked: Seq<bool>)
    requires
        forall|j: int| 0 <= j < blocked.len() ==> !#[trigger] blocked[j],
    ensures
        parked(blocked) == Seq::<usize>::empty(),
    decreases blocked.len(),
{
    if blocked.len() > 0 {
        lemma_parked_none(blocked.drop_last());
    }
}

/// The lowest blocked worker comes first, and waking it takes it off the list.
proof fn lemma_parked_first(blocked: Seq<bool>, i: int)
    requires
        0 <= i < blocked.len() <= usize::MAX,
        blocked[i],
        forall|j: int| 0 <= j < i ==> !#[trigger] blocked[j],
    ensures
        parked(blocked).len() > 0,
        parked(blocked)[0] == i,
        parked(blocked.update(i, false)) == parked(blocked).skip(1),
    decreases blocked.len(),
{
    let prev = blocked.drop_last();
    let last = blocked.len() - 1;
    if i == last {
        lemma_parked_none(prev);
        assert(blocked.update(i, false).drop_last() =~= prev);
        assert(parked(blocked).skip(1) =~= Seq::<usize>::empty());
    } else {
        lemma_parked_first(prev, i);
        assert(blocked.update(i, false).drop_last() =~= prev.update(i, false));
        if blocked[last] {
            assert(parked(prev).push(last as usize).skip(1) =~= parked(prev).skip(1).push(
                last as usize,
            ));
        }
    }
}

/// Everyone on the list is blocked.
proof fn lemma_parked_blocked(blocked: Seq<bool>, k: int)
    requires
        0 <= k < parked(blocked).len(),
        blocked.len() <= usize::MAX,
    ensures
        parked(blocked)[k] < blocked.len(),
        blocked[parked(blocked)[k] as int],
    decreases blocked.len(),
{
    let prev = blocked.drop_last();
    if k < parked(prev).len() {
        lemma_parked_blocked(prev, k);
        assert(parked(blocked)[k] == parked(prev)[k]);
    }
}

/// How many sleeping workers `num_jobs` new jobs wake: as many as there are jobs
/// where jobs were waiting already, else only as many as the awake idle workers
/// leave over.
pub open spec fn wakes_for(
    num_jobs: nat,
    queue_was_empty: bool,
    awake_but_idle: nat,
    sleepers: nat,
) -> nat {
    let wanted: int = if !queue_was_empty {
        num_jobs as int
    } else {
        num_jobs - awake_but_idle
    };
    if wanted <= 0 {
        0
    } else if wanted <= sleepers {
        wanted as nat
    } else {
        sleepers
    }
}

/// Whoever is blocked is on the longer list, and `w` is on that list only, so that
/// it is longer.
proof fn lemma_parked_fewer(blocked: Seq<bool>, looking: Seq<bool>, w: int)
    requires
        blocked.len() == looking.len(),
        forall|j: int| 0 <= j < blocked.len() && #[trigger] blocked[j] ==> looking[j],
    ensures
        parked(blocked).len() <= parked(looking).len(),
        0 <= w < blocked.len() && looking[w] && !blocked[w] ==> parked(blocked).len() < parked(
            looking,
        ).len(),
    decreases blocked.len(),
{
    if blocked.len() > 0 {
        let b = blocked.drop_last();
        let l = looking.drop_last();
        assert forall|j: int| 0 <= j < b.len() && #[trigger] b[j] implies l[j] by {
            assert(blocked[j]);
        }
        lemma_parked_fewer(b, l, w);
        let last = blocked.len() - 1;
        assert(blocked[last] ==> looking[last]);
    }
}

/// The sleep state of a pool.
pub struct Sleep {
    blocked: Vec<bool>,
    counters: AtomicCounters,
    mask: SleepMask,
    looking: Ghost<Seq<bool>>,
}

impl Sleep {
    /// Which workers are blocked.
    pub closed spec fn blocked(&self) -> Seq<bool> {
        self.blocked@
    }

    /// Which workers look for work, blocked or not.
    pub closed spec fn looking(&self) -> Seq<bool> {
        self.looking@
    }

    /// The counters.
    pub closed spec fn counts(&self) -> Counters {
        self.counters@
    }

    /// The mask and the count of sleepers agree with who is blocked, the count of
    /// inactive workers with who looks for work, and only those who do are blocked.
    pub closed spec fn wf(&self) -> bool {
        &&& self.blocked@.len() <= THREADS_MAX
        &&& self.mask.wf()
        &&& self.blocked@.len() <= self.mask.limit()
        &&& forall|i: int| #[trigger]
            self.mask@.contains(i) <==> 0 <= i < self.blocked@.len() && self.blocked@[i]
        &&& self.counters@.sleeping() == parked(self.blocked@).len()
        &&& self.looking@.len() == self.blocked@.len()
        &&& self.counters@.inactive() == parked(self.looking@).len()
        &&& forall|i: int|
            0 <= i < self.blocked@.len() && #[trigger] self.blocked@[i] ==> self.looking@[i]
    }

    /// The state of `n_threads` busy workers.
    pub fn new(n_threads: usize) -> (r: Self)
        requires
            n_threads <= THREADS_MAX,
        ensures
            r.wf(),
            r.blocked() == Seq::new(n_threads as nat, |i: int| false),
            r.looking() == Seq::new(n_threads as nat, |i: int| false),
            r.counts() == (Counters { word: 0 }),
    {
        let mut blocked: Vec<bool> = Vec::with_capacity(n_threads);
        for i in 0..n_threads
            invariant
                blocked@ == Seq::new(i as nat, |j: int| false),
        {
            blocked.push(false);
        }
        proof {
            lemma_parked_none(blocked@);
        }
        let looking: Ghost<Seq<bool>> = Ghost(blocked@);
        Sleep { blocked, counters: AtomicCounters::new(), mask: SleepMask::new(n_threads), looking }
    }

    /// The sleeping workers are inactive, and a worker that looks for work without
    /// being blocked is inactive but does not sleep.
    pub proof fn lemma_counts(&self, worker_index: int)
        requires
            self.wf(),
        ensures
            self.looking().len() == self.blocked().len() <= THREADS_MAX,
            self.counts().sleeping() == parked(self.blocked()).len(),
            self.counts().sleeping() <= self.counts().inactive() <= self.blocked().len(),
            0 <= worker_index < self.blocked().len() && self.blocked()[worker_index]
                ==> self.looking()[worker_index],
            0 <= worker_index < self.blocked().len() && self.looking()[worker_index]
                && !self.blocked()[worker_index] ==> self.counts().sleeping()
                < self.counts().inactive(),
    {
        lemma_parked_fewer(self.blocked@, self.looking@, worker_index);
        lemma_parked_len(self.looking@);
    }

    /// Worker `worker_index` starts to look for work.
    pub fn start_looking(&mut self, worker_index: usize) -> (idle: IdleState)
        requires
            old(self).wf(),
            worker_index < old(self).blocked().len(),
            !old(self).looking()[worker_index as int],
        ensures
            final(self).wf(),
            final(self).blocked() == old(self).blocked(),
            final(self).looking() == old(self).looking().update(worker_index as int, true),
            final(self).counts().inactive() == old(self).counts().inactive() + 1,
            final(self).counts().sleeping() == old(self).counts().sleeping(),
            final(self).counts().jec() == old(self).counts().jec(),
            idle == (IdleState { worker_index, rounds: 0, jobs_counter: JobsEventCounter::dummy() }),
    {
        proof {
            lemma_parked_update(self.looking@, worker_index as int, true);
            lemma_parked_len(self.looking@.update(worker_index as int, true));
        }
        self.counters.add_inactive_thread();
        self.looking = Ghost(self.looking@.update(worker_index as int, true));
        IdleState { worker_index, rounds: 0, jobs_counter: JobsEventCounter(u64::MAX) }
    }

    /// Worker `worker_index`, which looked for work, is done with that. Up to two
    /// sleeping ones are unblocked; returns those, to be notified.
    pub fn work_found(&mut self, worker_index: usize) -> (woken: Vec<usize>)
        requires
            old(self).wf(),
            worker_index < old(self).blocked().len(),
            old(self).looking()[worker_index as int],
            !old(self).blocked()[worker_index as int],
        ensures
            final(self).wf(),
            final(self).looking() == old(self).looking().update(worker_index as int, false),
            final(self).counts().inactive() == old(self).counts().inactive() - 1,
            final(self).counts().jec() == old(self).counts().jec(),
            woken@ == parked(old(self).blocked()).take(woken@.len() as int),
            woken@.len() == if parked(old(self).blocked()).len() <= 2 {
                parked(old(self).blocked()).len()
            } else {
                2
            },
            parked(final(self).blocked()) == parked(old(self).blocked()).skip(woken@.len() as int),
            final(self).blocked().len() == old(self).blocked().len(),
            only_woken(old(self).blocked(), final(self).blocked()),
    {
        proof {
            self.lemma_counts(worker_index as int);
            lemma_parked_update(self.looking@, worker_index as int, false);
        }
        let wake: usize = self.counters.sub_inactive_thread();
        self.looking = Ghost(self.looking@.update(worker_index as int, false));
        self.wake_any_threads(wake as u32)
    }

    /// What worker `idle.worker_index`, which found no work, does next: spin, then
    /// yield, then get sleepy, then sleep.
    pub fn no_work_found<F>(
        &mut self,
        idle: &mut IdleState,
        latch: &mut CoreLatch,
        has_injected_jobs: F,
    ) -> (action: IdleAction) where F: FnOnce() -> bool
        requires
            old(self).wf(),
            old(idle).worker_index < old(self).blocked().len(),
            !old(self).blocked()[old(idle).worker_index as int],
            old(self).looking()[old(idle).worker_index as int],
            has_injected_jobs.requires(()),
        ensures
            final(self).wf(),
            final(self).looking() == old(self).looking(),
            final(idle).worker_index == old(idle).worker_index,
            old(idle).rounds < ROUNDS_SPIN ==> action == IdleAction::Spin,
            ROUNDS_SPIN <= old(idle).rounds <= ROUNDS_UNTIL_SLEEPY ==> action == IdleAction::Yield,
            old(idle).rounds > ROUNDS_UNTIL_SLEEPY ==> action is Slept,
            old(idle).rounds <= ROUNDS_UNTIL_SLEEPY ==> final(idle).rounds == old(idle).rounds + 1
                && final(latch)@ == old(latch)@ && final(self).blocked() == old(self).blocked(),
            old(idle).rounds < ROUNDS_UNTIL_SLEEPY ==> final(idle).jobs_counter
                == old(idle).jobs_counter && final(self).counts() == old(self).counts(),
            old(idle).rounds == ROUNDS_UNTIL_SLEEPY ==> final(idle).jobs_counter
                == old(self).counts().jec().announced() && final(self).counts().jec()
                == old(self).counts().jec().announced(),
            action matches IdleAction::Slept(outcome) ==> slept_as(
                *old(idle),
                old(latch)@,
                old(self).counts().jec(),
                *final(idle),
                final(latch)@,
                outcome,
            ),
            action == IdleAction::Slept(SleepOutcome::InjectedJob) ==> has_injected_jobs.ensures(
                (),
                true,
            ),
            action == IdleAction::Slept(SleepOutcome::Block) ==> has_injected_jobs.ensures(
                (),
                false,
            ),
            action != IdleAction::Slept(SleepOutcome::Block) ==> final(self).blocked()
                == old(self).blocked() && final(self).counts().sleeping()
                == old(self).counts().sleeping(),
            action == IdleAction::Slept(SleepOutcome::Block) ==> final(self).blocked()
                == old(self).blocked().update(old(idle).worker_index as int, true)
                && final(self).counts().sleeping() == old(self).counts().sleeping() + 1,
            final(self).counts().inactive() == old(self).counts().inactive(),
    {
        if idle.rounds < ROUNDS_SPIN {
            idle.rounds = idle.rounds + 1;
            IdleAction::Spin
        } else if idle.rounds < ROUNDS_UNTIL_SLEEPY {
            idle.rounds = idle.rounds + 1;
            IdleAction::Yield
        } else if idle.rounds == ROUNDS_UNTIL_SLEEPY {
            idle.jobs_counter = self.announce_sleepy();
            idle.rounds = idle.rounds + 1;
            IdleAction::Yield
        } else {
            IdleAction::Slept(self.sleep(idle, latch, has_injected_jobs))
        }
    }

    /// Announces that a worker is sleepy; returns the value that tells it later
    /// whether jobs were posted since.
    fn announce_sleepy(&mut self) -> (r: JobsEventCounter)
        requires
            old(self).wf(),
        ensures
            final(self).wf(),
            final(self).blocked() == old(self).blocked(),
            final(self).looking() == old(self).looking(),
            r == old(self).counts().jec().announced(),
            final(self).counts().jec() == r,
            final(self).counts().sleeping() == old(self).counts().sleeping(),
            final(self).counts().inactive() == old(self).counts().inactive(),
    {
        let active = |jec: JobsEventCounter| -> (b: bool)
            ensures
                b == !jec.sleepy(),
            { jec.is_active() };
        self.counters.increment_jobs_event_counter_if(active).jobs_counter()
    }

    /// Worker `idle.worker_index` tries to sleep until `latch` is set or it is
    /// woken.
    pub fn sleep<F>(
        &mut self,
        idle: &mut IdleState,
        latch: &mut CoreLatch,
        has_injected_jobs: F,
    ) -> (outcome: SleepOutcome) where F: FnOnce() -> bool
        requires
            old(self).wf(),
            old(idle).worker_index < old(self).blocked().len(),
            !old(self).blocked()[old(idle).worker_index as int],
            old(self).looking()[old(idle).worker_index as int],
            has_injected_jobs.requires(()),
        ensures
            final(self).wf(),
            final(self).looking() == old(self).looking(),
            final(self).counts().jec() == old(self).counts().jec(),
            final(self).counts().inactive() == old(self).counts().inactive(),
            slept_as(
                *old(idle),
                old(latch)@,
                old(self).counts().jec(),
                *final(idle),
                final(latch)@,
                outcome,
            ),
            outcome == SleepOutcome::InjectedJob ==> has_injected_jobs.ensures((), true),
            outcome == SleepOutcome::Block ==> has_injected_jobs.ensures((), false),
            outcome != SleepOutcome::Block ==> final(self).blocked() == old(self).blocked()
                && final(self).counts().sleeping() == old(self).counts().sleeping(),
            outcome == SleepOutcome::Block ==> final(self).blocked() == old(self).blocked().update(
                old(idle).worker_index as int,
                true,
            ) && final(self).counts().sleeping() == old(self).counts().sleeping() + 1,
    {
        if !latch.get_sleepy() {
            return SleepOutcome::NotSleepy;
        }
        self.commit_sleep(idle, latch, has_injected_jobs)
    }

    /// Worker `idle.worker_index`, which got sleepy on `latch`, falls asleep unless
    /// the latch was set or jobs were posted in the meantime.
    pub fn commit_sleep<F>(
        &mut self,
        idle: &mut IdleState,
        latch: &mut CoreLatch,
        has_injected_jobs: F,
    ) -> (outcome: SleepOutcome) where F: FnOnce() -> bool
        requires
            old(self).wf(),
            old(idle).worker_index < old(self).blocked().len(),
            !old(self).blocked()[old(idle).worker_index as int],
            old(self).looking()[old(idle).worker_index as int],
            has_injected_jobs.requires(()),
        ensures
            final(self).wf(),
            final(self).looking() == old(self).looking(),
            final(self).counts().jec() == old(self).counts().jec(),
            final(self).counts().inactive() == old(self).counts().inactive(),
            committed_as(
                *old(idle),
                old(latch)@,
                old(self).counts().jec(),
                *final(idle),
                final(latch)@,
                outcome,
            ),
            outcome == SleepOutcome::InjectedJob ==> has_injected_jobs.ensures((), true),
            outcome == SleepOutcome::Block ==> has_injected_jobs.ensures((), false),
            outcome != SleepOutcome::Block ==> final(self).blocked() == old(self).blocked()
                && final(self).counts().sleeping() == old(self).counts().sleeping(),
            outcome == SleepOutcome::Block ==> final(self).blocked() == old(self).blocked().update(
                old(idle).worker_index as int,
                true,
            ) && final(self).counts().sleeping() == old(self).counts().sleeping() + 1,
    {
        let worker_index: usize = idle.worker_index;
        proof {
            self.lemma_counts(worker_index as int);
        }
        if !latch.fall_asleep() {
            idle.wake_fully();
            return SleepOutcome::LatchSet;
        }
        let ghost members = self.mask@;
        self.mask.set(worker_index);
        let counters = self.counters.load();
        if counters.jobs_counter() != idle.jobs_counter {
            self.mask.clear(worker_index);
            assert(self.mask@ =~= members);
            idle.wake_partly();
            latch.wake_up();
            return SleepOutcome::JobsPosted;
        }
        proof {
            lemma_parked_update(self.blocked@, worker_index as int, true);
        }
        let added: bool = self.counters.try_add_sleeping_thread(counters);
        assert(added);
        if has_injected_jobs() {
            self.counters.sub_sleeping_thread();
            self.mask.clear(worker_index);
            assert(self.mask@ =~= members);
            idle.wake_fully();
            latch.wake_up();
            SleepOutcome::InjectedJob
        } else {
            self.blocked[worker_index] = true;
            SleepOutcome::Block
        }
    }

    /// Worker `idle.worker_index` was woken and goes on.
    pub fn after_block(&self, idle: &mut IdleState, latch: &mut CoreLatch)
        requires
            self.wf(),
            old(idle).worker_index < self.blocked().len(),
            !self.blocked()[old(idle).worker_index as int],
        ensures
            *final(idle) == old(idle).fully_awake(),
            final(latch)@ == if old(latch)@ == LatchState::Sleeping {
                LatchState::Unset
            } else {
                old(latch)@
            },
    {
        idle.wake_fully();
        latch.wake_up();
    }

    /// Whether worker `worker_index` is to stay blocked.
    pub fn is_blocked(&self, worker_index: usize) -> (b: bool)
        requires
            worker_index < self.blocked().len(),
        ensures
            b == self.blocked()[worker_index as int],
    {
        self.blocked[worker_index]
    }

    /// The latch of a worker was set; unblocks it. Returns whether it has to be
    /// notified.
    pub fn notify_worker_latch_is_set(&mut self, target_worker_index: usize) -> (woken: bool)
        requires
            old(self).wf(),
            target_worker_index < old(self).blocked().len(),
        ensures
            final(self).wf(),
            woken == old(self).blocked()[target_worker_index as int],
            final(self).blocked() == old(self).blocked().update(target_worker_index as int, false),
            final(self).looking() == old(self).looking(),
            final(self).counts().inactive() == old(self).counts().inactive(),
            final(self).counts().jec() == old(self).counts().jec(),
    {
        self.wake_specific_thread(target_worker_index)
    }

    /// `num_jobs` jobs were posted, from outside or by a worker, to a queue that
    /// was empty before or was not. Returns the workers that were unblocked, to
    /// be notified.
    pub fn new_jobs(&mut self, num_jobs: u32, queue_was_empty: bool) -> (woken: Vec<usize>)
        requires
            old(self).wf(),
        ensures
            final(self).wf(),
            final(self).looking() == old(self).looking(),
            only_woken(old(self).blocked(), final(self).blocked()),
            final(self).counts().jec() == old(self).counts().jec().posted(),
            final(self).counts().inactive() == old(self).counts().inactive(),
            woken@.len() == wakes_for(
                num_jobs as nat,
                queue_was_empty,
                (old(self).counts().inactive() - old(self).counts().sleeping()) as nat,
                old(self).counts().sleeping(),
            ),
            woken@ == parked(old(self).blocked()).take(woken@.len() as int),
            parked(final(self).blocked()) == parked(old(self).blocked()).skip(woken@.len() as int),
            final(self).blocked().len() == old(self).blocked().len(),
    {
        let sleepy = |jec: JobsEventCounter| -> (b: bool)
            ensures
                b == jec.sleepy(),
            { jec.is_sleepy() };
        proof {
            self.lemma_counts(0);
        }
        let counters = self.counters.increment_jobs_event_counter_if(sleepy);
        let num_awake_but_idle: u32 = counters.awake_but_idle_threads() as u32;
        let num_sleepers: u32 = counters.sleeping_threads() as u32;
        if num_sleepers == 0 {
            return self.wake_any_threads(0);
        }
        if !queue_was_empty {
            self.wake_any_threads(num_jobs.min(num_sleepers))
        } else if num_awake_but_idle < num_jobs {
            self.wake_any_threads((num_jobs - num_awake_but_idle).min(num_sleepers))
        } else {
            self.wake_any_threads(0)
        }
    }

    /// Unblocks up to `num_to_wake` workers, lowest first, and returns them.
    pub fn wake_any_threads(&mut self, num_to_wake: u32) -> (woken: Vec<usize>)
        requires
            old(self).wf(),
        ensures
            final(self).wf(),
            final(self).looking() == old(self).looking(),
            only_woken(old(self).blocked(), final(self).blocked()),
            final(self).counts().inactive() == old(self).counts().inactive(),
            final(self).counts().jec() == old(self).counts().jec(),
            woken@.len() == if num_to_wake <= parked(old(self).blocked()).len() {
                num_to_wake as nat
            } else {
                parked(old(self).blocked()).len()
            },
            woken@ == parked(old(self).blocked()).take(woken@.len() as int),
            parked(final(self).blocked()) == parked(old(self).blocked()).skip(woken@.len() as int),
            final(self).blocked().len() == old(self).blocked().len(),
    {
        let ghost queue = parked(self.blocked@);
        let ghost start = self.blocked@;
        let ghost marks = self.mask@;
        let blocked = &self.blocked;
        let asleep = |i: usize| -> (b: bool)
            ensures
                b == (i < blocked@.len() && blocked@[i as int]),
            { i < blocked.len() && blocked[i] };
        let woken = self.mask.scan_woken(num_to_wake, asleep);
        let ghost who = woken@;
        proof {
            let (asked, answers) = choose|asked: Seq<int>, answers: Seq<bool>|
                #![trigger scanned(marks, self.mask@, num_to_wake as nat, asked, answers, who)]
                scanned(marks, self.mask@, num_to_wake as nat, asked, answers, who) && answered(
                    asleep,
                    asked,
                    answers,
                );
            assert forall|k: int| 0 <= k < answers.len() implies #[trigger] answers[k] by {
                assert(is_next(marks, asked.take(k), answers.take(k), asked[k]));
                assert(marks.contains(asked[k]));
            }
            law_scan_of_sleepers(marks, self.mask@, num_to_wake as nat, asked, answers, who);
            assert forall|i: int, k: int| #[trigger]
                marks.contains(i) && (forall|m: int| 0 <= m < who.len() ==> who[m] != i) && 0 <= k
                    < who.len() implies #[trigger] who[k] < i by {
                if asked.contains(i) {
                    let m = asked.index_of(i);
                    assert(who[m] == asked[m]);
                }
                assert(asked[k] < i);
            }
            assert forall|k: int, m: int| 0 <= k < m < who.len() implies who[k] < who[m] by {
                assert(who[k] == asked[k] && who[m] == asked[m]);
            }
            assert forall|k: int| 0 <= k < who.len() implies marks.contains(#[trigger] who[k] as int) by {
                assert(who[k] == asked[k]);
            }
            if who.len() < num_to_wake {
                assert forall|i: int| #[trigger] marks.contains(i) implies exists|m: int|
                    0 <= m < who.len() && #[trigger] who[m] == i by {
                    let m = asked.index_of(i);
                    assert(who[m] == asked[m]);
                }
            }
            assert(queue.skip(0) =~= queue);
        }
        let count: usize = woken.len();
        for k in 0..count
            invariant
                self.wf(),
                who == woken@,
                count == who.len(),
                queue == parked(old(self).blocked()),
                start == old(self).blocked(),
                self.blocked@.len() == start.len(),
                self.looking@ == old(self).looking(),
                only_woken(old(self).blocked(), self.blocked@),
                self.counters@.inactive() == old(self).counts().inactive(),
                self.counters@.jec() == old(self).counts().jec(),
                k <= queue.len(),
                who.take(k as int) == queue.take(k as int),
                parked(self.blocked@) == queue.skip(k as int),
                forall|i: int| #[trigger] marks.contains(i) <==> 0 <= i < start.len() && start[i],
                forall|i: int|
                    0 <= i < start.len() ==> (#[trigger] self.blocked@[i] <==> start[i] && (forall|
                        m: int,
                    |
                        0 <= m < k ==> who[m] != i)),
                forall|j: int, m: int| 0 <= j < m < who.len() ==> who[j] < who[m],
                forall|j: int| 0 <= j < who.len() ==> marks.contains(#[trigger] who[j] as int),
                forall|i: int, j: int| #[trigger]
                    marks.contains(i) && (forall|m: int| 0 <= m < who.len() ==> who[m] != i) && 0
                        <= j < who.len() ==> #[trigger] who[j] < i,
        {
            let i: usize = woken[k];
            proof {
                assert(marks.contains(who[k as int] as int));
                assert(self.blocked@[i as int]);
                assert forall|j: int| 0 <= j < i implies !#[trigger] self.blocked@[j] by {
                    if self.blocked@[j] {
                        assert(marks.contains(j));
                        if forall|m: int| 0 <= m < who.len() ==> who[m] != j {
                            assert(who[k as int] < j);
                        } else {
                            let m = choose|m: int| 0 <= m < who.len() && who[m] == j;
                            assert(m >= k);
                        }
                    }
                }
                lemma_parked_first(self.blocked@, i as int);
            }
            let _up: bool = self.wake_specific_thread(i);
            proof {
                assert(queue.skip(k as int)[0] == queue[k as int]);
                assert(queue.skip(k as int).skip(1) =~= queue.skip(k + 1));
                assert(queue.take(k + 1) =~= queue.take(k as int).push(i));
                assert(who.take(k + 1) =~= who.take(k as int).push(i));
                assert forall|x: int| 0 <= x < start.len() implies (#[trigger] self.blocked@[x]
                    <==> start[x] && (forall|m: int| 0 <= m < k + 1 ==> who[m] != x)) by {
                    if x == i {
                        assert(who[k as int] == x);
                    }
                }
            }
        }
        proof {
            assert(who.take(count as int) =~= who);
            if who.len() < num_to_wake {
                assert forall|j: int| 0 <= j < self.blocked@.len() implies !#[trigger] self.blocked@[j] by {
                    if start[j] {
                        assert(marks.contains(j));
                    }
                }
                lemma_parked_none(self.blocked@);
                assert(who.len() == queue.len());
            }
        }
        woken
    }

    fn wake_specific_thread(&mut self, index: usize) -> (woken: bool)
        requires
            old(self).wf(),
            index < old(self).blocked().len(),
        ensures
            final(self).wf(),
            woken == old(self).blocked()[index as int],
            final(self).blocked() == old(self).blocked().update(index as int, false),
            final(self).looking() == old(self).looking(),
            final(self).counts().inactive() == old(self).counts().inactive(),
            final(self).counts().jec() == old(self).counts().jec(),
    {
        if self.blocked[index] {
            proof {
                lemma_parked_update(self.blocked@, index as int, false);
            }
            self.blocked[index] = false;
            self.mask.clear(index);
            self.counters.sub_sleeping_thread();
            true
        } else {
            assert(self.blocked@ =~= self.blocked@.update(index as int, false));
            false
        }
    }
}

/// Nobody is blocked after who was not before.
pub open spec fn only_woken(before: Seq<bool>, after: Seq<bool>) -> bool {
    &&& after.len() == before.len()
    &&& forall|i: int| 0 <= i < after.len() && #[trigger] after[i] ==> before[i]
}

/// How falling asleep leaves the worker's search and its latch.
pub open spec fn committed_as(
    idle: IdleState,
    latch: LatchState,
    jec: JobsEventCounter,
    idle_after: IdleState,
    latch_after: LatchState,
    outcome: SleepOutcome,
) -> bool {
    if latch != LatchState::Sleepy {
        outcome == SleepOutcome::LatchSet && idle_after == idle.fully_awake() && latch_after == latch
    } else if jec != idle.jobs_counter {
        outcome == SleepOutcome::JobsPosted && idle_after == idle.partly_awake() && latch_after
            == LatchState::Unset
    } else {
        ||| outcome == SleepOutcome::InjectedJob && idle_after == idle.fully_awake() && latch_after
            == LatchState::Unset
        ||| outcome == SleepOutcome::Block && idle_after == idle && latch_after
            == LatchState::Sleeping
    }
}

/// How an attempt to sleep leaves the worker's search and its latch.
pub open spec fn slept_as(
    idle: IdleState,
    latch: LatchState,
    jec: JobsEventCounter,
    idle_after: IdleState,
    latch_after: LatchState,
    outcome: SleepOutcome,
) -> bool {
    if latch != LatchState::Unset {
        outcome == SleepOutcome::NotSleepy && idle_after == idle && latch_after == latch
    } else {
        committed_as(idle, LatchState::Sleepy, jec, idle_after, latch_after, outcome)
    }
}

/// No job is slept over: a worker that got sleepy does not block once jobs were
/// posted, even if another worker got sleepy after that.
pub proof fn law_no_sleep_over_posted_jobs(
    idle: IdleState,
    latch: LatchState,
    idle_after: IdleState,
    latch_after: LatchState,
    outcome: SleepOutcome,
)
    requires
        idle.jobs_counter.0 < JEC_VALUES,
        idle.jobs_counter.sleepy(),
        committed_as(idle, latch, idle.jobs_counter.posted(), idle_after, latch_after, outcome)
            || committed_as(
            idle,
            latch,
            idle.jobs_counter.posted().announced(),
            idle_after,
            latch_after,
            outcome,
        ),
    ensures
        outcome != SleepOutcome::Block,
{
    law_posting_changes_sleepy_value(idle.jobs_counter);
}

/// New jobs never leave every worker asleep: where jobs are posted and nobody is
/// awake and idle, a sleeping worker is woken.
pub proof fn law_jobs_wake_a_sleeper(num_jobs: nat, queue_was_empty: bool, sleepers: nat)
    requires
        num_jobs > 0,
        sleepers > 0,
    ensures
        wakes_for(num_jobs, queue_was_empty, 0, sleepers) > 0,
{
}

/// The list of the blocked workers holds every one that is blocked and no other, lowest
/// first.
pub proof fn law_parked_lists_the_blocked(blocked: Seq<bool>)
    requires
        blocked.len() <= usize::MAX,
    ensures
        forall|i: int, j: int|
            0 <= i < j < parked(blocked).len() ==> parked(blocked)[i] < parked(blocked)[j],
        forall|w: usize| #[trigger]
            parked(blocked).contains(w) <==> w < blocked.len() && blocked[w as int],
    decreases blocked.len(),
{
    if blocked.len() > 0 {
        let init = blocked.drop_last();
        let last = (blocked.len() - 1) as usize;
        law_parked_lists_the_blocked(init);
        let list = parked(init);
        assert forall|i: int| 0 <= i < list.len() implies list[i] < last by {
            assert(list.contains(list[i]));
        }
        assert forall|w: usize| #[trigger]
            parked(blocked).contains(w) <==> w < blocked.len() && blocked[w as int] by {
            assert(list.contains(w) <==> w < init.len() && init[w as int]);
            if blocked.last() {
                let all = list.push(last);
                if list.contains(w) {
                    let i = choose|i: int| 0 <= i < list.len() && list[i] == w;
                    assert(all[i] == w);
                }
                if w == last {
                    assert(all[list.len() as int] == w);
                }
                if all.contains(w) && w != last {
                    let i = choose|i: int| 0 <= i < all.len() && all[i] == w;
                    assert(list[i] == w);
                }
            }
        }
    }
}

/// New jobs wake no more workers than there are jobs or sleepers. Where jobs were waiting
/// already every job wakes one; where not, those that are awake and idle are counted in.
pub proof fn law_jobs_wake_as_many_as_they_need(
    num_jobs: nat,
    queue_was_empty: bool,
    awake_but_idle: nat,
    sleepers: nat,
)
    ensures
        ({
            let woken = wakes_for(num_jobs, queue_was_empty, awake_but_idle, sleepers);
            let helped = if queue_was_empty {
                awake_but_idle
            } else {
                0
            };
            &&& woken <= sleepers
            &&& woken <= num_jobs
            &&& woken < sleepers ==> woken + helped >= num_jobs
            &&& woken > 0 ==> woken + helped <= num_jobs
        }),
{
}

/// An event counts the jobs event counter up by one, from its last value to zero. A worker
/// that announces that it is sleepy finds an even value there or makes the next one so;
/// posting jobs leaves an odd one there.
pub proof fn law_events_count_up(jec: JobsEventCounter)
    requires
        jec.0 < JEC_VALUES,
    ensures
        jec.next().0 == if jec.0 + 1 < JEC_VALUES {
            jec.0 + 1
        } else {
            0
        },
        jec.announced().0 % 2 == 0,
        jec.announced() == jec || jec.announced() == jec.next(),
        jec.posted().0 % 2 == 1,
        jec.posted() == jec || jec.posted() == jec.next(),
{
}

/// A worker that blocks got sleepy on a latch that nobody set since, found the jobs event
/// counter as it had left it, and goes on where it was; its latch says that it sleeps.
/// One that does not block has a latch that does not say so.
pub proof fn law_a_worker_blocks_on_an_unset_latch(
    idle: IdleState,
    latch: LatchState,
    jec: JobsEventCounter,
    idle_after: IdleState,
    latch_after: LatchState,
    outcome: SleepOutcome,
)
    requires
        slept_as(idle, latch, jec, idle_after, latch_after, outcome),
    ensures
        outcome == SleepOutcome::Block ==> latch == LatchState::Unset && jec == idle.jobs_counter
            && idle_after == idle && latch_after == LatchState::Sleeping,
        outcome != SleepOutcome::Block ==> latch_after == latch,
        latch != LatchState::Unset ==> outcome == SleepOutcome::NotSleepy,
        latch == LatchState::Unset && jec != idle.jobs_counter ==> outcome
            == SleepOutcome::JobsPosted,
        latch == LatchState::Unset && jec == idle.jobs_counter ==> outcome
            == SleepOutcome::InjectedJob || outcome == SleepOutcome::Block,
        idle_after.worker_index == idle.worker_index,
        outcome == SleepOutcome::InjectedJob ==> idle_after.rounds == 0,
        outcome == SleepOutcome::JobsPosted ==> idle_after.rounds == ROUNDS_UNTIL_SLEEPY,
        outcome == SleepOutcome::JobsPosted || outcome == SleepOutcome::InjectedJob
            ==> idle_after.jobs_counter == JobsEventCounter::dummy(),
        outcome == SleepOutcome::NotSleepy ==> idle_after == idle,
{
}

/// A worker that got sleepy and finds its latch set does not block, and starts its search
/// over; the latch stays as it is.
pub proof fn law_a_set_latch_keeps_a_worker_awake(
    idle: IdleState,
    latch: LatchState,
    jec: JobsEventCounter,
    idle_after: IdleState,
    latch_after: LatchState,
    outcome: SleepOutcome,
)
    requires
        committed_as(idle, latch, jec, idle_after, latch_after, outcome),
        latch != LatchState::Sleepy,
    ensures
        outcome == SleepOutcome::LatchSet,
        latch_after == latch,
        idle_after.rounds == 0,
        idle_after.worker_index == idle.worker_index,
{
}

/// Waking changes nobody from awake to blocked, and adds or removes nobody.
pub proof fn law_waking_blocks_nobody(before: Seq<bool>, after: Seq<bool>, i: int)
    requires
        only_woken(before, after),
        0 <= i < before.len(),
    ensures
        after.len() == before.len(),
        !before[i] ==> !after[i],
{
}

} // verus!
