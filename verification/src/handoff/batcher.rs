//! Draining a queue in batches.
use crate::handoff::ring_buffer::{
    Look, Measure, Push, RingBuffer, TakeIn, batch_pushed, clones, law_a_batch_is_single_pushes,
    lemma_clones_came, lemma_pushed_singly, move_out_came, push_came, take_in_came,
    took_one_turn,
};
use crate::sync::guarded::{Guarded, Kept, Operation};
use crate::sync::turn_log::TurnLog;
use vstd::arithmetic::power2::is_pow2;
use vstd::prelude::*;

verus! {

/// How a batcher drains.
#[derive(Clone, Copy, Debug, PartialEq, Eq, Structural)]
pub struct BatchConfig {
    /// The most items one drain takes.
    pub max_batch_size: usize,
    /// How long a drain may be put off, in microseconds.
    pub max_wait_micros: u64,
}

impl Default for BatchConfig {
    fn default() -> (r: Self)
        ensures
            r == (BatchConfig { max_batch_size: 64, max_wait_micros: 100 }),
    {
        BatchConfig { max_batch_size: 64, max_wait_micros: 100 }
    }
}

impl BatchConfig {
    /// Batches of up to `batch_size` items, put off by up to `wait_micros`.
    #[must_use]
    pub fn new(batch_size: usize, wait_micros: u64) -> (r: Self)
        ensures
            r == (BatchConfig { max_batch_size: batch_size, max_wait_micros: wait_micros }),
    {
        BatchConfig { max_batch_size: batch_size, max_wait_micros: wait_micros }
    }
}

/// A queue that is drained in batches and counts what is pending.
pub struct Batcher<T> {
    ring: RingBuffer<T>,
    config: BatchConfig,
    pending: usize,
}

impl<T> View for Batcher<T> {
    type V = Seq<T>;

    closed spec fn view(&self) -> Seq<T> {
        self.ring@
    }
}

impl<T> Batcher<T> {
    /// How many items fit.
    pub closed spec fn cap(&self) -> nat {
        self.ring.cap()
    }

    /// How it drains.
    pub closed spec fn settings(&self) -> BatchConfig {
        self.config
    }

    /// The count agrees with the queue.
    pub closed spec fn wf(&self) -> bool {
        &&& self.ring.wf()
        &&& self.pending == self.ring@.len()
        &&& self.ring@.len() <= self.ring.cap() <= usize::MAX
    }

    /// An empty batcher for `capacity` items, a power of two.
    pub fn new(capacity: usize, config: BatchConfig) -> (r: Self)
        requires
            is_pow2(capacity as int),
        ensures
            r.wf(),
            r@ == Seq::<T>::empty(),
            r.cap() == capacity,
            r.settings() == config,
    {
        Batcher { ring: RingBuffer::new(capacity), config, pending: 0 }
    }

    /// Appends `item`, or hands it back where the queue is full.
    pub fn push(&mut self, item: T) -> (r: Result<(), T>)
        requires
            old(self).wf(),
        ensures
            final(self).wf(),
            final(self).cap() == old(self).cap(),
            final(self).settings() == old(self).settings(),
            push_came(old(self).cap(), old(self)@, final(self)@, item, r),
    {
        match self.ring.push(item) {
            Ok(_) => {
                self.pending = self.pending + 1;
                Ok(())
            },
            Err(back) => Err(back),
        }
    }

    /// Appends clones of as many of `items` as fit, in order, and returns how
    /// many that are.
    pub fn push_batch(&mut self, items: &[T]) -> (count: usize) where T: Clone
        requires
            old(self).wf(),
        ensures
            final(self).wf(),
            final(self).cap() == old(self).cap(),
            final(self).settings() == old(self).settings(),
            batch_pushed(old(self).cap(), old(self)@, items@, final(self)@, count as int),
    {
        let count: usize = self.ring.push_batch(items);
        if count > 0 {
            self.pending = self.pending + count;
        }
        count
    }

    /// Moves in as many of `items` as fit, in order; returns how many that are, and the
    /// others.
    pub fn take_in(&mut self, items: Vec<T>) -> (r: (usize, Vec<T>))
        requires
            old(self).wf(),
        ensures
            final(self).wf(),
            final(self).cap() == old(self).cap(),
            final(self).settings() == old(self).settings(),
            r.0 == (if old(self).cap() - old(self)@.len() <= items@.len() {
                old(self).cap() - old(self)@.len()
            } else {
                items@.len() as int
            }),
            final(self)@ == old(self)@ + items@.take(r.0 as int),
            r.1@ == items@.skip(r.0 as int),
    {
        let (count, left) = self.ring.take_in(items);
        self.pending = self.pending + count;
        (count, left)
    }

    /// Moves the oldest items to the end of `dest`, up to the batch size, and
    /// returns how many that are.
    pub fn drain(&mut self, dest: &mut Vec<T>) -> (count: usize)
        requires
            old(self).wf(),
        ensures
            final(self).wf(),
            final(self).cap() == old(self).cap(),
            final(self).settings() == old(self).settings(),
            count == if old(self)@.len() <= old(self).settings().max_batch_size {
                old(self)@.len()
            } else {
                old(self).settings().max_batch_size as nat
            },
            final(dest)@ == old(dest)@ + old(self)@.take(count as int),
            final(self)@ == old(self)@.skip(count as int),
    {
        let max: usize = self.config.max_batch_size;
        let count: usize = self.ring.pop_batch(dest, max);
        if count > 0 {
            self.pending = self.pending - count;
        }
        count
    }

    /// How many items are pending.
    pub fn pending_count(&self) -> (n: usize)
        requires
            self.wf(),
        ensures
            n == self@.len(),
    {
        self.pending
    }

    /// Whether nothing is pending.
    pub fn is_empty(&self) -> (b: bool)
        ensures
            b == (self@.len() == 0),
    {
        self.ring.is_empty()
    }

    /// How it drains.
    pub fn config(&self) -> (r: &BatchConfig)
        ensures
            *r == self.settings(),
    {
        &self.config
    }
}

/// `states` are what a batcher goes through while `items` are pushed one by one, up to the
/// first that is refused, with the `results` of the pushes.
pub open spec fn single_pushes<T>(
    states: Seq<Batcher<T>>,
    items: Seq<T>,
    results: Seq<Result<(), T>>,
) -> bool {
    &&& states.len() == results.len() + 1
    &&& results.len() <= items.len()
    &&& forall|i: int|
        0 <= i < results.len() ==> states[i + 1].cap() == states[i].cap() && push_came(
            states[i].cap(),
            states[i]@,
            states[i + 1]@,
            items[i],
            #[trigger] results[i],
        )
    &&& forall|i: int| 0 <= i < results.len() - 1 ==> (#[trigger] results[i]) is Ok
    &&& results.len() < items.len() ==> results.len() > 0 && results.last() is Err
}

/// How many pushes succeeded, where at most the last did not.
pub open spec fn successes<T>(results: Seq<Result<(), T>>) -> int {
    if results.len() > 0 && results.last() is Err {
        results.len() - 1
    } else {
        results.len() as int
    }
}

/// What single pushes have put in.
proof fn lemma_single_pushes<T>(
    states: Seq<Batcher<T>>,
    items: Seq<T>,
    results: Seq<Result<(), T>>,
    n: int,
)
    requires
        single_pushes(states, items, results),
        0 <= n <= successes(results),
        states[0]@.len() <= states[0].cap(),
    ensures
        states[n]@ == states[0]@ + items.take(n),
        states[n].cap() == states[0].cap(),
        states[n]@.len() <= states[n].cap(),
    decreases n,
{
    if n == 0 {
        assert(states[0]@ + items.take(0) =~= states[0]@);
    } else {
        lemma_single_pushes(states, items, results, n - 1);
        assert(results[n - 1] is Ok);
        assert(states[n]@ =~= states[0]@ + items.take(n));
    }
}

/// Pushing a batch does what pushing its items one by one does, up to the first that is
/// refused, where clones equal what they are made of: as many go in, and a batcher that
/// held the same then holds the same.
pub proof fn law_push_batch_is_single_pushes<T: Clone>(
    before: Batcher<T>,
    after: Batcher<T>,
    items: Seq<T>,
    count: int,
    states: Seq<Batcher<T>>,
    results: Seq<Result<(), T>>,
)
    requires
        before.wf(),
        batch_pushed(before.cap(), before@, items, after@, count),
        single_pushes(states, items, results),
        states[0].cap() == before.cap(),
        states[0]@ == before@,
        forall|a: T, b: T| #[trigger] cloned(a, b) ==> a == b,
    ensures
        count == successes(results),
        after@ == states.last()@,
{
    let n = successes(results);
    lemma_single_pushes(states, items, results, n);
    if n < results.len() {
        assert(results[n] is Err);
        assert(states.last() == states[n + 1]);
    }
    assert(states.last()@ == states[n]@);
    law_a_batch_is_single_pushes(before.cap(), before@, items, after@, count);
    lemma_pushed_singly(before.cap(), before@, items);
}

impl<T> Kept for Batcher<T> {
    /// The capacity and the settings.
    type Made = (nat, BatchConfig);

    /// What is pending, oldest first.
    type Contents = Seq<T>;

    open spec fn sound(&self) -> bool {
        self.wf()
    }

    open spec fn made_with(&self) -> (nat, BatchConfig) {
        (self.cap(), self.settings())
    }

    open spec fn contents(&self) -> Seq<T> {
        self@
    }
}

/// Moves out the oldest items, up to the batch size.
pub struct Drain;

impl<T> Operation<Batcher<T>> for Push<T> {
    type Reply = Result<(), T>;

    open spec fn replies(
        self,
        made: (nat, BatchConfig),
        before: Seq<T>,
        after: Seq<T>,
        r: Result<(), T>,
    ) -> bool {
        push_came(made.0, before, after, self.0, r)
    }

    fn apply(self, batcher: &mut Batcher<T>) -> (r: Result<(), T>)
        ensures
            push_came(old(batcher).cap(), old(batcher)@, final(batcher)@, self.0, r),
    {
        batcher.push(self.0)
    }
}

impl<T> Operation<Batcher<T>> for TakeIn<T> {
    type Reply = (usize, Vec<T>);

    open spec fn replies(
        self,
        made: (nat, BatchConfig),
        before: Seq<T>,
        after: Seq<T>,
        r: (usize, Vec<T>),
    ) -> bool {
        take_in_came(made.0, before, after, self.0@, r.0 as int) && r.1@ == self.0@.skip(r.0 as int)
    }

    fn apply(self, batcher: &mut Batcher<T>) -> (r: (usize, Vec<T>))
        ensures
            take_in_came(old(batcher).cap(), old(batcher)@, final(batcher)@, self.0@, r.0 as int),
            r.1@ == self.0@.skip(r.0 as int),
    {
        batcher.take_in(self.0)
    }
}

impl<T> Operation<Batcher<T>> for Drain {
    type Reply = Vec<T>;

    open spec fn replies(
        self,
        made: (nat, BatchConfig),
        before: Seq<T>,
        after: Seq<T>,
        r: Vec<T>,
    ) -> bool {
        move_out_came(made.0, before, after, made.1.max_batch_size as nat, r@)
    }

    fn apply(self, batcher: &mut Batcher<T>) -> (r: Vec<T>)
        ensures
            move_out_came(
                old(batcher).cap(),
                old(batcher)@,
                final(batcher)@,
                old(batcher).settings().max_batch_size as nat,
                r@,
            ),
    {
        let mut out: Vec<T> = Vec::new();
        let _count: usize = batcher.drain(&mut out);
        assert(out@ =~= old(batcher)@.take(_count as int));
        out
    }
}

impl<T> Operation<Batcher<T>> for Look {
    type Reply = usize;

    open spec fn replies(
        self,
        made: (nat, BatchConfig),
        before: Seq<T>,
        after: Seq<T>,
        r: usize,
    ) -> bool {
        before == after && r == before.len()
    }

    fn apply(self, batcher: &mut Batcher<T>) -> (r: usize) {
        batcher.pending_count()
    }
}

impl<T> Operation<Batcher<T>> for Measure {
    type Reply = usize;

    open spec fn replies(
        self,
        made: (nat, BatchConfig),
        before: Seq<T>,
        after: Seq<T>,
        r: usize,
    ) -> bool {
        before == after && r == made.0
    }

    fn apply(self, batcher: &mut Batcher<T>) -> (r: usize) {
        batcher.ring.capacity()
    }
}

/// A [`Batcher`] behind a lock, shared by its clones.
///
/// Other clones may push and drain between two calls. What a call comes to is stated
/// over what it found.
#[verifier::reject_recursive_types(T)]
pub struct SharedBatcher<T>(Guarded<Batcher<T>>);

impl<T> SharedBatcher<T> {
    /// The batcher that all clones share.
    pub closed spec fn lock(&self) -> Guarded<Batcher<T>> {
        self.0
    }

    /// How many items fit.
    pub open spec fn cap(&self) -> nat {
        self.lock().made().0
    }

    /// How it drains.
    pub open spec fn settings(&self) -> BatchConfig {
        self.lock().made().1
    }

    /// In one go what is pending went from `before` to `after`, oldest item first.
    pub open spec fn went(&self, before: Seq<T>, after: Seq<T>) -> bool {
        self.lock().went(before, after)
    }

    /// An empty shared batcher for `capacity` items, a power of two.
    #[must_use]
    pub fn new(capacity: usize, config: BatchConfig) -> (r: Self)
        requires
            is_pow2(capacity as int),
        ensures
            r.cap() == capacity,
            r.settings() == config,
            r.lock().first() == Seq::<T>::empty(),
    {
        let batcher = Batcher::new(capacity, config);
        SharedBatcher(Guarded::new(batcher))
    }

    /// Appends `item`, or hands it back where the queue is full.
    pub fn push(&self, item: T) -> (r: Result<(), T>)
        ensures
            exists|before: Seq<T>, after: Seq<T>| #[trigger]
                self.went(before, after) && push_came(self.cap(), before, after, item, r),
    {
        let mut log = TurnLog::new();
        let r = self.push_on_record(item, &mut log);
        assert(self.went(log@.last().0, log@.last().1));
        r
    }

    /// Appends `item`, or hands it back where the queue is full, in the one turn that is
    /// taken.
    pub fn push_on_record(&self, item: T, log: &mut TurnLog<Seq<T>>) -> (r: Result<(), T>)
        ensures
            took_one_turn(old(log)@, final(log)@),
            self.went(final(log)@.last().0, final(log)@.last().1),
            push_came(self.cap(), final(log)@.last().0, final(log)@.last().1, item, r),
    {
        self.0.turn(Push(item), log)
    }

    /// Appends clones of as many of `items` as fit, in order, and returns how many that
    /// are. They are made before the queue is locked.
    pub fn push_batch(&self, items: &[T]) -> (count: usize) where T: Clone
        ensures
            exists|before: Seq<T>, after: Seq<T>| #[trigger]
                self.went(before, after) && batch_pushed(
                    self.cap(),
                    before,
                    items@,
                    after,
                    count as int,
                ),
    {
        let mut log = TurnLog::new();
        let count: usize = self.push_batch_on_record(items, &mut log);
        assert(self.went(log@.last().0, log@.last().1));
        count
    }

    /// Appends clones of as many of `items` as fit, in order, and returns how many that
    /// are, in the one turn that is put on record.
    pub fn push_batch_on_record(&self, items: &[T], log: &mut TurnLog<Seq<T>>) -> (count: usize) where
        T: Clone,

        ensures
            took_one_turn(old(log)@, final(log)@),
            self.went(final(log)@.last().0, final(log)@.last().1),
            batch_pushed(
                self.cap(),
                final(log)@.last().0,
                items@,
                final(log)@.last().1,
                count as int,
            ),
    {
        let most: usize = self.capacity().min(items.len());
        let copies = clones(items, most);
        let ghost made = copies@;
        let (count, _left) = self.0.turn(TakeIn(copies), log);
        proof {
            let turn = log@.last();
            lemma_clones_came(self.cap(), turn.0, turn.1, items@, made, count as int);
        }
        count
    }

    /// Moves the oldest items to the end of `dest`, in order, up to the batch size, and
    /// returns how many that are.
    pub fn drain(&self, dest: &mut Vec<T>) -> (count: usize)
        ensures
            exists|before: Seq<T>, after: Seq<T>, out: Seq<T>| #[trigger]
                self.went(before, after) && #[trigger] move_out_came(
                    self.cap(),
                    before,
                    after,
                    self.settings().max_batch_size as nat,
                    out,
                ) && final(dest)@ == old(dest)@ + out && count == out.len(),
    {
        let mut log = TurnLog::new();
        let count: usize = self.drain_on_record(dest, &mut log);
        proof {
            let turn = log@.last();
            let out = turn.0.take(count as int);
            let most = self.settings().max_batch_size as nat;
            assert(self.went(turn.0, turn.1));
            assert(move_out_came(self.cap(), turn.0, turn.1, most, out));
        }
        count
    }

    /// Moves the oldest items to the end of `dest`, in order, up to the batch size, and
    /// returns how many that are, in the one turn that is taken.
    pub fn drain_on_record(
        &self,
        dest: &mut Vec<T>,
        log: &mut TurnLog<Seq<T>>,
    ) -> (count: usize)
        ensures
            took_one_turn(old(log)@, final(log)@),
            self.went(final(log)@.last().0, final(log)@.last().1),
            count <= final(log)@.last().0.len(),
            move_out_came(
                self.cap(),
                final(log)@.last().0,
                final(log)@.last().1,
                self.settings().max_batch_size as nat,
                final(log)@.last().0.take(count as int),
            ),
            final(dest)@ == old(dest)@ + final(log)@.last().0.take(count as int),
    {
        let mut out = self.0.turn(Drain, log);
        let count: usize = out.len();
        dest.append(&mut out);
        count
    }

    /// How many items fit.
    fn capacity(&self) -> (n: usize)
        ensures
            n == self.cap(),
    {
        let mut log = TurnLog::new();
        self.0.turn(Measure, &mut log)
    }

    /// How many items are pending.
    #[must_use]
    pub fn pending_count(&self) -> (n: usize)
        ensures
            exists|held: Seq<T>| #[trigger] self.went(held, held) && n == held.len(),
    {
        let mut log = TurnLog::new();
        let n: usize = self.0.turn(Look, &mut log);
        assert(self.went(log@.last().0, log@.last().0));
        n
    }

    /// Whether nothing is pending.
    #[must_use]
    pub fn is_empty(&self) -> (b: bool)
        ensures
            exists|held: Seq<T>| #[trigger] self.went(held, held) && b == (held.len() == 0),
    {
        self.pending_count() == 0
    }
}

impl<T> Clone for SharedBatcher<T> {
    fn clone(&self) -> (r: Self)
        ensures
            r.lock() == self.lock(),
            r.cap() == self.cap(),
            r.settings() == self.settings(),
    {
        SharedBatcher(self.0.clone())
    }
}

} // verus!
