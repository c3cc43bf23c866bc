//! Bounded first-in first-out buffers.
use crate::sync::guarded::{Guarded, Kept, Operation};
use crate::sync::turn_log::TurnLog;
use vstd::arithmetic::power2::is_pow2;
use vstd::prelude::*;

verus! {

/// A bounded queue over a ring of slots, whose number is a power of two.
pub struct RingBuffer<T> {
    buffer: Vec<Option<T>>,
    head: usize,
    len: usize,
}

/// The slot of item `i` of a queue that starts at slot `head` of `cap`.
spec fn slot(head: int, i: int, cap: int) -> int {
    if head + i < cap {
        head + i
    } else {
        head + i - cap
    }
}

impl<T> View for RingBuffer<T> {
    type V = Seq<T>;

    closed spec fn view(&self) -> Seq<T> {
        Seq::new(
            self.len as nat,
            |i: int| self.buffer@[slot(self.head as int, i, self.buffer@.len() as int)]->0,
        )
    }
}

/// What a queue of `cap` items holds once `item` was offered to it.
pub open spec fn pushed<T>(cap: nat, held: Seq<T>, item: T) -> Seq<T> {
    if held.len() < cap {
        held.push(item)
    } else {
        held
    }
}

/// The item that leaves next.
pub open spec fn oldest<T>(held: Seq<T>) -> Option<T> {
    if held.len() > 0 {
        Some(held[0])
    } else {
        None
    }
}

/// What a queue holds once its oldest item left.
pub open spec fn popped<T>(held: Seq<T>) -> Seq<T> {
    if held.len() > 0 {
        held.skip(1)
    } else {
        held
    }
}

/// What is done to a queue.
pub ghost enum RingStep<T> {
    Push(T),
    Pop,
}

/// A queue, with all that entered it and all that left it.
pub ghost struct RingRun<T> {
    pub held: Seq<T>,
    pub entered: Seq<T>,
    pub left: Seq<T>,
}

/// A queue of `cap` items after the steps, from empty.
pub open spec fn ring_run<T>(cap: nat, steps: Seq<RingStep<T>>) -> RingRun<T>
    decreases steps.len(),
{
    if steps.len() == 0 {
        RingRun { held: Seq::empty(), entered: Seq::empty(), left: Seq::empty() }
    } else {
        let run = ring_run(cap, steps.drop_last());
        match steps.last() {
            RingStep::Push(item) => RingRun {
                held: pushed(cap, run.held, item),
                entered: if run.held.len() < cap {
                    run.entered.push(item)
                } else {
                    run.entered
                },
                left: run.left,
            },
            RingStep::Pop => RingRun {
                held: popped(run.held),
                entered: run.entered,
                left: match oldest(run.held) {
                    Some(item) => run.left.push(item),
                    None => run.left,
                },
            },
        }
    }
}

/// First in, first out: whatever is done to a queue, what left it is what entered it
/// first, in that order; the rest is still held, and never more than fits.
pub proof fn law_ring_is_first_in_first_out<T>(cap: nat, steps: Seq<RingStep<T>>)
    ensures
        ring_run(cap, steps).left + ring_run(cap, steps).held == ring_run(cap, steps).entered,
        ring_run(cap, steps).held.len() <= cap,
    decreases steps.len(),
{
    if steps.len() > 0 {
        law_ring_is_first_in_first_out(cap, steps.drop_last());
        let run = ring_run(cap, steps.drop_last());
        let next = ring_run(cap, steps);
        assert(next.left + next.held =~= next.entered);
    } else {
        let run = ring_run(cap, steps);
        assert(run.left + run.held =~= run.entered);
    }
}

/// How many of `offered` items fit where `before` of `cap` are there.
pub open spec fn fitting(cap: nat, before: nat, offered: nat) -> int {
    if cap - before <= offered {
        cap - before
    } else {
        offered as int
    }
}

/// `after` is a queue of `cap` items that held `held`, once clones of the first `count`
/// of `items` were appended: of as many as fit.
pub open spec fn batch_pushed<T: Clone>(
    cap: nat,
    held: Seq<T>,
    items: Seq<T>,
    after: Seq<T>,
    count: int,
) -> bool {
    &&& count == fitting(cap, held.len(), items.len())
    &&& after.len() == held.len() + count
    &&& after.take(held.len() as int) == held
    &&& forall|i: int| 0 <= i < count ==> cloned(items[i], #[trigger] after[held.len() + i])
}

/// A queue of `cap` items once `items` were pushed one by one up to the first that is
/// refused, and how many went in.
pub open spec fn pushed_singly<T>(cap: nat, held: Seq<T>, items: Seq<T>) -> (Seq<T>, int)
    decreases items.len(),
{
    if items.len() == 0 || held.len() >= cap {
        (held, 0)
    } else {
        let rest = pushed_singly(cap, pushed(cap, held, items[0]), items.skip(1));
        (rest.0, rest.1 + 1)
    }
}

/// Pushing one by one puts in as many of the first items as fit.
pub(crate) proof fn lemma_pushed_singly<T>(cap: nat, held: Seq<T>, items: Seq<T>)
    requires
        held.len() <= cap,
    ensures
        pushed_singly(cap, held, items).1 == fitting(cap, held.len(), items.len()),
        pushed_singly(cap, held, items).0 == held + items.take(
            fitting(cap, held.len(), items.len()),
        ),
    decreases items.len(),
{
    let n = fitting(cap, held.len(), items.len());
    if items.len() == 0 || held.len() >= cap {
        assert(held + items.take(n) =~= held);
    } else {
        let next = pushed(cap, held, items[0]);
        lemma_pushed_singly(cap, next, items.skip(1));
        assert(next + items.skip(1).take(n - 1) =~= held + items.take(n));
    }
}

/// Pushing a batch does what single pushes do up to the first refusal: as many items go
/// in, and the queue holds what it would hold after pushing the clones one by one, which
/// are the items themselves where clones equal what they are made of.
pub proof fn law_a_batch_is_single_pushes<T: Clone>(
    cap: nat,
    held: Seq<T>,
    items: Seq<T>,
    after: Seq<T>,
    count: int,
)
    requires
        held.len() <= cap,
        batch_pushed(cap, held, items, after, count),
    ensures
        count == pushed_singly(cap, held, items).1,
        after == pushed_singly(cap, held, after.skip(held.len() as int)).0,
        (forall|a: T, b: T| #[trigger] cloned(a, b) ==> a == b) ==> after == pushed_singly(
            cap,
            held,
            items,
        ).0,
{
    let copies = after.skip(held.len() as int);
    lemma_pushed_singly(cap, held, items);
    lemma_pushed_singly(cap, held, copies);
    assert(copies.take(count) =~= copies);
    assert(after =~= after.take(held.len() as int) + copies);
    if forall|a: T, b: T| #[trigger] cloned(a, b) ==> a == b {
        assert forall|i: int| 0 <= i < count implies copies[i] == #[trigger] items.take(count)[i] by {
            assert(cloned(items[i], after[held.len() + i]));
        }
        assert(copies =~= items.take(count));
    }
}

impl<T> RingBuffer<T> {
    /// How many items fit.
    pub closed spec fn cap(&self) -> nat {
        self.buffer@.len()
    }

    /// The slots from the head on hold the items; the others are empty.
    pub closed spec fn wf(&self) -> bool {
        &&& is_pow2(self.buffer@.len() as int)
        &&& self.buffer@.len() <= usize::MAX
        &&& self.head < self.buffer@.len()
        &&& self.len <= self.buffer@.len()
        &&& forall|i: int|
            0 <= i < self.len ==> (#[trigger] self.buffer@[slot(
                self.head as int,
                i,
                self.buffer@.len() as int,
            )]) is Some
    }

    /// An empty queue of `capacity` items, a power of two.
    pub fn new(capacity: usize) -> (r: Self)
        requires
            is_pow2(capacity as int),
        ensures
            r.wf(),
            r.cap() == capacity,
            r@ == Seq::<T>::empty(),
    {
        let mut buffer: Vec<Option<T>> = Vec::with_capacity(capacity);
        for i in 0..capacity
            invariant
                buffer@.len() == i,
        {
            buffer.push(None);
        }
        let r = RingBuffer { buffer, head: 0, len: 0 };
        reveal_with_fuel(is_pow2, 1);
        assert(r@ =~= Seq::<T>::empty());
        r
    }

    /// The slot `i` places behind the head.
    fn index(&self, i: usize) -> (idx: usize)
        requires
            self.head < self.buffer@.len() <= usize::MAX,
            i < self.buffer@.len(),
        ensures
            idx == slot(self.head as int, i as int, self.buffer@.len() as int),
            idx < self.buffer@.len(),
    {
        let cap: usize = self.buffer.len();
        if i < cap - self.head {
            self.head + i
        } else {
            i - (cap - self.head)
        }
    }

    /// Appends `item`, or hands it back where the queue is full.
    pub fn push(&mut self, item: T) -> (r: Result<(), T>)
        requires
            old(self).wf(),
        ensures
            final(self).wf(),
            final(self).cap() == old(self).cap(),
            r is Ok == (old(self)@.len() < old(self).cap()),
            r matches Err(back) ==> back == item,
            final(self)@ == pushed(old(self).cap(), old(self)@, item),
    {
        if self.len >= self.buffer.len() {
            return Err(item);
        }
        let idx: usize = self.index(self.len);
        self.buffer[idx] = Some(item);
        self.len = self.len + 1;
        assert(self@ =~= old(self)@.push(item));
        Ok(())
    }

    /// Removes and returns the oldest item.
    pub fn pop(&mut self) -> (r: Option<T>)
        requires
            old(self).wf(),
        ensures
            final(self).wf(),
            final(self).cap() == old(self).cap(),
            r == oldest(old(self)@),
            final(self)@ == popped(old(self)@),
    {
        if self.len == 0 {
            return None;
        }
        let idx: usize = self.head;
        assert(slot(self.head as int, 0, self.buffer@.len() as int) == idx);
        let item = self.buffer[idx].take();
        self.head = if self.head + 1 < self.buffer.len() {
            self.head + 1
        } else {
            0
        };
        self.len = self.len - 1;
        proof {
            let cap = self.buffer@.len() as int;
            assert forall|i: int| 0 <= i < self.len implies {
                &&& (#[trigger] self.buffer@[slot(self.head as int, i, cap)]) is Some
                &&& self.buffer@[slot(self.head as int, i, cap)] == old(self).buffer@[slot(
                    old(self).head as int,
                    i + 1,
                    cap,
                )]
            } by {
                assert(slot(self.head as int, i, cap) == slot(old(self).head as int, i + 1, cap));
                assert(old(self).buffer@[slot(old(self).head as int, i + 1, cap)] is Some);
            }
            assert(self@ =~= old(self)@.skip(1));
        }
        item
    }

    /// Appends clones of as many of `items` as fit, in order, and returns how
    /// many that are.
    pub fn push_batch(&mut self, items: &[T]) -> (count: usize) where T: Clone
        requires
            old(self).wf(),
        ensures
            final(self).wf(),
            final(self).cap() == old(self).cap(),
            batch_pushed(old(self).cap(), old(self)@, items@, final(self)@, count as int),
    {
        let available: usize = self.buffer.len() - self.len;
        let count: usize = available.min(items.len());
        let ghost before = self@;
        for i in 0..count
            invariant
                self.wf(),
                self.cap() == old(self).cap(),
                before == old(self)@,
                count <= items@.len(),
                count <= self.cap() - before.len(),
                self@.len() == before.len() + i,
                self@.take(before.len() as int) == before,
                forall|j: int| 0 <= j < i ==> cloned(items@[j], #[trigger] self@[before.len() + j]),
        {
            let ghost held = self@;
            let copy = items[i].clone();
            let pushed = self.push(copy);
            assert(pushed is Ok);
            proof {
                assert(self@.take(before.len() as int) =~= held.take(before.len() as int));
                assert forall|j: int| 0 <= j < i + 1 implies cloned(
                    items@[j],
                    #[trigger] self@[before.len() + j],
                ) by {
                    if j < i {
                        assert(self@[before.len() + j] == held[before.len() + j]);
                    }
                }
            }
        }
        count
    }

    /// Moves up to `max_count` of the oldest items to the end of `dest`, in
    /// order, and returns how many that are.
    pub fn pop_batch(&mut self, dest: &mut Vec<T>, max_count: usize) -> (count: usize)
        requires
            old(self).wf(),
        ensures
            final(self).wf(),
            final(self).cap() == old(self).cap(),
            count == if old(self)@.len() <= max_count {
                old(self)@.len()
            } else {
                max_count as nat
            },
            final(dest)@ == old(dest)@ + old(self)@.take(count as int),
            final(self)@ == old(self)@.skip(count as int),
    {
        let count: usize = self.len.min(max_count);
        let ghost before = self@;
        let ghost given = dest@;
        assert(before.skip(0) =~= before);
        assert(given + before.take(0) =~= given);
        for i in 0..count
            invariant
                self.wf(),
                self.cap() == old(self).cap(),
                before == old(self)@,
                given == old(dest)@,
                count <= before.len(),
                self@ == before.skip(i as int),
                dest@ == given + before.take(i as int),
        {
            match self.pop() {
                Some(item) => {
                    dest.push(item);
                },
                None => {
                    assert(false);
                },
            }
            assert(before.skip(i as int).skip(1) =~= before.skip(i + 1));
            assert(dest@ =~= given + before.take(i + 1));
        }
        count
    }

    /// Moves in as many of `items` as fit, in order; returns how many that are, and the
    /// others.
    pub fn take_in(&mut self, items: Vec<T>) -> (r: (usize, Vec<T>))
        requires
            old(self).wf(),
        ensures
            final(self).wf(),
            final(self).cap() == old(self).cap(),
            r.0 == (if old(self).cap() - old(self)@.len() <= items@.len() {
                old(self).cap() - old(self)@.len()
            } else {
                items@.len() as int
            }),
            final(self)@ == old(self)@ + items@.take(r.0 as int),
            r.1@ == items@.skip(r.0 as int),
    {
        let ghost all = items@;
        let ghost before = self@;
        let ghost room = self.cap() - before.len();
        let total: usize = items.len();
        let mut count: usize = 0;
        let mut left: Vec<T> = Vec::new();
        proof {
            assert(before + all.take(0) =~= before);
        }
        for item in it: items
            invariant
                it.seq() == all,
                all.len() == total,
                self.wf(),
                self.cap() == old(self).cap(),
                before == old(self)@,
                room == old(self).cap() - before.len(),
                0 <= room,
                count == (if room <= it.index() {
                    room
                } else {
                    it.index() as int
                }),
                self@ == before + all.take(count as int),
                left@ == all.subrange(count as int, it.index() as int),
        {
            let ghost i = it.index() as int;
            match self.push(item) {
                Ok(_) => {
                    count = count + 1;
                    proof {
                        assert((before + all.take(i)).push(item) =~= before + all.take(i + 1));
                        assert(left@ =~= all.subrange(i + 1, i + 1));
                    }
                },
                Err(back) => {
                    left.push(back);
                    assert(left@ =~= all.subrange(count as int, i + 1));
                },
            }
        }
        assert(left@ =~= all.skip(count as int));
        (count, left)
    }

    /// How many items are queued.
    pub fn len(&self) -> (n: usize)
        ensures
            n == self@.len(),
    {
        self.len
    }

    /// Whether nothing is queued.
    pub fn is_empty(&self) -> (b: bool)
        ensures
            b == (self@.len() == 0),
    {
        self.len == 0
    }

    /// How many items fit.
    pub fn capacity(&self) -> (n: usize)
        ensures
            n == self.cap(),
    {
        self.buffer.len()
    }

    /// How many more items fit.
    pub fn remaining(&self) -> (n: usize)
        requires
            self.wf(),
        ensures
            n == self.cap() - self@.len(),
    {
        self.buffer.len() - self.len
    }
}

impl<T> Kept for RingBuffer<T> {
    /// The capacity.
    type Made = nat;

    /// The items, oldest first.
    type Contents = Seq<T>;

    open spec fn sound(&self) -> bool {
        self.wf()
    }

    open spec fn made_with(&self) -> nat {
        self.cap()
    }

    open spec fn contents(&self) -> Seq<T> {
        self@
    }
}

/// Appends an item, or hands it back where there is no room.
pub struct Push<T>(pub T);

/// Removes the oldest item.
pub struct Pop;

/// Moves in as many items as fit, and hands the others back.
pub struct TakeIn<T>(pub Vec<T>);

/// Moves out the oldest items, up to a number.
pub struct MoveOut(pub usize);

/// Looks how much is there.
pub struct Look;

/// Looks how much fits.
pub struct Measure;

/// What offering `item` to a queue of `cap` items comes to, which goes from `before` to
/// `after`: it is appended, or handed back where there is no room.
pub open spec fn push_came<T>(
    cap: nat,
    before: Seq<T>,
    after: Seq<T>,
    item: T,
    r: Result<(), T>,
) -> bool {
    &&& before.len() <= cap
    &&& after == pushed(cap, before, item)
    &&& r is Ok == (before.len() < cap)
    &&& r matches Err(back) ==> back == item
}

/// What offering `items` to a queue of `cap` items comes to, which goes from `before` to
/// `after`: the first `count` are appended, which are as many as fit.
pub open spec fn take_in_came<T>(
    cap: nat,
    before: Seq<T>,
    after: Seq<T>,
    items: Seq<T>,
    count: int,
) -> bool {
    &&& before.len() <= cap
    &&& count == fitting(cap, before.len(), items.len())
    &&& after == before + items.take(count)
}

/// What taking up to `most` items comes to, from a queue of `cap` items that goes from
/// `before` to `after`: `out` are the oldest, in order.
pub open spec fn move_out_came<T>(
    cap: nat,
    before: Seq<T>,
    after: Seq<T>,
    most: nat,
    out: Seq<T>,
) -> bool {
    &&& before.len() <= cap
    &&& out.len() == (if before.len() <= most {
        before.len()
    } else {
        most
    })
    &&& out == before.take(out.len() as int)
    &&& after == before.skip(out.len() as int)
}

/// Clones of the first items were offered: those that went in are clones of as many as fit.
pub(crate) proof fn lemma_clones_came<T: Clone>(
    cap: nat,
    before: Seq<T>,
    after: Seq<T>,
    items: Seq<T>,
    copies: Seq<T>,
    count: int,
)
    requires
        take_in_came(cap, before, after, copies, count),
        copies.len() == if cap <= items.len() {
            cap
        } else {
            items.len()
        },
        forall|i: int| 0 <= i < copies.len() ==> cloned(items[i], #[trigger] copies[i]),
    ensures
        batch_pushed(cap, before, items, after, count),
{
    assert(after.take(before.len() as int) =~= before);
    assert forall|i: int| 0 <= i < count implies cloned(
        items[i],
        #[trigger] after[before.len() + i],
    ) by {
        assert(after[before.len() + i] == copies[i]);
    }
}

impl<T> Operation<RingBuffer<T>> for Push<T> {
    type Reply = Result<(), T>;

    open spec fn replies(self, cap: nat, before: Seq<T>, after: Seq<T>, r: Result<(), T>) -> bool {
        push_came(cap, before, after, self.0, r)
    }

    fn apply(self, ring: &mut RingBuffer<T>) -> (r: Result<(), T>)
        ensures
            push_came(old(ring).cap(), old(ring)@, final(ring)@, self.0, r),
    {
        ring.push(self.0)
    }
}

impl<T> Operation<RingBuffer<T>> for Pop {
    type Reply = Option<T>;

    open spec fn replies(self, cap: nat, before: Seq<T>, after: Seq<T>, r: Option<T>) -> bool {
        before.len() <= cap && r == oldest(before) && after == popped(before)
    }

    fn apply(self, ring: &mut RingBuffer<T>) -> (r: Option<T>)
        ensures
            match r {
                Some(item) => old(ring)@.len() > 0 && item == old(ring)@[0] && final(ring)@
                    == old(ring)@.skip(1),
                None => old(ring)@.len() == 0 && final(ring)@ == old(ring)@,
            },
    {
        ring.pop()
    }
}

impl<T> Operation<RingBuffer<T>> for TakeIn<T> {
    type Reply = (usize, Vec<T>);

    open spec fn replies(
        self,
        cap: nat,
        before: Seq<T>,
        after: Seq<T>,
        r: (usize, Vec<T>),
    ) -> bool {
        take_in_came(cap, before, after, self.0@, r.0 as int) && r.1@ == self.0@.skip(r.0 as int)
    }

    fn apply(self, ring: &mut RingBuffer<T>) -> (r: (usize, Vec<T>))
        ensures
            take_in_came(old(ring).cap(), old(ring)@, final(ring)@, self.0@, r.0 as int),
            r.1@ == self.0@.skip(r.0 as int),
    {
        ring.take_in(self.0)
    }
}

impl<T> Operation<RingBuffer<T>> for MoveOut {
    type Reply = Vec<T>;

    open spec fn replies(self, cap: nat, before: Seq<T>, after: Seq<T>, r: Vec<T>) -> bool {
        move_out_came(cap, before, after, self.0 as nat, r@)
    }

    fn apply(self, ring: &mut RingBuffer<T>) -> (r: Vec<T>)
        ensures
            move_out_came(old(ring).cap(), old(ring)@, final(ring)@, self.0 as nat, r@),
    {
        let mut out: Vec<T> = Vec::new();
        let _count: usize = ring.pop_batch(&mut out, self.0);
        assert(out@ =~= old(ring)@.take(_count as int));
        out
    }
}

impl<T> Operation<RingBuffer<T>> for Look {
    type Reply = usize;

    open spec fn replies(self, cap: nat, before: Seq<T>, after: Seq<T>, r: usize) -> bool {
        before == after && r == before.len() <= cap
    }

    fn apply(self, ring: &mut RingBuffer<T>) -> (r: usize) {
        ring.len()
    }
}

impl<T> Operation<RingBuffer<T>> for Measure {
    type Reply = usize;

    open spec fn replies(self, cap: nat, before: Seq<T>, after: Seq<T>, r: usize) -> bool {
        before == after && r == cap
    }

    fn apply(self, ring: &mut RingBuffer<T>) -> (r: usize) {
        ring.capacity()
    }
}

/// One turn was taken since `before`.
pub open spec fn took_one_turn<C>(before: Seq<(C, C)>, after: Seq<(C, C)>) -> bool {
    after.len() == before.len() + 1 && after.drop_last() == before
}

/// A [`RingBuffer`] behind a lock, shared by its clones.
///
/// Other clones may push and pop between two calls. What a call comes to is stated over
/// what it found.
#[verifier::reject_recursive_types(T)]
pub struct SharedRingBuffer<T>(Guarded<RingBuffer<T>>);

impl<T> SharedRingBuffer<T> {
    /// The queue that all clones share.
    pub closed spec fn lock(&self) -> Guarded<RingBuffer<T>> {
        self.0
    }

    /// How many items fit.
    pub open spec fn cap(&self) -> nat {
        self.lock().made()
    }

    /// In one go the queue went from `before` to `after`, oldest item first.
    pub open spec fn went(&self, before: Seq<T>, after: Seq<T>) -> bool {
        self.lock().went(before, after)
    }

    /// An empty shared queue of `capacity` items, a power of two.
    pub fn new(capacity: usize) -> (r: Self)
        requires
            is_pow2(capacity as int),
        ensures
            r.cap() == capacity,
            r.lock().first() == Seq::<T>::empty(),
    {
        let ring = RingBuffer::new(capacity);
        SharedRingBuffer(Guarded::new(ring))
    }

    /// Appends `item`, or hands it back where the queue is full.
    pub fn push(&self, item: T) -> (r: Result<(), T>)
        ensures
            exists|before: Seq<T>, after: Seq<T>| #[trigger]
                self.went(before, after) && push_came(self.cap(), before, after, item, r),
    {
        let mut log = TurnLog::new();
        let r = self.push_on_record(item, &mut log);
        assert(self.went(log@.last().0, log@.last().1));
        r
    }

    /// Appends `item`, or hands it back where the queue is full, in the one turn that is
    /// taken.
    pub fn push_on_record(&self, item: T, log: &mut TurnLog<Seq<T>>) -> (r: Result<(), T>)
        ensures
            took_one_turn(old(log)@, final(log)@),
            self.went(final(log)@.last().0, final(log)@.last().1),
            push_came(self.cap(), final(log)@.last().0, final(log)@.last().1, item, r),
    {
        self.0.turn(Push(item), log)
    }

    /// Removes and returns the oldest item.
    #[must_use]
    pub fn pop(&self) -> (r: Option<T>)
        ensures
            exists|before: Seq<T>, after: Seq<T>| #[trigger]
                self.went(before, after) && r == oldest(before) && after == popped(before),
    {
        let mut log = TurnLog::new();
        let r = self.pop_on_record(&mut log);
        assert(self.went(log@.last().0, log@.last().1));
        r
    }

    /// Removes and returns the oldest item, in the one turn that is taken.
    pub fn pop_on_record(&self, log: &mut TurnLog<Seq<T>>) -> (r: Option<T>)
        ensures
            took_one_turn(old(log)@, final(log)@),
            self.went(final(log)@.last().0, final(log)@.last().1),
            r == oldest(final(log)@.last().0),
            final(log)@.last().1 == popped(final(log)@.last().0),
    {
        self.0.turn(Pop, log)
    }

    /// Appends clones of as many of `items` as fit, in order, and returns how many that
    /// are. They are made before the queue is locked.
    pub fn push_batch(&self, items: &[T]) -> (count: usize) where T: Clone
        ensures
            exists|before: Seq<T>, after: Seq<T>| #[trigger]
                self.went(before, after) && batch_pushed(
                    self.cap(),
                    before,
                    items@,
                    after,
                    count as int,
                ),
    {
        let mut log = TurnLog::new();
        let count: usize = self.push_batch_on_record(items, &mut log);
        assert(self.went(log@.last().0, log@.last().1));
        count
    }

    /// Appends clones of as many of `items` as fit, in order, and returns how many that
    /// are, in the one turn that is put on record.
    pub fn push_batch_on_record(&self, items: &[T], log: &mut TurnLog<Seq<T>>) -> (count: usize) where
        T: Clone,

        ensures
            took_one_turn(old(log)@, final(log)@),
            self.went(final(log)@.last().0, final(log)@.last().1),
            batch_pushed(
                self.cap(),
                final(log)@.last().0,
                items@,
                final(log)@.last().1,
                count as int,
            ),
    {
        let most: usize = self.capacity().min(items.len());
        let copies = clones(items, most);
        let ghost made = copies@;
        let (count, _left) = self.0.turn(TakeIn(copies), log);
        proof {
            let turn = log@.last();
            lemma_clones_came(self.cap(), turn.0, turn.1, items@, made, count as int);
        }
        count
    }

    /// Moves up to `max_count` of the oldest items to the end of `dest`, in order, and
    /// returns how many that are.
    pub fn pop_batch(&self, dest: &mut Vec<T>, max_count: usize) -> (count: usize)
        ensures
            exists|before: Seq<T>, after: Seq<T>, out: Seq<T>| #[trigger]
                self.went(before, after) && #[trigger] move_out_came(
                    self.cap(),
                    before,
                    after,
                    max_count as nat,
                    out,
                ) && final(dest)@ == old(dest)@ + out && count == out.len(),
    {
        let mut log = TurnLog::new();
        let count: usize = self.pop_batch_on_record(dest, max_count, &mut log);
        proof {
            let turn = log@.last();
            let out = turn.0.take(count as int);
            let most = max_count as nat;
            assert(self.went(turn.0, turn.1));
            assert(move_out_came(self.cap(), turn.0, turn.1, most, out));
        }
        count
    }

    /// Moves up to `max_count` of the oldest items to the end of `dest`, in order, and
    /// returns how many that are, in the one turn that is taken.
    pub fn pop_batch_on_record(
        &self,
        dest: &mut Vec<T>,
        max_count: usize,
        log: &mut TurnLog<Seq<T>>,
    ) -> (count: usize)
        ensures
            took_one_turn(old(log)@, final(log)@),
            self.went(final(log)@.last().0, final(log)@.last().1),
            count <= final(log)@.last().0.len(),
            move_out_came(
                self.cap(),
                final(log)@.last().0,
                final(log)@.last().1,
                max_count as nat,
                final(log)@.last().0.take(count as int),
            ),
            final(dest)@ == old(dest)@ + final(log)@.last().0.take(count as int),
    {
        let mut out = self.0.turn(MoveOut(max_count), log);
        let count: usize = out.len();
        dest.append(&mut out);
        count
    }

    /// Whether nothing is queued.
    #[must_use]
    pub fn is_empty(&self) -> (b: bool)
        ensures
            exists|held: Seq<T>| #[trigger] self.went(held, held) && b == (held.len() == 0),
    {
        self.len() == 0
    }

    /// How many items are queued.
    #[must_use]
    pub fn len(&self) -> (n: usize)
        ensures
            exists|held: Seq<T>| #[trigger] self.went(held, held) && n == held.len() <= self.cap(),
    {
        let mut log = TurnLog::new();
        let n: usize = self.0.turn(Look, &mut log);
        assert(self.went(log@.last().0, log@.last().0));
        n
    }

    /// How many items fit.
    #[must_use]
    pub fn capacity(&self) -> (n: usize)
        ensures
            n == self.cap(),
    {
        let mut log = TurnLog::new();
        self.0.turn(Measure, &mut log)
    }

    /// How many more items fit.
    #[must_use]
    pub fn remaining(&self) -> (n: usize)
        ensures
            exists|held: Seq<T>| #[trigger]
                self.went(held, held) && n == self.cap() - held.len(),
    {
        self.capacity() - self.len()
    }
}

/// Clones of the first `count` items.
pub fn clones<T: Clone>(items: &[T], count: usize) -> (r: Vec<T>)
    requires
        count <= items@.len(),
    ensures
        r@.len() == count,
        forall|i: int| 0 <= i < count ==> cloned(items@[i], #[trigger] r@[i]),
{
    let mut r: Vec<T> = Vec::with_capacity(count);
    for i in 0..count
        invariant
            count <= items@.len(),
            r@.len() == i,
            forall|j: int| 0 <= j < i ==> cloned(items@[j], #[trigger] r@[j]),
    {
        r.push(items[i].clone());
    }
    r
}

impl<T> Clone for SharedRingBuffer<T> {
    fn clone(&self) -> (r: Self)
        ensures
            r.lock() == self.lock(),
            r.cap() == self.cap(),
    {
        SharedRingBuffer(self.0.clone())
    }
}

/// Taking out up to `most` items takes the oldest and leaves the rest, in order, and stops
/// short of `most` only where nothing is left.
pub proof fn law_moving_out_takes_the_oldest<T>(
    cap: nat,
    before: Seq<T>,
    after: Seq<T>,
    most: nat,
    out: Seq<T>,
)
    requires
        before.len() <= cap,
    ensures
        move_out_came(cap, before, after, most, out) <==> out + after == before && out.len() <= most
            && (out.len() == most || after.len() == 0),
{
    if move_out_came(cap, before, after, most, out) {
        assert(out + after =~= before);
    }
    if out + after == before {
        assert(out =~= before.take(out.len() as int));
        assert(after =~= before.skip(out.len() as int));
    }
}

/// Putting in appends the first of the items, in order, and stops short of all only where
/// there is no room left.
pub proof fn law_taking_in_appends_what_fits<T>(
    cap: nat,
    before: Seq<T>,
    after: Seq<T>,
    items: Seq<T>,
    count: int,
)
    requires
        before.len() <= cap,
    ensures
        take_in_came(cap, before, after, items, count) <==> 0 <= count <= items.len() && after
            == before + items.take(count) && after.len() <= cap && (count == items.len()
            || after.len() == cap),
{
}

/// An item that is offered is appended where there is room, and handed back where there is
/// none; then nothing changes.
pub proof fn law_an_offered_item_goes_in_or_comes_back<T>(
    cap: nat,
    before: Seq<T>,
    after: Seq<T>,
    item: T,
    r: Result<(), T>,
)
    requires
        before.len() <= cap,
    ensures
        push_came(cap, before, after, item, r) <==> match r {
            Ok(_) => after.len() <= cap && after.len() > 0 && after.last() == item
                && after.drop_last() == before,
            Err(back) => before.len() == cap && after == before && back == item,
        },
{
    if r is Ok && after.len() > 0 && after.last() == item && after.drop_last() == before {
        assert(after =~= before.push(item));
    }
    if before.len() < cap {
        assert(before.push(item).drop_last() =~= before);
    }
}

/// The oldest item leaves first, and the others stay in order.
pub proof fn law_the_oldest_item_leaves<T>(held: Seq<T>)
    ensures
        match oldest(held) {
            Some(item) => seq![item] + popped(held) == held,
            None => held.len() == 0 && popped(held) == held,
        },
{
    if held.len() > 0 {
        assert(seq![held[0]] + held.skip(1) =~= held);
    }
}

/// A record of one turn more is the record before it with that turn at the end.
pub proof fn law_one_turn_is_added<C>(before: Seq<(C, C)>, after: Seq<(C, C)>)
    ensures
        took_one_turn(before, after) <==> exists|turn: (C, C)| after == #[trigger] before.push(turn),
{
    if took_one_turn(before, after) {
        assert(after =~= before.push(after.last()));
    }
    if exists|turn: (C, C)| after == #[trigger] before.push(turn) {
        let turn = choose|turn: (C, C)| after == #[trigger] before.push(turn);
        assert(after.drop_last() =~= before);
    }
}

} // verus!
