//! Holding items back until a batch of them is complete.
use vstd::prelude::*;

verus! {

/// How strongly a fence separates two stages.
#[derive(Debug, Clone, Copy, PartialEq, Eq, Structural)]
pub enum FenceMode {
    /// Nothing passes before the first stage is done.
    Barrier,
    /// Items pass in batches of the given size, so that the stages overlap.
    Chunked(usize),
}

impl FenceMode {
    /// The batch size, where batches pass early.
    pub open spec fn spec_chunk_size(self) -> Option<usize> {
        match self {
            FenceMode::Barrier => None,
            FenceMode::Chunked(size) => Some(size),
        }
    }

    /// The batch size, where batches pass early.
    pub fn chunk_size(self) -> (r: Option<usize>)
        ensures
            r == self.spec_chunk_size(),
    {
        match self {
            FenceMode::Barrier => None,
            FenceMode::Chunked(size) => Some(size),
        }
    }
}

/// A buffer that releases its items in batches, in order of arrival.
pub struct FenceBarrier<T> {
    capacity: usize,
    chunk_size: Option<usize>,
    buffer: Vec<T>,
}

impl<T> View for FenceBarrier<T> {
    type V = Seq<T>;

    closed spec fn view(&self) -> Seq<T> {
        self.buffer@
    }
}

/// Whether `held` items make a batch.
pub open spec fn batch_due(chunk_size: Option<usize>, held: nat) -> bool {
    match chunk_size {
        Some(size) => held >= size,
        None => false,
    }
}

impl<T> FenceBarrier<T> {
    /// How many items make the fence full.
    pub closed spec fn limit(&self) -> usize {
        self.capacity
    }

    /// The batch size, where batches pass early.
    pub closed spec fn batch_size(&self) -> Option<usize> {
        self.chunk_size
    }

    /// An empty fence.
    #[must_use]
    pub fn new(capacity: usize, chunk_size: Option<usize>) -> (r: Self)
        ensures
            r@ == Seq::<T>::empty(),
            r.limit() == capacity,
            r.batch_size() == chunk_size,
    {
        FenceBarrier { capacity, chunk_size, buffer: Vec::new() }
    }

    /// Takes `item`; returns everything held once that makes a batch.
    pub fn push(&mut self, item: T) -> (batch: Option<Vec<T>>)
        ensures
            final(self).limit() == old(self).limit(),
            final(self).batch_size() == old(self).batch_size(),
            batch is Some == batch_due(old(self).batch_size(), old(self)@.len() + 1),
            match batch {
                Some(items) => items@ == old(self)@.push(item) && final(self)@ == Seq::<T>::empty(),
                None => final(self)@ == old(self)@.push(item),
            },
    {
        self.buffer.push(item);
        if self.should_flush() {
            Some(self.take_all())
        } else {
            None
        }
    }

    /// Returns everything held, if anything is.
    pub fn flush(&mut self) -> (batch: Option<Vec<T>>)
        ensures
            final(self).limit() == old(self).limit(),
            final(self).batch_size() == old(self).batch_size(),
            final(self)@ == Seq::<T>::empty(),
            batch is Some == (old(self)@.len() > 0),
            batch matches Some(items) ==> items@ == old(self)@,
    {
        if self.buffer.len() == 0 {
            None
        } else {
            Some(self.take_all())
        }
    }

    fn take_all(&mut self) -> (items: Vec<T>)
        ensures
            final(self).limit() == old(self).limit(),
            final(self).batch_size() == old(self).batch_size(),
            final(self)@ == Seq::<T>::empty(),
            items@ == old(self)@,
    {
        let mut items: Vec<T> = Vec::new();
        std::mem::swap(&mut items, &mut self.buffer);
        items
    }

    fn should_flush(&self) -> (b: bool)
        ensures
            b == batch_due(self.batch_size(), self@.len()),
    {
        match self.chunk_size {
            Some(size) => self.buffer.len() >= size,
            None => false,
        }
    }

    /// Whether the fence holds as much as it was made for.
    #[must_use]
    pub fn is_full(&self) -> (b: bool)
        ensures
            b == (self@.len() >= self.limit()),
    {
        self.buffer.len() >= self.capacity
    }

    /// How many items are held.
    #[must_use]
    pub fn len(&self) -> (n: usize)
        ensures
            n == self@.len(),
    {
        self.buffer.len()
    }

    /// Whether nothing is held.
    #[must_use]
    pub fn is_empty(&self) -> (b: bool)
        ensures
            b == (self@.len() == 0),
    {
        self.buffer.len() == 0
    }
}

/// What a fence has released and what it still holds once `items` were pushed
/// into an empty one, in that order.
pub open spec fn fenced<T>(chunk_size: Option<usize>, items: Seq<T>) -> (Seq<Seq<T>>, Seq<T>)
    decreases items.len(),
{
    if items.len() == 0 {
        (Seq::empty(), Seq::empty())
    } else {
        let (out, held) = fenced(chunk_size, items.drop_last());
        let next = held.push(items.last());
        if batch_due(chunk_size, next.len()) {
            (out.push(next), Seq::empty())
        } else {
            (out, next)
        }
    }
}

/// A fence loses, adds and reorders nothing: its batches and what it holds,
/// joined, are what was pushed.
pub proof fn law_fence_keeps_items<T>(chunk_size: Option<usize>, items: Seq<T>)
    ensures
        fenced(chunk_size, items).0.flatten() + fenced(chunk_size, items).1 == items,
    decreases items.len(),
{
    if items.len() == 0 {
        assert(Seq::<Seq<T>>::empty().flatten() + Seq::<T>::empty() =~= items);
    } else {
        let prev = items.drop_last();
        law_fence_keeps_items(chunk_size, prev);
        let (out, held) = fenced(chunk_size, prev);
        let next = held.push(items.last());
        assert(out.flatten() + next =~= (out.flatten() + held).push(items.last()));
        if batch_due(chunk_size, next.len()) {
            out.lemma_flatten_push(next);
            assert(out.push(next).flatten() + Seq::<T>::empty() =~= items);
        }
    }
}

/// What one more item makes of what a fence has released and holds.
pub proof fn lemma_fenced_push<T>(chunk_size: Option<usize>, items: Seq<T>, item: T)
    ensures
        ({
            let (out, held) = fenced(chunk_size, items);
            let (more, left) = fenced(chunk_size, items.push(item));
            if batch_due(chunk_size, held.len() + 1) {
                more.flatten() == out.flatten() + held.push(item) && left == Seq::<T>::empty()
            } else {
                more == out && left == held.push(item)
            }
        }),
{
    let (out, held) = fenced(chunk_size, items);
    assert(items.push(item).drop_last() =~= items);
    out.lemma_flatten_push(held.push(item));
}

/// A full barrier releases nothing before it is flushed.
pub proof fn law_barrier_holds_everything<T>(items: Seq<T>)
    ensures
        fenced(None, items) == (Seq::<Seq<T>>::empty(), items),
    decreases items.len(),
{
    if items.len() > 0 {
        law_barrier_holds_everything(items.drop_last());
        assert(items.drop_last().push(items.last()) =~= items);
    } else {
        assert(items =~= Seq::empty());
    }
}

/// Every batch of a chunked fence has the chunk size, and less than that is
/// held back.
pub proof fn law_batches_have_chunk_size<T>(size: usize, items: Seq<T>)
    requires
        size > 0,
    ensures
        forall|i: int|
            0 <= i < fenced(Some(size), items).0.len()
                ==> (#[trigger] fenced(Some(size), items).0[i]).len()
                == size,
        fenced(Some(size), items).1.len() < size,
    decreases items.len(),
{
    if items.len() > 0 {
        law_batches_have_chunk_size(size, items.drop_last());
    }
}

/// With batches of no items, every item passes at once, in a batch of its own.
pub proof fn law_empty_batches_pass_items_singly<T>(items: Seq<T>)
    ensures
        fenced(Some(0), items) == (
            Seq::new(items.len(), |i: int| seq![items[i]]),
            Seq::<T>::empty(),
        ),
    decreases items.len(),
{
    if items.len() > 0 {
        let prev = items.drop_last();
        law_empty_batches_pass_items_singly(prev);
        assert(Seq::<T>::empty().push(items.last()) =~= seq![items.last()]);
        assert(fenced(Some(0), items).0 =~= Seq::new(items.len(), |i: int| seq![items[i]]));
    } else {
        assert(fenced(Some(0), items).0 =~= Seq::new(items.len(), |i: int| seq![items[i]]));
    }
}

/// The batches in which `items` leave a fence: as they form, then the rest.
pub open spec fn forwarded<T>(mode: FenceMode, items: Seq<T>) -> Seq<Seq<T>> {
    let (out, held) = fenced(mode.spec_chunk_size(), items);
    if held.len() > 0 {
        out.push(held)
    } else {
        out
    }
}

/// What passes a fence is what went in, in order.
pub proof fn law_forwarded_items<T>(mode: FenceMode, items: Seq<T>)
    ensures
        forwarded(mode, items).flatten() == items,
{
    let (out, held) = fenced(mode.spec_chunk_size(), items);
    law_fence_keeps_items(mode.spec_chunk_size(), items);
    if held.len() > 0 {
        out.lemma_flatten_push(held);
    } else {
        assert(out.flatten() + held =~= out.flatten());
    }
}

/// The contents of each of `batches`.
pub open spec fn contents<T>(batches: Seq<Vec<T>>) -> Seq<Seq<T>> {
    Seq::new(batches.len(), |i: int| batches[i]@)
}

/// Passes `items` through a fence and returns the batches that leave it.
pub fn forward_fenced<M>(items: Vec<M>, mode: FenceMode) -> (batches: Vec<Vec<M>>)
    ensures
        contents(batches@) == forwarded(mode, items@),
{
    let ghost all = items@;
    let ghost size = mode.spec_chunk_size();
    let mut fence: FenceBarrier<M> = FenceBarrier::new(items.len(), mode.chunk_size());
    let mut batches: Vec<Vec<M>> = Vec::new();
    assert(contents(batches@) =~= fenced(size, all.take(0)).0);
    for item in it: items
        invariant
            it.seq() == all,
            fence.batch_size() == size,
            contents(batches@) == fenced(size, all.take(it.index() as int)).0,
            fence@ == fenced(size, all.take(it.index() as int)).1,
    {
        let ghost i = it.index() as int;
        let ghost before = contents(batches@);
        proof {
            assert(all.take(i + 1).drop_last() =~= all.take(i));
            assert(all.take(i + 1).last() == all[i]);
        }
        match fence.push(item) {
            Some(batch) => {
                batches.push(batch);
                assert(contents(batches@) =~= before.push(batch@));
            },
            None => {},
        }
    }
    assert(all.take(all.len() as int) =~= all);
    let ghost before = contents(batches@);
    match fence.flush() {
        Some(rest) => {
            batches.push(rest);
            assert(contents(batches@) =~= before.push(rest@));
        },
        None => {},
    }
    batches
}

/// Joins batches in order.
pub fn concat_batches<M>(batches: Vec<Vec<M>>) -> (r: Vec<M>)
    ensures
        r@ == contents(batches@).flatten(),
{
    let ghost all = batches@;
    let mut r: Vec<M> = Vec::new();
    assert(contents(all.take(0)).flatten() =~= Seq::<M>::empty());
    for batch in it: batches
        invariant
            it.seq() == all,
            r@ == contents(all.take(it.index() as int)).flatten(),
    {
        let ghost i = it.index() as int;
        proof {
            contents(all.take(i)).lemma_flatten_push(all[i]@);
            assert(contents(all.take(i + 1)) =~= contents(all.take(i)).push(all[i]@));
        }
        let mut batch = batch;
        r.append(&mut batch);
    }
    assert(all.take(all.len() as int) =~= all);
    r
}

/// The batches that leave a fence: a barrier lets everything pass in one; otherwise all are
/// of the chunk size, but for the last, which may be short. None is empty.
pub proof fn law_batches_leave_by_size<T>(mode: FenceMode, items: Seq<T>, i: int)
    requires
        0 <= i < forwarded(mode, items).len(),
    ensures
        forwarded(mode, items)[i].len() > 0,
        mode is Barrier ==> forwarded(mode, items).len() == 1 && forwarded(mode, items)[i] == items,
        mode matches FenceMode::Chunked(size) ==> forwarded(mode, items)[i].len() <= (if size == 0 {
            1
        } else {
            size as int
        }) && (i < forwarded(mode, items).len() - 1 ==> forwarded(mode, items)[i].len() == (
        if size == 0 {
            1
        } else {
            size as int
        })),
{
    match mode {
        FenceMode::Barrier => {
            law_barrier_holds_everything(items);
        },
        FenceMode::Chunked(size) => {
            let (out, held) = fenced(Some(size), items);
            if size == 0 {
                law_empty_batches_pass_items_singly(items);
                assert(out[i] == seq![items[i]]);
            } else {
                law_batches_have_chunk_size(size, items);
                if i < out.len() {
                    assert(forwarded(mode, items)[i] == out[i]);
                    assert(out[i].len() == size);
                }
            }
        },
    }
}

/// A fence lets a batch pass once it holds as many items as the chunk size, and a barrier
/// never.
pub proof fn law_a_batch_is_due_at_the_chunk_size(mode: FenceMode, held: nat)
    ensures
        batch_due(mode.spec_chunk_size(), held) <==> (mode matches FenceMode::Chunked(size) && size
            <= held),
{
}

} // verus!
