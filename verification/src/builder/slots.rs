//! Index-addressed slots that items are moved out of and results moved into.
use vstd::prelude::*;

verus! {

/// A fixed number of slots, each of which holds an item or is empty.
pub struct Slots<T> {
    buf: Vec<Option<T>>,
}

impl<T> View for Slots<T> {
    type V = Seq<Option<T>>;

    closed spec fn view(&self) -> Seq<Option<T>> {
        self.buf@
    }
}

/// Every slot of `[start, end)` is filled.
pub open spec fn all_filled<T>(slots: Seq<Option<T>>, start: int, end: int) -> bool {
    forall|i: int| start <= i < end ==> #[trigger] slots[i] is Some
}

/// Every slot of `[start, end)` is empty.
pub open spec fn all_empty<T>(slots: Seq<Option<T>>, start: int, end: int) -> bool {
    forall|i: int| start <= i < end ==> #[trigger] slots[i] is None
}

/// The two differ at most within `[start, end)`.
pub open spec fn same_outside<T>(
    before: Seq<Option<T>>,
    after: Seq<Option<T>>,
    start: int,
    end: int,
) -> bool {
    &&& before.len() == after.len()
    &&& forall|i: int|
        0 <= i < before.len() && !(start <= i < end) ==> #[trigger] after[i] == before[i]
}

impl<T> Slots<T> {
    /// One filled slot per item, in order.
    pub fn from_vec(items: Vec<T>) -> (r: Self)
        ensures
            r@ == Seq::new(items@.len(), |i: int| Some(items@[i])),
    {
        let ghost all = items@;
        let mut buf: Vec<Option<T>> = Vec::with_capacity(items.len());
        for item in it: items
            invariant
                it.seq() == all,
                buf@ == Seq::new(it.index() as nat, |i: int| Some(all[i])),
        {
            buf.push(Some(item));
        }
        Slots { buf }
    }

    /// `n` empty slots.
    pub fn uninit(n: usize) -> (r: Self)
        ensures
            r@.len() == n,
            all_empty(r@, 0, n as int),
    {
        let mut buf: Vec<Option<T>> = Vec::with_capacity(n);
        for i in 0..n
            invariant
                buf@.len() == i,
                all_empty(buf@, 0, i as int),
        {
            buf.push(None);
        }
        Slots { buf }
    }

    /// The number of slots.
    pub fn len(&self) -> (n: usize)
        ensures
            n == self@.len(),
    {
        self.buf.len()
    }

    /// Moves the item out of slot `i`.
    pub fn take(&mut self, i: usize) -> (item: T)
        requires
            i < old(self)@.len(),
            old(self)@[i as int] is Some,
        ensures
            item == old(self)@[i as int]->0,
            final(self)@ == old(self)@.update(i as int, None),
    {
        match self.buf[i].take() {
            Some(item) => item,
            None => vstd::pervasive::unreached(),
        }
    }

    /// Fills slot `i`.
    pub fn put(&mut self, i: usize, item: T)
        requires
            i < old(self)@.len(),
        ensures
            final(self)@ == old(self)@.update(i as int, Some(item)),
    {
        self.buf[i] = Some(item);
    }

    /// Empties the slots of `[start, end)`.
    pub fn drop_range(&mut self, start: usize, end: usize)
        requires
            start <= end <= old(self)@.len(),
        ensures
            all_empty(final(self)@, start as int, end as int),
            same_outside(old(self)@, final(self)@, start as int, end as int),
    {
        for i in start..end
            invariant
                end <= self.buf@.len(),
                all_empty(self.buf@, start as int, i as int),
                same_outside(old(self)@, self.buf@, start as int, i as int),
                start <= i,
        {
            self.buf[i] = None;
        }
    }

    /// The items of all slots, every one of which is filled.
    pub fn into_vec(self) -> (r: Vec<T>)
        requires
            all_filled(self@, 0, self@.len() as int),
        ensures
            r@ == Seq::new(self@.len(), |i: int| self@[i]->0),
    {
        let ghost all = self.buf@;
        let mut r: Vec<T> = Vec::with_capacity(self.buf.len());
        for slot in it: self.buf
            invariant
                it.seq() == all,
                all_filled(all, 0, all.len() as int),
                r@ == Seq::new(it.index() as nat, |i: int| all[i]->0),
        {
            match slot {
                Some(item) => {
                    r.push(item);
                },
                None => {
                    assert(false);
                },
            }
        }
        r
    }
}

} // verus!
