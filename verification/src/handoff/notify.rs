//! Counting work that is still to be finished.
use vstd::prelude::*;

verus! {

/// The count behind a wait group: `add` announces work, `done` finishes one
/// piece of it, and whoever waits may go on once nothing is left.
///
/// This is the bookkeeping alone. Blocking and waking is left to whoever holds
/// the count: [`WaitGroup::done`] says when the waiters are to be woken, and
/// [`WaitGroup::wait`] whether a waiter may go on.
pub struct WaitGroup {
    count: usize,
}

impl WaitGroup {
    /// The work that is not finished.
    pub closed spec fn pending(&self) -> nat {
        self.count as nat
    }

    /// A group without work.
    #[must_use]
    pub fn new() -> (r: Self)
        ensures
            r.pending() == 0,
    {
        WaitGroup { count: 0 }
    }

    /// Whether `n` more pieces of work can be counted.
    #[must_use]
    pub fn has_room_for(&self, n: usize) -> (fits: bool)
        ensures
            fits == (self.pending() + n <= usize::MAX),
    {
        n <= usize::MAX - self.count
    }

    /// Announces `n` pieces of work.
    pub fn add(&mut self, n: usize)
        requires
            old(self).pending() + n <= usize::MAX,
        ensures
            final(self).pending() == old(self).pending() + n,
    {
        self.count = self.count + n;
    }

    /// Finishes one piece of work; returns whether the waiters are to be woken.
    /// There has to be a piece left.
    pub fn done(&mut self) -> (wake: bool)
        requires
            old(self).pending() > 0,
        ensures
            final(self).pending() == old(self).pending() - 1,
            wake == (final(self).pending() == 0),
    {
        self.count = self.count - 1;
        self.count == 0
    }

    /// Whether whoever waits may go on.
    pub fn wait(&self) -> (released: bool)
        ensures
            released == (self.pending() == 0),
    {
        self.count == 0
    }
}

impl Default for WaitGroup {
    fn default() -> (r: Self)
        ensures
            r.pending() == 0,
    {
        WaitGroup::new()
    }
}

} // verus!
