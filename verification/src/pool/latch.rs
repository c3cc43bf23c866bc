//! Latches: signals that start unset and are eventually set.
use vstd::prelude::*;

verus! {

/// Where a latch and the worker that waits on it stand.
#[derive(Debug, Clone, Copy, PartialEq, Eq, Structural)]
pub enum LatchState {
    /// Not set, and the worker is awake.
    Unset,
    /// Not set, and the worker is about to sleep.
    Sleepy,
    /// Not set, and the worker sleeps until it is woken.
    Sleeping,
    /// Set.
    Signalled,
}

/// The state of a latch that a worker may fall asleep on.
#[derive(Debug)]
pub struct CoreLatch {
    state: LatchState,
}

impl View for CoreLatch {
    type V = LatchState;

    closed spec fn view(&self) -> LatchState {
        self.state
    }
}

impl CoreLatch {
    /// A latch that is not set.
    pub fn new() -> (r: Self)
        ensures
            r@ == LatchState::Unset,
    {
        CoreLatch { state: LatchState::Unset }
    }

    /// The worker is about to sleep; returns whether it may go on to do so.
    pub fn get_sleepy(&mut self) -> (ok: bool)
        ensures
            ok == (old(self)@ == LatchState::Unset),
            final(self)@ == after_step(old(self)@, OwnerStep::GetSleepy),
    {
        if self.state == LatchState::Unset {
            self.state = LatchState::Sleepy;
            true
        } else {
            false
        }
    }

    /// The worker falls asleep; returns whether it is to block.
    pub fn fall_asleep(&mut self) -> (ok: bool)
        ensures
            ok == blocks(old(self)@),
            final(self)@ == after_step(old(self)@, OwnerStep::FallAsleep),
    {
        if self.state == LatchState::Sleepy {
            self.state = LatchState::Sleeping;
            true
        } else {
            false
        }
    }

    /// The worker is awake again, or decided not to sleep.
    pub fn wake_up(&mut self)
        ensures
            final(self)@ == after_step(old(self)@, OwnerStep::WakeUp),
    {
        if !self.probe() {
            if self.state == LatchState::Sleeping {
                self.state = LatchState::Unset;
            }
        }
    }

    /// Sets the latch; returns whether the worker sleeps and has to be woken.
    pub fn set(&mut self) -> (must_wake: bool)
        ensures
            final(self)@ == LatchState::Signalled,
            must_wake == set_reports(old(self)@),
    {
        let slept: bool = self.state == LatchState::Sleeping;
        self.state = LatchState::Signalled;
        slept
    }

    /// Whether the latch is set.
    pub fn probe(&self) -> (b: bool)
        ensures
            b == (self@ == LatchState::Signalled),
    {
        self.state == LatchState::Signalled
    }
}

/// What the worker that owns a latch does to it.
#[derive(Clone, Copy, PartialEq, Eq, Structural)]
pub enum OwnerStep {
    GetSleepy,
    FallAsleep,
    WakeUp,
}

/// The state of a latch after a step of its owner.
pub open spec fn after_step(state: LatchState, step: OwnerStep) -> LatchState {
    match step {
        OwnerStep::GetSleepy => if state == LatchState::Unset {
            LatchState::Sleepy
        } else {
            state
        },
        OwnerStep::FallAsleep => if state == LatchState::Sleepy {
            LatchState::Sleeping
        } else {
            state
        },
        OwnerStep::WakeUp => if state == LatchState::Sleeping {
            LatchState::Unset
        } else {
            state
        },
    }
}

/// The state of a latch after its owner's steps, in order.
pub open spec fn after_steps(state: LatchState, steps: Seq<OwnerStep>) -> LatchState
    decreases steps.len(),
{
    if steps.len() == 0 {
        state
    } else {
        after_step(after_steps(state, steps.drop_last()), steps.last())
    }
}

/// Once set, a latch stays set, whatever its owner does.
pub proof fn law_set_is_final(steps: Seq<OwnerStep>)
    ensures
        after_steps(LatchState::Signalled, steps) == LatchState::Signalled,
    decreases steps.len(),
{
    if steps.len() > 0 {
        law_set_is_final(steps.drop_last());
    }
}

/// Whether a worker that falls asleep on a latch in `state` is to block.
pub open spec fn blocks(state: LatchState) -> bool {
    state == LatchState::Sleepy
}

/// Whether setting a latch in `state` reports that the worker has to be woken.
pub open spec fn set_reports(state: LatchState) -> bool {
    state == LatchState::Sleeping
}

/// No wake-up is lost: setting the latch reports a worker that blocked, from the moment
/// it fell asleep until it wakes up, and none that did not block; and once the latch is
/// set, its owner does not block.
pub proof fn law_sleeper_is_reported(state: LatchState, step: OwnerStep)
    ensures
        blocks(state) ==> set_reports(after_step(state, OwnerStep::FallAsleep)),
        set_reports(state) && step != OwnerStep::WakeUp ==> set_reports(after_step(state, step)),
        !set_reports(state) && set_reports(after_step(state, step)) ==> step
            == OwnerStep::FallAsleep && blocks(state),
        state == LatchState::Signalled ==> !blocks(after_step(state, step)),
{
}

/// A latch bound to a worker, which is told when it is set.
#[derive(Debug)]
pub struct SpinLatch {
    pub core: CoreLatch,
    pub target_worker_index: usize,
}

impl SpinLatch {
    /// A latch that worker `target_worker_index` waits on.
    pub fn new(target_worker_index: usize) -> (r: Self)
        ensures
            r.core@ == LatchState::Unset,
            r.target_worker_index == target_worker_index,
    {
        SpinLatch { core: CoreLatch::new(), target_worker_index }
    }

    /// Whether the latch is set.
    pub fn probe(&self) -> (b: bool)
        ensures
            b == (self.core@ == LatchState::Signalled),
    {
        self.core.probe()
    }

    /// Sets the latch; returns the worker that has to be woken, if it sleeps.
    pub fn set(&mut self) -> (wake: Option<usize>)
        ensures
            final(self).core@ == LatchState::Signalled,
            final(self).target_worker_index == old(self).target_worker_index,
            wake == if old(self).core@ == LatchState::Sleeping {
                Some(old(self).target_worker_index)
            } else {
                None
            },
    {
        if self.core.set() {
            Some(self.target_worker_index)
        } else {
            None
        }
    }
}

/// The flag behind a latch that a thread outside the pool blocks on.
#[derive(Debug)]
pub struct LockLatch {
    is_set: bool,
}

impl View for LockLatch {
    type V = bool;

    closed spec fn view(&self) -> bool {
        self.is_set
    }
}

impl LockLatch {
    /// A latch that is not set.
    pub fn new() -> (r: Self)
        ensures
            !r@,
    {
        LockLatch { is_set: false }
    }

    /// Sets the latch; whoever waits is to be woken.
    pub fn set(&mut self)
        ensures
            final(self)@,
    {
        self.is_set = true;
    }

    /// Whether whoever waits may go on.
    pub fn wait(&self) -> (released: bool)
        ensures
            released == self@,
    {
        self.is_set
    }

    /// Whether whoever waits may go on; if so the latch is unset for its next use.
    pub fn wait_and_reset(&mut self) -> (released: bool)
        ensures
            released == old(self)@,
            !final(self)@,
    {
        let released: bool = self.is_set;
        self.is_set = false;
        released
    }
}

/// A latch that is set once, to end a worker.
#[derive(Debug)]
pub struct OnceLatch {
    pub core: CoreLatch,
}

impl OnceLatch {
    /// A latch that is not set.
    pub fn new() -> (r: Self)
        ensures
            r.core@ == LatchState::Unset,
    {
        OnceLatch { core: CoreLatch::new() }
    }

    /// Sets the latch; returns `target_worker_index` if that worker sleeps and has
    /// to be woken.
    pub fn set_and_tickle_one(&mut self, target_worker_index: usize) -> (wake: Option<usize>)
        ensures
            final(self).core@ == LatchState::Signalled,
            wake == if old(self).core@ == LatchState::Sleeping {
                Some(target_worker_index)
            } else {
                None
            },
    {
        if self.core.set() {
            Some(target_worker_index)
        } else {
            None
        }
    }
}

/// Who waits on a counting latch.
#[derive(Debug)]
pub enum CountLatchKind {
    /// A worker, which works for others while it waits.
    Stealing { latch: CoreLatch, worker_index: usize },
    /// A thread outside the pool, which blocks.
    Blocking { gate: LockLatch },
}

/// Whom to wake once a counting latch is set.
#[derive(Debug, Clone, Copy, PartialEq, Eq, Structural)]
pub enum Wake {
    /// Nobody.
    Nobody,
    /// The worker with this index.
    Worker(usize),
    /// Whoever blocks on the latch.
    Blocked,
}

/// A latch that is set once it was counted down.
#[derive(Debug)]
pub struct CountLatch {
    counter: usize,
    kind: CountLatchKind,
}

impl CountLatch {
    /// How often it has to be counted down before it is set.
    pub closed spec fn pending(&self) -> nat {
        self.counter as nat
    }

    /// Who waits on it.
    pub closed spec fn waiter(&self) -> CountLatchKind {
        self.kind
    }

    /// A latch that is set by the first count, for the worker `owner` or, where
    /// there is none, for a thread that blocks.
    pub fn new(owner: Option<usize>) -> (r: Self)
        ensures
            r.pending() == 1,
            r.waiter() matches CountLatchKind::Stealing { latch, worker_index } ==> owner == Some(
                worker_index,
            ) && latch@ == LatchState::Unset,
            r.waiter() matches CountLatchKind::Blocking { gate } ==> owner is None && !gate@,
    {
        CountLatch::with_count(1, owner)
    }

    /// A latch that is set by the last of `count` counts.
    pub fn with_count(count: usize, owner: Option<usize>) -> (r: Self)
        ensures
            r.pending() == count,
            r.waiter() matches CountLatchKind::Stealing { latch, worker_index } ==> owner == Some(
                worker_index,
            ) && latch@ == LatchState::Unset,
            r.waiter() matches CountLatchKind::Blocking { gate } ==> owner is None && !gate@,
    {
        let kind = match owner {
            Some(worker_index) => CountLatchKind::Stealing { latch: CoreLatch::new(), worker_index },
            None => CountLatchKind::Blocking { gate: LockLatch::new() },
        };
        CountLatch { counter: count, kind }
    }

    /// Asks for one more count. The latch must not have been counted down yet.
    pub fn increment(&mut self)
        requires
            0 < old(self).pending() < usize::MAX,
        ensures
            final(self).pending() == old(self).pending() + 1,
            final(self).waiter() == old(self).waiter(),
    {
        self.counter = self.counter + 1;
    }

    /// Counts down by one; the last count sets the latch. Returns whom to wake.
    pub fn set(&mut self) -> (wake: Wake)
        requires
            old(self).pending() > 0,
        ensures
            final(self).pending() == old(self).pending() - 1,
            final(self).pending() > 0 ==> wake == Wake::Nobody && final(self).waiter()
                == old(self).waiter(),
            final(self).pending() == 0 ==> final(self).is_set(),
            final(self).pending() == 0 ==> match old(self).waiter() {
                CountLatchKind::Stealing { latch, worker_index } => wake == if latch@
                    == LatchState::Sleeping {
                    Wake::Worker(worker_index)
                } else {
                    Wake::Nobody
                },
                CountLatchKind::Blocking { gate } => wake == Wake::Blocked,
            },
    {
        self.counter = self.counter - 1;
        if self.counter > 0 {
            return Wake::Nobody;
        }
        match &mut self.kind {
            CountLatchKind::Stealing { latch, worker_index } => {
                if latch.set() {
                    Wake::Worker(*worker_index)
                } else {
                    Wake::Nobody
                }
            },
            CountLatchKind::Blocking { gate } => {
                gate.set();
                Wake::Blocked
            },
        }
    }

    /// Whether the latch is set.
    pub open spec fn is_set(&self) -> bool {
        match self.waiter() {
            CountLatchKind::Stealing { latch, worker_index } => latch@ == LatchState::Signalled,
            CountLatchKind::Blocking { gate } => gate@,
        }
    }

    /// Whether whoever waits may go on.
    pub fn wait(&self) -> (released: bool)
        ensures
            released == self.is_set(),
    {
        match &self.kind {
            CountLatchKind::Stealing { latch, worker_index } => latch.probe(),
            CountLatchKind::Blocking { gate } => gate.wait(),
        }
    }
}

/// A step of the owner moves a latch from one state only, each to the next, and leaves it
/// alone in every other: from unset to sleepy, from there to sleeping, and from there back.
pub proof fn law_a_step_moves_from_one_state(state: LatchState, step: OwnerStep)
    ensures
        after_step(state, step) != state ==> match step {
            OwnerStep::GetSleepy => state == LatchState::Unset,
            OwnerStep::FallAsleep => state == LatchState::Sleepy,
            OwnerStep::WakeUp => state == LatchState::Sleeping,
        },
        after_step(LatchState::Unset, OwnerStep::GetSleepy) == LatchState::Sleepy,
        after_step(LatchState::Sleepy, OwnerStep::FallAsleep) == LatchState::Sleeping,
        after_step(LatchState::Sleeping, OwnerStep::WakeUp) == LatchState::Unset,
        blocks(state) <==> after_step(state, OwnerStep::FallAsleep) != state,
{
}

} // verus!
