//! How a worker waits for a latch: it works for others meanwhile, and sleeps where
//! there is nothing to do.
//!
//! The worker runs jobs, spins, yields and blocks itself; what it does next is
//! decided here.
use crate::pool::latch::{CoreLatch, LatchState};
use crate::pool::sleep::{
    IdleAction, IdleState, JobsEventCounter, ROUNDS_SPIN, ROUNDS_UNTIL_SLEEPY, Sleep, SleepOutcome,
    only_woken, parked, slept_as,
};
use vstd::prelude::*;

verus! {

/// Where the worker looks for a job.
#[derive(Debug, Clone, Copy, PartialEq, Eq, Structural)]
pub enum Search {
    /// Nowhere: the latch is set.
    Stop,
    /// In its own queue.
    Local,
    /// In its own queue, in the shared one, and in those of others.
    Everywhere,
}

/// What the worker does after it found no job.
#[derive(Debug, Clone, Copy, PartialEq, Eq, Structural)]
pub enum WaitAction {
    /// Look again at once.
    LookAgain,
    /// Spin and look again.
    Spin,
    /// Yield the thread and look again.
    Yield,
    /// Block until it is no longer blocked, then call [`WaitLoop::resume`].
    Block,
}

/// What becomes of a worker that looked everywhere and found nothing: it spins, then
/// yields, and after that tries to sleep.
pub open spec fn idled(
    idle: IdleState,
    latch: LatchState,
    jec: JobsEventCounter,
    idle_after: IdleState,
    latch_after: LatchState,
    action: WaitAction,
) -> bool {
    if idle.rounds <= ROUNDS_UNTIL_SLEEPY {
        &&& action == if idle.rounds < ROUNDS_SPIN {
            WaitAction::Spin
        } else {
            WaitAction::Yield
        }
        &&& idle_after.rounds == idle.rounds + 1
        &&& latch_after == latch
        &&& idle_after.jobs_counter == if idle.rounds == ROUNDS_UNTIL_SLEEPY {
            jec.announced()
        } else {
            idle.jobs_counter
        }
    } else {
        exists|outcome: SleepOutcome| #[trigger]
            slept_as(idle, latch, jec, idle_after, latch_after, outcome) && action == if outcome
                == SleepOutcome::Block {
                WaitAction::Block
            } else {
                WaitAction::LookAgain
            }
    }
}

/// A worker that waits for a latch.
pub struct WaitLoop {
    index: usize,
    idle: Option<IdleState>,
}

impl WaitLoop {
    /// The worker.
    pub closed spec fn worker(&self) -> usize {
        self.index
    }

    /// How far its search is, where it is known to be out of work.
    pub closed spec fn search_state(&self) -> Option<IdleState> {
        self.idle
    }

    /// The pool knows that the worker looks for work where it does, and that it is
    /// not blocked.
    pub open spec fn fits(&self, sleep: &Sleep) -> bool {
        &&& sleep.wf()
        &&& self.worker() < sleep.blocked().len()
        &&& !sleep.blocked()[self.worker() as int]
        &&& sleep.looking()[self.worker() as int] == (self.search_state() is Some)
        &&& self.search_state() matches Some(idle) ==> idle.worker_index == self.worker()
    }

    /// Worker `index` starts to wait.
    pub fn new(index: usize) -> (r: Self)
        ensures
            r.worker() == index,
            r.search_state() is None,
    {
        WaitLoop { index, idle: None }
    }

    /// Where the worker looks next: nowhere once the latch is set, and beyond its own
    /// queue only once that was found empty.
    pub fn search(&self, latch: &CoreLatch) -> (r: Search)
        ensures
            r == if latch@ == LatchState::Signalled {
                Search::Stop
            } else if self.search_state() is None {
                Search::Local
            } else {
                Search::Everywhere
            },
    {
        if latch.probe() {
            return Search::Stop;
        }
        match self.idle {
            None => Search::Local,
            Some(_) => Search::Everywhere,
        }
    }

    /// The worker found a job, or the latch is set: it no longer looks for work.
    /// Returns the workers that were unblocked for that, to be notified.
    pub fn stop_looking(&mut self, sleep: &mut Sleep) -> (woken: Vec<usize>)
        requires
            old(self).fits(old(sleep)),
        ensures
            final(self).fits(final(sleep)),
            final(self).worker() == old(self).worker(),
            final(self).search_state() is None,
            final(sleep).looking() == old(sleep).looking().update(
                old(self).worker() as int,
                false,
            ),
            only_woken(old(sleep).blocked(), final(sleep).blocked()),
            final(sleep).counts().jec() == old(sleep).counts().jec(),
            old(self).search_state() is None ==> woken@.len() == 0 && final(sleep).blocked()
                == old(sleep).blocked(),
            old(self).search_state() is Some ==> woken@ == parked(old(sleep).blocked()).take(
                woken@.len() as int,
            ) && woken@.len() == (if parked(old(sleep).blocked()).len() <= 2 {
                parked(old(sleep).blocked()).len()
            } else {
                2
            }) && parked(final(sleep).blocked()) == parked(old(sleep).blocked()).skip(
                woken@.len() as int,
            ),
    {
        proof {
            sleep.lemma_counts(self.index as int);
        }
        match self.idle {
            None => {
                assert(sleep.looking() =~= sleep.looking().update(self.index as int, false));
                Vec::new()
            },
            Some(_) => {
                self.idle = None;
                let woken = sleep.work_found(self.index);
                proof {
                    assert(!sleep.blocked()[self.index as int]);
                }
                woken
            },
        }
    }

    /// The worker found no job. Where it looked in its own queue only, it is from now
    /// on known to look for work; else it spins, yields or sleeps.
    pub fn nothing_found<F>(
        &mut self,
        sleep: &mut Sleep,
        latch: &mut CoreLatch,
        has_injected_jobs: F,
    ) -> (action: WaitAction) where F: FnOnce() -> bool
        requires
            old(self).fits(old(sleep)),
            has_injected_jobs.requires(()),
        ensures
            final(self).worker() == old(self).worker(),
            final(self).search_state() is Some,
            final(self).search_state()->0.worker_index == old(self).worker(),
            final(sleep).wf(),
            final(sleep).looking() == old(sleep).looking().update(old(self).worker() as int, true),
            action == WaitAction::Block <==> final(sleep).blocked()
                != old(sleep).blocked(),
            final(sleep).blocked() == (if action == WaitAction::Block {
                old(sleep).blocked().update(old(self).worker() as int, true)
            } else {
                old(sleep).blocked()
            }),
            old(self).search_state() is None ==> action == WaitAction::LookAgain
                && final(self).search_state()->0.rounds == 0 && final(latch)@ == old(latch)@,
            action == WaitAction::Block ==> old(latch)@ == LatchState::Unset && final(latch)@
                == LatchState::Sleeping && has_injected_jobs.ensures((), false),
            old(self).search_state() matches Some(idle) ==> idled(
                idle,
                old(latch)@,
                old(sleep).counts().jec(),
                final(self).search_state()->0,
                final(latch)@,
                action,
            ),
            old(latch)@ == LatchState::Signalled ==> final(latch)@ == LatchState::Signalled
                && action != WaitAction::Block,
    {
        proof {
            sleep.lemma_counts(self.index as int);
        }
        match self.idle {
            None => {
                self.idle = Some(sleep.start_looking(self.index));
                WaitAction::LookAgain
            },
            Some(state) => {
                let mut idle = state;
                let ghost before = sleep.blocked();
                let ghost looked = sleep.looking();
                let action = sleep.no_work_found(&mut idle, latch, has_injected_jobs);
                self.idle = Some(idle);
                proof {
                    assert(looked =~= looked.update(self.index as int, true));
                    assert(before.update(self.index as int, true)[self.index as int]);
                }
                match action {
                    IdleAction::Spin => WaitAction::Spin,
                    IdleAction::Yield => WaitAction::Yield,
                    IdleAction::Slept(SleepOutcome::Block) => WaitAction::Block,
                    IdleAction::Slept(_) => WaitAction::LookAgain,
                }
            },
        }
    }

    /// The worker was blocked and no longer is: its search starts over.
    pub fn resume(&mut self, sleep: &Sleep, latch: &mut CoreLatch)
        requires
            old(self).fits(sleep),
            old(self).search_state() is Some,
        ensures
            final(self).fits(sleep),
            final(self).worker() == old(self).worker(),
            final(self).search_state() == Some(old(self).search_state()->0.fully_awake()),
            final(latch)@ == if old(latch)@ == LatchState::Sleeping {
                LatchState::Unset
            } else {
                old(latch)@
            },
    {
        if let Some(state) = self.idle {
            let mut idle = state;
            sleep.after_block(&mut idle, latch);
            self.idle = Some(idle);
        }
    }
}

/// A worker that finds nothing waits a little longer every time: it spins, then yields, and
/// only after all those rounds tries to sleep. Until then its latch is left alone.
pub proof fn law_a_worker_sleeps_last(
    idle: IdleState,
    latch: LatchState,
    jec: JobsEventCounter,
    idle_after: IdleState,
    latch_after: LatchState,
    action: WaitAction,
)
    requires
        idled(idle, latch, jec, idle_after, latch_after, action),
    ensures
        action == WaitAction::Spin <==> idle.rounds < ROUNDS_SPIN,
        action == WaitAction::Yield <==> ROUNDS_SPIN <= idle.rounds <= ROUNDS_UNTIL_SLEEPY,
        action == WaitAction::Block ==> idle.rounds > ROUNDS_UNTIL_SLEEPY && latch
            == LatchState::Unset && latch_after == LatchState::Sleeping && jec
            == idle.jobs_counter,
        action != WaitAction::Block ==> latch_after == latch,
        idle.rounds <= ROUNDS_UNTIL_SLEEPY ==> idle_after.rounds == idle.rounds + 1,
        idle.rounds == ROUNDS_UNTIL_SLEEPY ==> idle_after.jobs_counter == jec.announced(),
{
    if idle.rounds > ROUNDS_UNTIL_SLEEPY {
        let outcome = choose|outcome: SleepOutcome| #[trigger]
            slept_as(idle, latch, jec, idle_after, latch_after, outcome) && action == if outcome
                == SleepOutcome::Block {
                WaitAction::Block
            } else {
                WaitAction::LookAgain
            };
    }
}

} // verus!
