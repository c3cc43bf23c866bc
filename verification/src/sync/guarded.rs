//! A value behind a lock, with a record of the turns that were taken with it.
//!
//! What is done in a turn is a plain value with a verified `apply`. None of those in this
//! crate takes a turn itself, so no thread waits for a lock that it holds.
use crate::sync::turn_log::TurnLog;
use std::sync::{Arc, Mutex, MutexGuard};
use vstd::prelude::*;

verus! {

/// std's lock.
#[verifier::external_type_specification]
#[verifier::external_body]
#[verifier::reject_recursive_types(T)]
pub struct ExMutex<T: ?Sized>(Mutex<T>);

/// std's proof that a lock is held, which gives access to what it guards.
#[verifier::external_type_specification]
#[verifier::external_body]
#[verifier::reject_recursive_types(T)]
pub struct ExMutexGuard<'a, T: ?Sized + 'a>(MutexGuard<'a, T>);

/// A value that can be kept behind a lock.
pub trait Kept: Sized {
    /// What such a value is made with.
    type Made;

    /// What such a value stands for.
    type Contents;

    /// The value is well-formed.
    spec fn sound(&self) -> bool;

    /// What the value was made with.
    spec fn made_with(&self) -> Self::Made;

    /// What the value stands for.
    spec fn contents(&self) -> Self::Contents;
}

/// Something to be done with a value in one turn.
pub trait Operation<S: Kept>: Sized {
    /// What comes of it.
    type Reply;

    /// `reply` comes of it on a value that was made with `made` and goes from `before` to
    /// `after`.
    spec fn replies(
        self,
        made: S::Made,
        before: S::Contents,
        after: S::Contents,
        reply: Self::Reply,
    ) -> bool;

    /// Does it.
    fn apply(self, value: &mut S) -> (reply: Self::Reply)
        requires
            old(value).sound(),
        ensures
            final(value).sound(),
            final(value).made_with() == old(value).made_with(),
            self.replies(
                old(value).made_with(),
                old(value).contents(),
                final(value).contents(),
                reply,
            ),
    ;
}

/// A lock, with what its value was at first, what it was made with, and from what to what
/// it went in the turns that were taken.
///
/// The turns are a relation, of which it is only ever learnt that it holds of a turn that
/// was taken.
#[verifier::reject_recursive_types(S)]
pub struct Lock<S: Kept> {
    cell: Mutex<Option<S>>,
    turns: Ghost<spec_fn(S::Contents, S::Contents) -> bool>,
    first: Ghost<S::Contents>,
    made: Ghost<S::Made>,
}

/// A lock that is held.
#[verifier::reject_recursive_types(S)]
struct Held<'a, S: Kept> {
    lock: &'a Lock<S>,
    guard: MutexGuard<'a, Option<S>>,
    found: Ghost<S::Contents>,
    full: Ghost<bool>,
}

/// `std::sync::Mutex::new`: a lock round `value`, with which nobody had a turn yet.
#[verifier::external_body]
fn new_lock<S: Kept>(value: S) -> (r: Lock<S>)
    requires
        value.sound(),
    ensures
        r.made@ == value.made_with(),
        r.first@ == value.contents(),
{
    Lock {
        cell: Mutex::new(Some(value)),
        turns: Ghost(vstd::pervasive::arbitrary()),
        first: Ghost(vstd::pervasive::arbitrary()),
        made: Ghost(vstd::pervasive::arbitrary()),
    }
}

/// `std::sync::Mutex::lock`: waits until nobody else holds the lock, and holds it. The
/// value is inside, since every turn puts it back. No turn is broken off by a panic, after
/// which the lock would let nobody in.
#[verifier::external_body]
fn acquire<S: Kept>(lock: &Lock<S>) -> (r: Held<'_, S>)
    ensures
        r.lock == lock,
        r.full@,
{
    Held {
        lock,
        guard: lock.cell.lock().unwrap(),
        found: Ghost(vstd::pervasive::arbitrary()),
        full: Ghost(vstd::pervasive::arbitrary()),
    }
}

/// `std::option::Option::take`, through the `DerefMut` of `std::sync::MutexGuard`: takes
/// the value out of a lock that is held. The value is one that a turn put back, or the
/// first one: it is well-formed, and made as the first one was.
#[verifier::external_body]
fn take_out<S: Kept>(held: &mut Held<'_, S>) -> (value: S)
    requires
        old(held).full@,
    ensures
        final(held).lock == old(held).lock,
        !final(held).full@,
        value.sound(),
        value.made_with() == final(held).lock.made@,
        value.contents() == final(held).found@,
{
    held.guard.take().unwrap()
}

/// The `DerefMut` and the `Drop` of `std::sync::MutexGuard`: puts the value back and lets
/// the lock go, which ends a turn from what was found to what was put back. That turn goes
/// on record.
#[verifier::external_body]
fn release<'a, S: Kept>(
    held: Held<'a, S>,
    value: S,
    log: &mut TurnLog<S::Contents>,
) -> (r: &'a Lock<S>)
    requires
        !held.full@,
        value.sound(),
        value.made_with() == held.lock.made@,
    ensures
        r == held.lock,
        (r.turns@)(held.found@, value.contents()),
        final(log)@ == old(log)@.push((held.found@, value.contents())),
{
    let Held { lock, mut guard, .. } = held;
    *guard = Some(value);
    lock
}

/// A value that its clones share. One of them at a time has its turn with it.
#[verifier::reject_recursive_types(S)]
pub struct Guarded<S: Kept>(Arc<Lock<S>>);

impl<S: Kept> Guarded<S> {
    /// What the value was at first.
    pub closed spec fn first(&self) -> S::Contents {
        self.0.first@
    }

    /// What the value was made with.
    pub closed spec fn made(&self) -> S::Made {
        self.0.made@
    }

    /// In some turn the value went from `before` to `after`.
    pub closed spec fn went(&self, before: S::Contents, after: S::Contents) -> bool {
        (self.0.turns@)(before, after)
    }

    /// A value that nobody had a turn with yet.
    pub fn new(value: S) -> (r: Self)
        requires
            value.sound(),
        ensures
            r.made() == value.made_with(),
            r.first() == value.contents(),
    {
        Guarded(Arc::new(new_lock(value)))
    }

    /// Waits for the turn and applies `operation` in it. That is the one turn taken.
    pub fn turn<O: Operation<S>>(
        &self,
        operation: O,
        log: &mut TurnLog<S::Contents>,
    ) -> (reply: O::Reply)
        ensures
            final(log)@.len() == old(log)@.len() + 1,
            final(log)@.drop_last() == old(log)@,
            self.went(final(log)@.last().0, final(log)@.last().1),
            operation.replies(
                self.made(),
                final(log)@.last().0,
                final(log)@.last().1,
                reply,
            ),
    {
        let mut held = acquire(&*self.0);
        let mut value = take_out(&mut held);
        let reply = operation.apply(&mut value);
        let _lock = release(held, value, log);
        assert(log@.drop_last() =~= old(log)@);
        reply
    }
}

impl<S: Kept> Clone for Guarded<S> {
    fn clone(&self) -> (r: Self)
        ensures
            r == *self,
    {
        Guarded(self.0.clone())
    }
}

} // verus!
