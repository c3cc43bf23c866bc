//! The ends of a channel, each with a record of what went through it.
//!
//! What other threads do to a channel is out of sight. What one end took or sent,
//! and whether it met the end of the channel, is not: each end keeps that in ghost
//! form, and nothing but its own calls changes it.
use crate::handoff::channel::{
    Channel, ChannelError, SyncReceiver, SyncSender, TryRecvError, looked_into, received_from,
    sent_to,
};
use vstd::prelude::*;

verus! {

/// A receiving end.
#[verifier::reject_recursive_types(T)]
pub struct Inlet<'a, T: Send + 'static> {
    rx: &'a SyncReceiver<T>,
    taken: Ghost<Seq<T>>,
    ended: Ghost<bool>,
}

impl<'a, T: Send + 'static> Inlet<'a, T> {
    /// The channel that the inlet belongs to.
    pub closed spec fn channel(&self) -> Channel<T> {
        self.rx.channel()
    }

    /// What was taken through this inlet, in order.
    pub closed spec fn taken(&self) -> Seq<T> {
        self.taken@
    }

    /// The inlet was told that nothing more can come.
    pub closed spec fn ended(&self) -> bool {
        self.ended@
    }

    /// An inlet that took nothing yet.
    pub fn new(rx: &'a SyncReceiver<T>) -> (inlet: Self)
        ensures
            inlet.channel() == rx.channel(),
            inlet.taken() == Seq::<T>::empty(),
            !inlet.ended(),
    {
        Inlet { rx, taken: Ghost(Seq::empty()), ended: Ghost(false) }
    }

    /// Waits for an item; fails where none can come any more.
    pub fn recv(&mut self) -> (r: Result<T, ChannelError>)
        ensures
            final(self).channel() == old(self).channel(),
            received_from(old(self).channel(), r),
            match r {
                Ok(item) => final(self).taken() == old(self).taken().push(item)
                    && final(self).ended() == old(self).ended(),
                Err(_) => final(self).taken() == old(self).taken() && final(self).ended(),
            },
    {
        match self.rx.recv() {
            Ok(item) => {
                self.taken = Ghost(self.taken@.push(item));
                Ok(item)
            },
            Err(e) => {
                self.ended = Ghost(true);
                Err(e)
            },
        }
    }

    /// Takes an item if there is one.
    pub fn try_recv(&mut self) -> (r: Result<T, TryRecvError>)
        ensures
            final(self).channel() == old(self).channel(),
            looked_into(old(self).channel(), r),
            match r {
                Ok(item) => final(self).taken() == old(self).taken().push(item)
                    && final(self).ended() == old(self).ended(),
                Err(TryRecvError::Empty) => final(self).taken() == old(self).taken()
                    && final(self).ended() == old(self).ended(),
                Err(TryRecvError::Closed) => final(self).taken() == old(self).taken()
                    && final(self).ended(),
            },
    {
        match self.rx.try_recv() {
            Ok(item) => {
                self.taken = Ghost(self.taken@.push(item));
                Ok(item)
            },
            Err(TryRecvError::Empty) => Err(TryRecvError::Empty),
            Err(TryRecvError::Closed) => {
                self.ended = Ghost(true);
                Err(TryRecvError::Closed)
            },
        }
    }
}

/// A sending end.
#[verifier::reject_recursive_types(T)]
pub struct Outlet<'a, T: Send + 'static> {
    tx: &'a SyncSender<T>,
    sent: Ghost<Seq<T>>,
    refused: Ghost<bool>,
}

impl<'a, T: Send + 'static> Outlet<'a, T> {
    /// The channel that the outlet belongs to.
    pub closed spec fn channel(&self) -> Channel<T> {
        self.tx.channel()
    }

    /// What was sent through this outlet, in order.
    pub closed spec fn sent(&self) -> Seq<T> {
        self.sent@
    }

    /// The channel refused an item, as nobody can receive it.
    pub closed spec fn refused(&self) -> bool {
        self.refused@
    }

    /// An outlet that sent nothing yet.
    pub fn new(tx: &'a SyncSender<T>) -> (outlet: Self)
        ensures
            outlet.channel() == tx.channel(),
            outlet.sent() == Seq::<T>::empty(),
            !outlet.refused(),
    {
        Outlet { tx, sent: Ghost(Seq::empty()), refused: Ghost(false) }
    }

    /// Delivers `item`, waiting for room; fails where nobody can receive it.
    pub fn send(&mut self, item: T) -> (r: Result<(), ChannelError>)
        ensures
            final(self).channel() == old(self).channel(),
            sent_to(old(self).channel(), item, r),
            match r {
                Ok(_) => final(self).sent() == old(self).sent().push(item)
                    && final(self).refused() == old(self).refused(),
                Err(_) => final(self).sent() == old(self).sent() && final(self).refused(),
            },
    {
        let ghost given = item;
        match self.tx.send(item) {
            Ok(_) => {
                self.sent = Ghost(self.sent@.push(given));
                Ok(())
            },
            Err(e) => {
                self.refused = Ghost(true);
                Err(e)
            },
        }
    }
}

} // verus!
