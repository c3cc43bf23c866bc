//! Bounded channels between threads.
use crossfire::{mpmc, mpsc};
use vstd::prelude::*;

verus! {

/// Every sender or every receiver is gone.
#[derive(Debug, PartialEq, Eq, Structural)]
pub enum ChannelError {
    Closed,
}

/// Why an item was not taken; it is handed back.
#[derive(Debug, PartialEq, Eq)]
pub enum TrySendError<T> {
    /// The channel holds as much as it can.
    Full(T),
    /// Every receiver is gone.
    Closed(T),
}

/// Why no item came.
#[derive(Debug, PartialEq, Eq, Structural)]
pub enum TryRecvError {
    /// Nothing is in the channel.
    Empty,
    /// Nothing is in the channel and every sender is gone.
    Closed,
}

/// Whether a channel can have room for `capacity` items: crossfire counts them in 32
/// bits, and its slots in a power of two that has to fit the machine.
pub open spec fn capacity_fits(capacity: nat) -> bool {
    capacity <= u32::MAX && capacity <= usize::MAX / 2
}

/// Whether a channel with one receiver can have room for `capacity` items: crossfire
/// counts them in 31 bits.
pub open spec fn mpsc_capacity_fits(capacity: nat) -> bool {
    capacity <= 0x7fff_ffff
}

/// Whether a channel can have room for `capacity` items.
pub fn is_channel_capacity(capacity: usize) -> (b: bool)
    ensures
        b == capacity_fits(capacity as nat),
{
    capacity as u64 <= u32::MAX as u64 && capacity <= usize::MAX / 2
}

/// What can be told of a channel at one moment.
pub ghost struct Moment {
    /// How many items it holds.
    pub held: nat,
    /// Whether there is a sender.
    pub senders: bool,
    /// Whether there is a receiver.
    pub receivers: bool,
}

/// A channel, as all of its ends see it.
///
/// Its moments are all that it goes through, one change after the other, from its
/// opening on. Which they are is up to all the threads that hold an end. They are
/// about counts alone, so nothing that is sent can depend on them. Of the items it is
/// only ever learnt that one which was put in or taken out is among those that it
/// carries.
#[verifier::reject_recursive_types(T)]
pub ghost struct Channel<T> {
    /// How many items fit.
    pub capacity: nat,
    /// The moments, in order.
    pub moments: spec_fn(nat) -> Moment,
    /// Whether an item goes through it.
    pub carries: spec_fn(T) -> bool,
}

impl<T> Channel<T> {
    /// It is empty when it is opened, and there are both ends.
    pub open spec fn opens_empty(self) -> bool {
        (self.moments)(0) == (Moment { held: 0, senders: true, receivers: true })
    }

    /// At some moment there was room, and then there was one item more.
    pub open spec fn took_one_in(self) -> bool {
        exists|n: nat|
            (#[trigger] (self.moments)(n)).held < self.capacity && (self.moments)(n + 1).held == (
            self.moments)(n).held + 1
    }

    /// At some moment there was an item, and then there was one less.
    pub open spec fn gave_one_out(self) -> bool {
        exists|n: nat|
            (#[trigger] (self.moments)(n)).held > 0 && (self.moments)(n + 1).held == (
            self.moments)(n).held - 1
    }

    /// At some moment there was no room.
    pub open spec fn was_full(self) -> bool {
        exists|n: nat| (#[trigger] (self.moments)(n)).held >= self.capacity
    }

    /// At some moment there was no item.
    pub open spec fn was_empty(self) -> bool {
        exists|n: nat| (#[trigger] (self.moments)(n)).held == 0
    }

    /// At some moment there was no receiver.
    pub open spec fn lost_receivers(self) -> bool {
        exists|n: nat| !(#[trigger] (self.moments)(n)).receivers
    }

    /// At some moment there was neither an item nor a sender.
    pub open spec fn ran_dry(self) -> bool {
        exists|n: nat|
            (#[trigger] (self.moments)(n)).held == 0 && !(self.moments)(n).senders
    }
}

/// How many items fit into a channel that was asked to hold `capacity`.
pub open spec fn room(capacity: usize) -> nat {
    if capacity == 0 {
        1
    } else {
        capacity as nat
    }
}

/// What sending `item` came to, as far as the channel shows it.
pub open spec fn sent_to<T>(channel: Channel<T>, item: T, r: Result<(), ChannelError>) -> bool {
    match r {
        Ok(_) => channel.took_one_in() && (channel.carries)(item),
        Err(ChannelError::Closed) => channel.lost_receivers(),
    }
}

/// What offering `item` came to, as far as the channel shows it.
pub open spec fn offered_to<T>(
    channel: Channel<T>,
    item: T,
    r: Result<(), TrySendError<T>>,
) -> bool {
    match r {
        Ok(_) => channel.took_one_in() && (channel.carries)(item),
        Err(TrySendError::Full(back)) => back == item && channel.was_full(),
        Err(TrySendError::Closed(back)) => back == item && channel.lost_receivers(),
    }
}

/// What waiting for an item came to, as far as the channel shows it.
pub open spec fn received_from<T>(channel: Channel<T>, r: Result<T, ChannelError>) -> bool {
    match r {
        Ok(item) => channel.gave_one_out() && (channel.carries)(item),
        Err(ChannelError::Closed) => channel.ran_dry(),
    }
}

/// What looking for an item came to, as far as the channel shows it.
pub open spec fn looked_into<T>(channel: Channel<T>, r: Result<T, TryRecvError>) -> bool {
    match r {
        Ok(item) => channel.gave_one_out() && (channel.carries)(item),
        Err(TryRecvError::Empty) => channel.was_empty(),
        Err(TryRecvError::Closed) => channel.ran_dry(),
    }
}

/// `Tx::send` of crossfire on a channel with many receivers: puts the item in, for
/// which it blocks while the channel is full, or fails where every receiver is gone.
#[verifier::external_body]
fn mpmc_send<T: Send + 'static>(sender: &SyncSender<T>, item: T) -> (r: Result<(), ChannelError>)
    ensures
        sent_to(sender.channel(), item, r),
{
    sender.end.tx.send(item).map_err(|_| ChannelError::Closed)
}

/// `Tx::try_send` of crossfire on a channel with many receivers: puts the item in, or
/// hands it back where the channel is full or every receiver is gone.
#[verifier::external_body]
fn mpmc_try_send<T: Send + 'static>(sender: &SyncSender<T>, item: T) -> (r: Result<
    (),
    TrySendError<T>,
>)
    ensures
        offered_to(sender.channel(), item, r),
{
    sender.end.tx.try_send(item).map_err(
        |e|
            match e {
                crossfire::TrySendError::Full(v) => TrySendError::Full(v),
                crossfire::TrySendError::Disconnected(v) => TrySendError::Closed(v),
            },
    )
}

/// `Rx::recv` of crossfire on a channel with many receivers: takes an item out, for
/// which it blocks while the channel is empty, or fails where it is empty and every
/// sender is gone. The item is one that the channel carries; which one is up to other
/// threads, so that is not claimed.
#[verifier::external_body]
fn mpmc_recv<T: Send + 'static>(receiver: &SyncReceiver<T>) -> (r: Result<T, ChannelError>)
    ensures
        received_from(receiver.channel(), r),
{
    receiver.end.rx.recv().map_err(|_| ChannelError::Closed)
}

/// `Rx::try_recv` of crossfire on a channel with many receivers: takes an item out, or
/// tells that the channel is empty, and whether every sender is gone. The item is
/// one that the channel carries; which one is up to other threads, so that is not
/// claimed.
#[verifier::external_body]
fn mpmc_try_recv<T: Send + 'static>(receiver: &SyncReceiver<T>) -> (r: Result<T, TryRecvError>)
    ensures
        looked_into(receiver.channel(), r),
{
    receiver.end.rx.try_recv().map_err(
        |e|
            match e {
                crossfire::TryRecvError::Empty => TryRecvError::Empty,
                crossfire::TryRecvError::Disconnected => TryRecvError::Closed,
            },
    )
}

/// `MTx::clone` of crossfire on a channel with many receivers: a further sending
/// end of the same channel.
#[verifier::external_body]
fn mpmc_clone_sender<T: Send + 'static>(sender: &SyncSender<T>) -> (r: SyncSender<T>)
    ensures
        r.channel() == sender.channel(),
{
    SyncSender { end: MpmcTx { tx: sender.end.tx.clone() }, of: sender.of }
}

/// `MRx::clone` of crossfire: a further receiving end of the same channel.
#[verifier::external_body]
fn mpmc_clone_receiver<T: Send + 'static>(receiver: &SyncReceiver<T>) -> (r: SyncReceiver<T>)
    ensures
        r.channel() == receiver.channel(),
{
    SyncReceiver { end: MpmcRx { rx: receiver.end.rx.clone() }, of: receiver.of }
}

/// `crossfire::mpsc::bounded_blocking`: the two ends of a fresh channel with one
/// receiver, for `capacity` items, or for one where `capacity` is zero. It panics on
/// capacities that do not fit, so those are left out.
#[verifier::external_body]
fn open_mpsc<T: Send + 'static>(capacity: usize) -> (r: (MpscSender<T>, MpscReceiver<T>))
    requires
        mpsc_capacity_fits(capacity as nat),
    ensures
        r.0.channel() == r.1.channel(),
        r.0.channel().capacity == room(capacity),
        r.0.channel().opens_empty(),
{
    let (tx, rx) = mpsc::bounded_blocking::<T>(capacity);
    let of = Ghost(vstd::pervasive::arbitrary());
    (MpscSender { end: MpscTx { tx }, of }, MpscReceiver { end: MpscRx { rx }, of })
}

/// `Tx::send` of crossfire on a channel with one receiver: puts the item in, for which
/// it blocks while the channel is full, or fails where the receiver is gone.
#[verifier::external_body]
fn mpsc_send<T: Send + 'static>(sender: &MpscSender<T>, item: T) -> (r: Result<(), ChannelError>)
    ensures
        sent_to(sender.channel(), item, r),
{
    sender.end.tx.send(item).map_err(|_| ChannelError::Closed)
}

/// `Rx::recv` of crossfire on a channel with one receiver: takes an item out, for which
/// it blocks while the channel is empty, or fails where it is empty and every sender is
/// gone. The item is one that the channel carries; which one is up to other threads, so
/// that is not claimed.
#[verifier::external_body]
fn mpsc_recv<T: Send + 'static>(receiver: &MpscReceiver<T>) -> (r: Result<T, ChannelError>)
    ensures
        received_from(receiver.channel(), r),
{
    receiver.end.rx.recv().map_err(|_| ChannelError::Closed)
}

/// `Rx::try_recv` of crossfire on a channel with one receiver: takes an item out, or
/// tells that the channel is empty, and whether every sender is gone. The item is
/// one that the channel carries; which one is up to other threads, so that is not
/// claimed.
#[verifier::external_body]
fn mpsc_try_recv<T: Send + 'static>(receiver: &MpscReceiver<T>) -> (r: Result<T, TryRecvError>)
    ensures
        looked_into(receiver.channel(), r),
{
    receiver.end.rx.try_recv().map_err(
        |e|
            match e {
                crossfire::TryRecvError::Empty => TryRecvError::Empty,
                crossfire::TryRecvError::Disconnected => TryRecvError::Closed,
            },
    )
}

/// `MTx::clone` of crossfire on a channel with one receiver: a further sending
/// end of the same channel.
#[verifier::external_body]
fn mpsc_clone_sender<T: Send + 'static>(sender: &MpscSender<T>) -> (r: MpscSender<T>)
    ensures
        r.channel() == sender.channel(),
{
    MpscSender { end: MpscTx { tx: sender.end.tx.clone() }, of: sender.of }
}

/// A sender that delivers one item, waiting for room where it has to.
pub trait SendItem<T>: Clone + Send + 'static {
    /// Delivers `item`, or fails where every receiver is gone.
    fn send(&self, item: T) -> Result<(), ChannelError>;
}

/// A receiver that waits for an item or looks for one.
pub trait RecvItem<T> {
    /// Waits for an item, or fails where none can come any more.
    fn recv(&self) -> Result<T, ChannelError>;

    /// Takes an item where there is one.
    fn try_recv(&self) -> Result<T, TryRecvError>;
}

/// crossfire's sending end of a channel with many receivers.
#[verifier::external_body]
#[verifier::reject_recursive_types(T)]
struct MpmcTx<T: Send + 'static> {
    tx: crossfire::MTx<mpmc::Array<T>>,
}

/// The blocking sending end of a channel with many receivers.
#[verifier::reject_recursive_types(T)]
pub struct SyncSender<T: Send + 'static> {
    end: MpmcTx<T>,
    of: Ghost<Channel<T>>,
}

/// crossfire's receiving end of a channel with many receivers.
#[verifier::external_body]
#[verifier::reject_recursive_types(T)]
struct MpmcRx<T: Send + 'static> {
    rx: crossfire::MRx<mpmc::Array<T>>,
}

/// The blocking receiving end of a channel with many receivers.
#[verifier::reject_recursive_types(T)]
pub struct SyncReceiver<T: Send + 'static> {
    end: MpmcRx<T>,
    of: Ghost<Channel<T>>,
}

/// The usual sending end.
pub type Sender<T> = SyncSender<T>;

/// The usual receiving end.
pub type Receiver<T> = SyncReceiver<T>;

/// A bounded channel with many senders and many receivers.
#[must_use]
pub fn channel<T: Send + 'static>(capacity: usize) -> (r: (SyncSender<T>, SyncReceiver<T>))
    requires
        capacity_fits(capacity as nat),
    ensures
        r.0.channel() == r.1.channel(),
        r.0.channel().capacity == room(capacity),
        r.0.channel().opens_empty(),
{
    OwnedChannel::new(capacity).split()
}

impl<T: Send + 'static> SyncSender<T> {
    /// The channel that the end belongs to.
    pub closed spec fn channel(&self) -> Channel<T> {
        self.of@
    }

    /// Delivers `item`, waiting for room; fails where every receiver is gone.
    pub fn send(&self, item: T) -> (r: Result<(), ChannelError>)
        ensures
            sent_to(self.channel(), item, r),
    {
        mpmc_send(self, item)
    }

    /// Delivers `item` where there is room, else hands it back.
    pub fn try_send(&self, item: T) -> (r: Result<(), TrySendError<T>>)
        ensures
            offered_to(self.channel(), item, r),
    {
        mpmc_try_send(self, item)
    }
}

impl<T: Send + 'static> Clone for SyncSender<T> {
    fn clone(&self) -> (r: Self)
        ensures
            r.channel() == self.channel(),
    {
        mpmc_clone_sender(self)
    }
}

impl<T: Send + 'static> SendItem<T> for SyncSender<T> {
    fn send(&self, item: T) -> (r: Result<(), ChannelError>)
        ensures
            sent_to(self.channel(), item, r),
    {
        mpmc_send(self, item)
    }
}

impl<T: Send + 'static> SyncReceiver<T> {
    /// The channel that the end belongs to.
    pub closed spec fn channel(&self) -> Channel<T> {
        self.of@
    }

    /// Waits for an item; fails where none can come any more.
    pub fn recv(&self) -> (r: Result<T, ChannelError>)
        ensures
            received_from(self.channel(), r),
    {
        mpmc_recv(self)
    }

    /// Takes an item where there is one.
    pub fn try_recv(&self) -> (r: Result<T, TryRecvError>)
        ensures
            looked_into(self.channel(), r),
    {
        mpmc_try_recv(self)
    }
}

impl<T: Send + 'static> Clone for SyncReceiver<T> {
    fn clone(&self) -> (r: Self)
        ensures
            r.channel() == self.channel(),
    {
        mpmc_clone_receiver(self)
    }
}

impl<T: Send + 'static> RecvItem<T> for SyncReceiver<T> {
    fn recv(&self) -> (r: Result<T, ChannelError>)
        ensures
            received_from(self.channel(), r),
    {
        mpmc_recv(self)
    }

    fn try_recv(&self) -> (r: Result<T, TryRecvError>)
        ensures
            looked_into(self.channel(), r),
    {
        mpmc_try_recv(self)
    }
}

/// crossfire's sending end of a channel with one receiver.
#[verifier::external_body]
#[verifier::reject_recursive_types(T)]
struct MpscTx<T: Send + 'static> {
    tx: crossfire::MTx<mpsc::Array<T>>,
}

/// The blocking sending end of a channel with one receiver.
#[verifier::reject_recursive_types(T)]
pub struct MpscSender<T: Send + 'static> {
    end: MpscTx<T>,
    of: Ghost<Channel<T>>,
}

/// crossfire's receiving end of a channel with one receiver.
#[verifier::external_body]
#[verifier::reject_recursive_types(T)]
struct MpscRx<T: Send + 'static> {
    rx: crossfire::Rx<mpsc::Array<T>>,
}

/// The only receiving end of a channel.
#[verifier::reject_recursive_types(T)]
pub struct MpscReceiver<T: Send + 'static> {
    end: MpscRx<T>,
    of: Ghost<Channel<T>>,
}

/// A bounded channel with many senders and one receiver.
#[must_use]
pub fn mpsc_channel<T: Send + 'static>(capacity: usize) -> (r: (MpscSender<T>, MpscReceiver<T>))
    requires
        mpsc_capacity_fits(capacity as nat),
    ensures
        r.0.channel() == r.1.channel(),
        r.0.channel().capacity == room(capacity),
        r.0.channel().opens_empty(),
{
    open_mpsc(capacity)
}

impl<T: Send + 'static> MpscSender<T> {
    /// The channel that the end belongs to.
    pub closed spec fn channel(&self) -> Channel<T> {
        self.of@
    }

    /// Delivers `item`, waiting for room; fails where the receiver is gone.
    pub fn send(&self, item: T) -> (r: Result<(), ChannelError>)
        ensures
            sent_to(self.channel(), item, r),
    {
        mpsc_send(self, item)
    }
}

impl<T: Send + 'static> SendItem<T> for MpscSender<T> {
    fn send(&self, item: T) -> (r: Result<(), ChannelError>)
        ensures
            sent_to(self.channel(), item, r),
    {
        mpsc_send(self, item)
    }
}

impl<T: Send + 'static> Clone for MpscSender<T> {
    fn clone(&self) -> (r: Self)
        ensures
            r.channel() == self.channel(),
    {
        mpsc_clone_sender(self)
    }
}

impl<T: Send + 'static> MpscReceiver<T> {
    /// The channel that the end belongs to.
    pub closed spec fn channel(&self) -> Channel<T> {
        self.of@
    }

    /// Waits for an item; fails where none can come any more.
    pub fn recv(&self) -> (r: Result<T, ChannelError>)
        ensures
            received_from(self.channel(), r),
    {
        mpsc_recv(self)
    }

    /// Takes an item where there is one.
    pub fn try_recv(&self) -> (r: Result<T, TryRecvError>)
        ensures
            looked_into(self.channel(), r),
    {
        mpsc_try_recv(self)
    }
}

impl<T: Send + 'static> RecvItem<T> for MpscReceiver<T> {
    fn recv(&self) -> (r: Result<T, ChannelError>)
        ensures
            received_from(self.channel(), r),
    {
        mpsc_recv(self)
    }

    fn try_recv(&self) -> (r: Result<T, TryRecvError>)
        ensures
            looked_into(self.channel(), r),
    {
        mpsc_try_recv(self)
    }
}

/// Both ends of a channel, while nobody else holds one. What the channel holds is
/// then known, oldest item first.
#[verifier::reject_recursive_types(T)]
pub struct OwnedChannel<T: Send + 'static> {
    tx: MpmcTx<T>,
    rx: MpmcRx<T>,
    held: Ghost<Seq<T>>,
    of: Ghost<Channel<T>>,
}

/// `crossfire::mpmc::bounded_blocking`, with both ends kept together: an empty
/// channel for `capacity` items, or for one where `capacity` is zero. It panics on
/// capacities that do not fit, so those are left out.
#[verifier::external_body]
fn open_owned<T: Send + 'static>(capacity: usize) -> (r: OwnedChannel<T>)
    requires
        capacity_fits(capacity as nat),
    ensures
        r@ == Seq::<T>::empty(),
        r.channel().capacity == room(capacity),
        r.channel().opens_empty(),
{
    let (tx, rx) = mpmc::bounded_blocking::<T>(capacity);
    let (held, of) = (Ghost(Seq::empty()), Ghost(vstd::pervasive::arbitrary()));
    OwnedChannel { tx: MpmcTx { tx }, rx: MpmcRx { rx }, held, of }
}

/// `Tx::try_send` of crossfire, while nobody else holds an end: the item goes in
/// where there is room, else it comes back.
#[verifier::external_body]
fn owned_try_send<T: Send + 'static>(chan: &mut OwnedChannel<T>, item: T) -> (r: Result<
    (),
    TrySendError<T>,
>)
    ensures
        final(chan).channel() == old(chan).channel(),
        old(chan)@.len() < old(chan).limit() ==> r is Ok && final(chan)@ == old(chan)@.push(item),
        old(chan)@.len() >= old(chan).limit() ==> (r matches Err(TrySendError::Full(back)) && back
            == item) && final(chan)@ == old(chan)@,
{
    chan.tx.tx.try_send(item).map_err(
        |e|
            match e {
                crossfire::TrySendError::Full(v) => TrySendError::Full(v),
                crossfire::TrySendError::Disconnected(v) => TrySendError::Closed(v),
            },
    )
}

/// `Rx::try_recv` of crossfire, while nobody else holds an end: the oldest item
/// comes out.
#[verifier::external_body]
fn owned_try_recv<T: Send + 'static>(chan: &mut OwnedChannel<T>) -> (r: Result<T, TryRecvError>)
    ensures
        final(chan).channel() == old(chan).channel(),
        old(chan)@.len() > 0 ==> (r matches Ok(item) && item == old(chan)@[0]) && final(chan)@
            == old(chan)@.skip(1),
        old(chan)@.len() == 0 ==> (r matches Err(TryRecvError::Empty)) && final(chan)@
            == old(chan)@,
{
    chan.rx.rx.try_recv().map_err(
        |e|
            match e {
                crossfire::TryRecvError::Empty => TryRecvError::Empty,
                crossfire::TryRecvError::Disconnected => TryRecvError::Closed,
            },
    )
}

impl<T: Send + 'static> View for OwnedChannel<T> {
    type V = Seq<T>;

    closed spec fn view(&self) -> Seq<T> {
        self.held@
    }
}

impl<T: Send + 'static> OwnedChannel<T> {
    /// The channel.
    pub closed spec fn channel(&self) -> Channel<T> {
        self.of@
    }

    /// How many items fit.
    pub open spec fn limit(&self) -> nat {
        self.channel().capacity
    }

    /// An empty channel for `capacity` items, and at least for one.
    pub fn new(capacity: usize) -> (r: Self)
        requires
            capacity_fits(capacity as nat),
        ensures
            r@ == Seq::<T>::empty(),
            r.limit() == room(capacity),
            r.channel().opens_empty(),
    {
        open_owned(capacity)
    }

    /// Puts an item in where there is room.
    pub fn try_send(&mut self, item: T) -> (r: Result<(), TrySendError<T>>)
        ensures
            final(self).channel() == old(self).channel(),
            old(self)@.len() < old(self).limit() ==> r is Ok && final(self)@ == old(self)@.push(
                item,
            ),
            old(self)@.len() >= old(self).limit() ==> (r matches Err(TrySendError::Full(back))
                && back == item) && final(self)@ == old(self)@,
    {
        owned_try_send(self, item)
    }

    /// Takes the oldest item out.
    pub fn try_recv(&mut self) -> (r: Result<T, TryRecvError>)
        ensures
            final(self).channel() == old(self).channel(),
            old(self)@.len() > 0 ==> (r matches Ok(item) && item == old(self)@[0]) && final(self)@
                == old(self)@.skip(1),
            old(self)@.len() == 0 ==> (r matches Err(TryRecvError::Empty)) && final(self)@ == old(
                self,
            )@,
    {
        owned_try_recv(self)
    }

    /// Hands the ends out, for other threads to use.
    pub fn split(self) -> (r: (SyncSender<T>, SyncReceiver<T>))
        ensures
            r.0.channel() == self.channel(),
            r.1.channel() == self.channel(),
    {
        (SyncSender { end: self.tx, of: self.of }, SyncReceiver { end: self.rx, of: self.of })
    }
}

} // verus!
