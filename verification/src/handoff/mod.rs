//! Handing items from one worker to another.
pub mod batcher;
pub mod channel;
pub mod conduit;
pub mod notify;
pub mod ring_buffer;

pub use batcher::{BatchConfig, Batcher, SharedBatcher};
pub use channel::{
    ChannelError, MpscReceiver, MpscSender, OwnedChannel, Receiver, RecvItem, SendItem, Sender,
    SyncReceiver, SyncSender, TryRecvError, TrySendError, channel, is_channel_capacity,
    mpsc_channel,
};
pub use conduit::{Inlet, Outlet};
pub use notify::WaitGroup;
pub use ring_buffer::{RingBuffer, SharedRingBuffer};
