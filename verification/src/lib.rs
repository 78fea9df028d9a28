//! A peer-to-peer datagram transport: channels with unreliable, reliable and
//! forward-error-corrected delivery over a best-effort packet service.
//!
//! The crate holds the wire codec, the per-channel state machines, the
//! connection life-cycle and the event loop as a pure state machine: a caller
//! binds a real UDP socket elsewhere, feeds in the current monotonic time in
//! milliseconds and the datagrams that arrived, and takes back the events
//! produced and the datagrams to transmit.

use vstd::prelude::*;

pub mod channel;
pub mod client;
pub mod config;
pub mod connection;
pub mod fec;
pub mod laws;
pub mod wire;

pub use client::{Client, DisconnectReason, Event};
pub use config::{ChannelConfig, ClientConfig};
pub use connection::Connection;

verus! {

/// An IPv4 peer: address and port, as plain values.
#[derive(Clone, Copy, Debug, PartialEq, Eq, Structural, Hash)]
pub struct PeerAddr {
    pub ip: u32,
    pub port: u16,
}

/// A UDP payload together with the peer it goes to or came from.
#[derive(Clone, Debug, PartialEq, Eq)]
pub struct Datagram {
    pub addr: PeerAddr,
    pub payload: Vec<u8>,
}

/// Ghost image of a [`Datagram`].
pub ghost struct DatagramV {
    pub addr: PeerAddr,
    pub payload: Seq<u8>,
}

impl View for Datagram {
    type V = DatagramV;

    open spec fn view(&self) -> DatagramV {
        DatagramV { addr: self.addr, payload: self.payload@ }
    }
}

impl DeepView for Datagram {
    type V = DatagramV;

    open spec fn deep_view(&self) -> DatagramV {
        self.view()
    }
}

/// Everything that can go wrong in the transport.
#[derive(Debug, PartialEq, Eq, Clone, Copy)]
pub enum Error {
    /// The configuration names more channels than a one-byte tag can carry.
    TooManyChannels,
    /// A composed packet would exceed the configured maximum message size,
    /// or a payload does not fit the wire format.
    MessageTooLong,
    /// A send was attempted on a channel configured for receiving.
    SendOnReceiveChannel,
    /// A send was attempted to an address that is not connected.
    AddressNotConnected,
    /// A send was attempted on a channel id outside the configured range.
    InvalidChannelId,
    /// `send_single` was called while not exactly one peer was connected.
    SendSingleInvalid,
    /// The forward-error-correction encoder refused the message.
    FecEncode,
}

} // verus!
