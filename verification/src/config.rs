//! Static configuration of a client and its channels.

use vstd::prelude::*;

verus! {

/// The delivery discipline of one channel. Each channel of a client should
/// correspond to its opposite direction on the peer.
///
/// Resend thresholds are given in thousandths: a slot is retransmitted once
/// its age exceeds `average_ping * resend_threshold_permille / 1000`
/// milliseconds.
#[derive(Clone, Copy, Debug, PartialEq, Eq)]
pub enum ChannelConfig {
    SendUnreliable,
    ReceiveUnreliable,
    SendReliable {
        resend_threshold_permille: u32,
    },
    ReceiveReliable,
    SendFecReliable {
        resend_threshold_permille: u32,
        max_data_symbols: usize,
        max_repair_symbols: usize,
    },
    ReceiveFecReliable,
}

impl ChannelConfig {
    /// A channel configuration is well formed when its resend threshold is
    /// positive and, for forward error correction, the symbol counts are
    /// positive and a one-byte symbol index can name every symbol.
    pub open spec fn wf(self) -> bool {
        match self {
            ChannelConfig::SendReliable { resend_threshold_permille } => {
                resend_threshold_permille >= 1
            },
            ChannelConfig::SendFecReliable {
                resend_threshold_permille,
                max_data_symbols,
                max_repair_symbols,
            } => {
                &&& resend_threshold_permille >= 1
                &&& max_data_symbols >= 1
                &&& max_repair_symbols >= 1
                &&& max_data_symbols + max_repair_symbols <= 255
            },
            _ => true,
        }
    }
}

/// The static behaviour of a client.
#[derive(Clone, Debug)]
pub struct ClientConfig {
    /// Maximum datagram size in bytes; at most 65443, the largest UDP
    /// payload over IPv4.
    pub max_message_size: u16,
    /// How often to send heartbeats, in milliseconds.
    pub heartbeat_interval: u64,
    /// After how many milliseconds without traffic a peer is dropped.
    pub timeout: u64,
    /// How many round-trip samples the ping average is taken over.
    pub ping_memory_length: u8,
    /// Whether packets from unknown peers open a connection. When false they
    /// are answered with a close notice.
    pub listen: bool,
    /// The channel list, aligned index for index with the peer's.
    pub channels: Vec<ChannelConfig>,
}

impl ClientConfig {
    /// Well-formedness: sizes and durations are in their documented ranges
    /// and every channel configuration is well formed. The channel count is
    /// checked dynamically by `Client::bind`, not here.
    pub open spec fn wf(self) -> bool {
        &&& 1 <= self.max_message_size <= 65443
        &&& self.heartbeat_interval < self.timeout
        &&& self.ping_memory_length >= 1
        &&& forall|i: int| 0 <= i < self.channels@.len() ==> (#[trigger] self.channels@[i]).wf()
    }
}

} // verus!
