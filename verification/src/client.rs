//! The endpoint: it owns the connection table, dispatches inbound packets,
//! drives periodic work and produces the event queue.
//!
//! The client is a pure state machine. The caller binds a socket, reads
//! datagrams and a monotonic clock, and drives this type with them; packets
//! to transmit accumulate in an outgoing queue the caller drains. The caller
//! must hand in a time that never decreases from call to call.

use vstd::prelude::*;

use crate::channel::{
    ack_apply, fec_symbol_ack_apply, fec_whole_ack_apply, reliable_recv_apply, same_kind,
    send_apply, send_out, update_apply, Channel, ChannelV,
};
use crate::config::{ChannelConfig, ClientConfig};
use crate::connection::{
    channel_matches, conn_channels_out, fresh_conn_v, rtt_apply, Connection, ConnectionV,
};
use crate::wire::{
    be_val, build_close, build_echo, close_bytes, heartbeat_bytes, parse_packet,
    parse_packet_spec, Packet, PacketV,
};
use crate::{Datagram, DatagramV, Error, PeerAddr};

verus! {

/// Why a peer was dropped.
#[derive(Clone, Copy, Debug, PartialEq, Eq)]
pub enum DisconnectReason {
    /// This endpoint called disconnect.
    Kicked,
    /// The peer sent a close notice.
    Other,
    /// The peer stopped answering.
    Timeout,
    /// The peer came back under the same address with another instance tag.
    OriginChangedInstance,
}

/// What a pass of the endpoint reports to its caller.
#[derive(Clone, Debug, PartialEq, Eq)]
pub enum Event {
    /// A connection to this peer now exists.
    Connection(PeerAddr),
    /// The connection to this peer is gone.
    Disconnection(PeerAddr, DisconnectReason),
    /// A channel delivered an application message.
    Message(PeerAddr, u8, Vec<u8>),
}

/// Ghost image of an [`Event`].
pub ghost enum EventV {
    Connection(PeerAddr),
    Disconnection(PeerAddr, DisconnectReason),
    Message(PeerAddr, u8, Seq<u8>),
}

impl View for Event {
    type V = EventV;

    open spec fn view(&self) -> EventV {
        match *self {
            Event::Connection(a) => EventV::Connection(a),
            Event::Disconnection(a, r) => EventV::Disconnection(a, r),
            Event::Message(a, ch, ref m) => EventV::Message(a, ch, m@),
        }
    }
}

impl DeepView for Event {
    type V = EventV;

    open spec fn deep_view(&self) -> EventV {
        self.view()
    }
}

/// An event the configuration allows: a message event names a channel the
/// configuration has.
pub open spec fn event_ch_wf(e: EventV, n_channels: int) -> bool {
    match e {
        EventV::Message(_, ch, _) => (ch as int) < n_channels,
        _ => true,
    }
}

/// Prefixes compose.
pub proof fn lemma_prefix_trans<T>(a: Seq<T>, b: Seq<T>, c: Seq<T>)
    requires
        a.is_prefix_of(b),
        b.is_prefix_of(c),
    ensures
        a.is_prefix_of(c),
{
    assert(c.take(b.len() as int).take(a.len() as int) =~= c.take(a.len() as int));
}

/// The endpoint.
pub struct Client {
    pub instance: u128,
    pub connections: Vec<Connection>,
    pub config: ClientConfig,
    pub events: Vec<Event>,
    pub outgoing: Vec<Datagram>,
}

impl Client {
    /// What this client demands of one of its connections: sound channel
    /// state machines, aligned one for one with the configured channel
    /// list, and a round-trip buffer within the configured capacity.
    pub open spec fn conn_wf(self, c: Connection) -> bool {
        &&& c.inv()
        &&& c@.fits(self.config.max_message_size as int)
        &&& c.ping_memory@.len() <= self.config.ping_memory_length
        &&& c.heartbeat_interval == self.config.heartbeat_interval
        &&& c.channels@.len() == self.config.channels@.len()
        &&& forall|q: int|
            0 <= q < c.channels@.len() ==> channel_matches(
                (#[trigger] c.channels@[q])@,
                self.config.channels@[q],
            )
    }

    /// Structural soundness of the whole endpoint: a well-formed
    /// configuration of at most 252 channels, one connection per address,
    /// each well formed, and no queued event naming a channel the
    /// configuration does not have.
    pub open spec fn wf(self) -> bool {
        &&& self.config.wf()
        &&& self.config.channels@.len() <= 252
        &&& (forall|i: int, j: int|
            #![trigger self.connections@[i], self.connections@[j]]
            0 <= i < j < self.connections@.len() ==> self.connections@[i].addr
                != self.connections@[j].addr)
        &&& (forall|i: int|
            0 <= i < self.connections@.len() ==> self.conn_wf(#[trigger] self.connections@[i]))
        &&& (forall|i: int|
            0 <= i < self.events@.len() ==> event_ch_wf(
                (#[trigger] self.events@[i])@,
                self.config.channels@.len() as int,
            ))
    }

    /// Every instant any connection remembers lies at or before `now`.
    pub open spec fn le_now(self, now: u64) -> bool {
        forall|i: int|
            0 <= i < self.connections@.len() ==> (#[trigger] self.connections@[i])@.le_now(now)
    }

    /// Whether a connection to `addr` exists.
    pub open spec fn has_peer(self, addr: PeerAddr) -> bool {
        exists|i: int| 0 <= i < self.connections@.len() && self.connections@[i].addr == addr
    }

    /// The index of the connection to `addr`.
    pub open spec fn peer_at(self, addr: PeerAddr) -> int {
        choose|i: int| 0 <= i < self.connections@.len() && self.connections@[i].addr == addr
    }

    /// In a well-formed endpoint an address names at most one connection.
    pub proof fn lemma_unique_peer(self, addr: PeerAddr, w: int)
        requires
            forall|i: int, j: int|
                #![trigger self.connections@[i], self.connections@[j]]
                0 <= i < j < self.connections@.len() ==> self.connections@[i].addr
                    != self.connections@[j].addr,
            0 <= w < self.connections@.len(),
            self.connections@[w].addr == addr,
        ensures
            self.has_peer(addr),
            self.peer_at(addr) == w,
    {
        assert(self.has_peer(addr));
        let k = self.peer_at(addr);
        assert(0 <= k < self.connections@.len() && self.connections@[k].addr == addr);
        if k < w {
            assert(self.connections@[k] == self.connections@[k]);
            assert(self.connections@[k].addr != self.connections@[w].addr);
            assert(false);
        } else if w < k {
            assert(self.connections@[w].addr != self.connections@[k].addr);
            assert(false);
        }
    }

    /// Finds the connection to `addr`, if any.
    fn find_peer(&self, addr: PeerAddr) -> (r: Option<usize>)
        requires
            self.wf(),
        ensures
            match r {
                Some(i) => i < self.connections@.len() && self.connections@[i as int].addr
                    == addr && self.has_peer(addr) && self.peer_at(addr) == i as int,
                None => !self.has_peer(addr),
            },
    {
        let n = self.connections.len();
        let mut i: usize = 0;
        #[verifier::loop_isolation(false)]
        while i < n
            invariant
                i <= n == self.connections@.len(),
                forall|q: int| 0 <= q < i ==> (#[trigger] self.connections@[q]).addr != addr,
            decreases n - i,
        {
            if self.connections[i].addr == addr {
                proof {
                    self.lemma_unique_peer(addr, i as int);
                }
                return Some(i);
            }
            i = i + 1;
        }
        None
    }

    /// Creates an endpoint from its configuration and instance tag. The one
    /// configuration it refuses is a channel list longer than a one-byte
    /// tag can address.
    pub fn bind(config: ClientConfig, instance: u128) -> (r: Result<Client, Error>)
        requires
            config.wf(),
        ensures
            r is Ok <==> config.channels@.len() <= 252,
            r is Err ==> r == Err::<Client, Error>(Error::TooManyChannels),
            r matches Ok(c) ==> {
                &&& c.wf()
                &&& c.instance == instance
                &&& c.config == config
                &&& c.connections@ == Seq::<Connection>::empty()
                &&& c.events@ == Seq::<Event>::empty()
                &&& c.outgoing@ == Seq::<Datagram>::empty()
            },
    {
        if config.channels.len() > 252 {
            return Err(Error::TooManyChannels);
        }
        Ok(
            Client {
                instance,
                connections: Vec::new(),
                config,
                events: Vec::new(),
                outgoing: Vec::new(),
            },
        )
    }

    /// Opens (or replaces) a connection to `addr`: the new connection's
    /// opening heartbeat joins the outgoing queue and a connection event is
    /// recorded. Fails only when the configured maximum message size cannot
    /// even carry a heartbeat.
    pub fn connect(&mut self, addr: PeerAddr, now: u64) -> (r: Result<(), Error>)
        requires
            old(self).wf(),
            old(self).le_now(now),
        ensures
            final(self).wf(),
            final(self).le_now(now),
            final(self).instance == old(self).instance,
            final(self).config == old(self).config,
            r is Ok <==> 33 <= old(self).config.max_message_size,
            r is Err ==> r == Err::<(), Error>(Error::MessageTooLong) && final(self).connections
                == old(self).connections && final(self).events == old(self).events
                && final(self).outgoing@ == old(self).outgoing@,
            r is Ok ==> {
                &&& final(self).has_peer(addr)
                &&& final(self).connections@[final(self).peer_at(addr)]@ == fresh_conn_v(
                    old(self).config,
                    addr,
                    now,
                )
                &&& (if old(self).has_peer(addr) {
                    final(self).connections@ =~= old(self).connections@.update(
                        old(self).peer_at(addr),
                        final(self).connections@[old(self).peer_at(addr)],
                    ) && final(self).peer_at(addr) == old(self).peer_at(addr)
                } else {
                    final(self).connections@ =~= old(self).connections@.push(
                        final(self).connections@[old(self).connections@.len() as int],
                    ) && final(self).peer_at(addr) == old(self).connections@.len()
                })
                &&& final(self).events@ == old(self).events@.push(Event::Connection(addr))
                &&& final(self).outgoing.deep_view() == old(self).outgoing.deep_view().push(
                    DatagramV { addr, payload: heartbeat_bytes(old(self).instance, 0) },
                )
            },
    {
        let conn = match Connection::new(
            &self.config,
            addr,
            self.instance,
            now,
            &mut self.outgoing,
        ) {
            Ok(c) => c,
            Err(e) => {
                return Err(e);
            },
        };
        proof {
            assert(conn@ =~~= fresh_conn_v(self.config, addr, now));
        }
        match self.find_peer(addr) {
            Some(i) => {
                let ghost gconn = conn;
                self.connections[i] = conn;
                proof {
                    let w = i as int;
                    assert(self.connections@[w] == gconn);
                    assert(gconn.channels@.len() == gconn@.channels.len());
                    assert forall|q: int| 0 <= q < gconn.channels@.len() implies channel_matches(
                        (#[trigger] gconn.channels@[q])@,
                        self.config.channels@[q],
                    ) by {
                        assert(gconn@.channels[q] == gconn.channels@[q]@);
                    }
                    assert(self.conn_wf(gconn));
                    assert(self.connections@ =~= old(self).connections@.update(
                        w,
                        self.connections@[w],
                    ));
                    assert forall|p: int, q: int|
                        #![trigger self.connections@[p], self.connections@[q]]
                        0 <= p < q < self.connections@.len() implies self.connections@[p].addr
                        != self.connections@[q].addr by {
                        assert(old(self).connections@[p].addr != old(self).connections@[q].addr);
                        assert(self.connections@[p].addr == if p == w {
                            addr
                        } else {
                            old(self).connections@[p].addr
                        });
                    }
                    assert(self.connections@[w].addr == addr);
                    self.lemma_unique_peer(addr, w);
                }
            },
            None => {
                let ghost gconn = conn;
                self.connections.push(conn);
                proof {
                    let w = old(self).connections@.len() as int;
                    assert(self.connections@[w] == gconn);
                    assert(gconn.channels@.len() == gconn@.channels.len());
                    assert forall|q: int| 0 <= q < gconn.channels@.len() implies channel_matches(
                        (#[trigger] gconn.channels@[q])@,
                        self.config.channels@[q],
                    ) by {
                        assert(gconn@.channels[q] == gconn.channels@[q]@);
                    }
                    assert(self.conn_wf(gconn));
                    assert forall|p: int, q: int|
                        #![trigger self.connections@[p], self.connections@[q]]
                        0 <= p < q < self.connections@.len() implies self.connections@[p].addr
                        != self.connections@[q].addr by {
                        if q < w {
                            assert(old(self).connections@[p].addr != old(
                                self,
                            ).connections@[q].addr);
                        } else {
                            assert(!old(self).has_peer(addr));
                            assert(old(self).connections@[p].addr != addr);
                        }
                    }
                    assert(self.connections@[w].addr == addr);
                    self.lemma_unique_peer(addr, w);
                }
            },
        }
        self.events.push(Event::Connection(addr));
        Ok(())
    }

    /// Closes the connection to `addr`, if one exists: the peer is told with
    /// a close packet, and a disconnection event carrying `Kicked` is
    /// recorded. Returns whether anything was closed.
    pub fn disconnect(&mut self, addr: PeerAddr) -> (r: Result<bool, Error>)
        requires
            old(self).wf(),
        ensures
            final(self).wf(),
            final(self).instance == old(self).instance,
            final(self).config == old(self).config,
            forall|now: u64| old(self).le_now(now) ==> final(self).le_now(now),
            if old(self).has_peer(addr) {
                &&& r == Ok::<bool, Error>(true)
                &&& final(self).connections@ =~= old(self).connections@.remove(
                    old(self).peer_at(addr),
                )
                &&& final(self).outgoing.deep_view() == old(self).outgoing.deep_view().push(
                    DatagramV { addr, payload: close_bytes() },
                )
                &&& final(self).events@ == old(self).events@.push(
                    Event::Disconnection(addr, DisconnectReason::Kicked),
                )
            } else {
                &&& r == Ok::<bool, Error>(false)
                &&& *final(self) == *old(self)
            },
    {
        match self.find_peer(addr) {
            None => Ok(false),
            Some(i) => {
                let _ = self.connections.remove(i);
                let close = build_close();
                self.outgoing.push(Datagram { addr, payload: close });
                self.events.push(Event::Disconnection(addr, DisconnectReason::Kicked));
                proof {
                    assert(self.outgoing.deep_view() =~~= old(self).outgoing.deep_view().push(
                        DatagramV { addr, payload: close_bytes() },
                    ));
                }
                Ok(true)
            },
        }
    }

    /// Closes every connection, as `disconnect` does for one.
    pub fn disconnect_all(&mut self) -> (r: Result<(), Error>)
        requires
            old(self).wf(),
        ensures
            final(self).wf(),
            final(self).instance == old(self).instance,
            final(self).config == old(self).config,
            forall|now: u64| old(self).le_now(now) ==> final(self).le_now(now),
            r is Ok,
            final(self).connections@ == Seq::<Connection>::empty(),
            final(self).outgoing.deep_view() =~= old(self).outgoing.deep_view() + old(
                self,
            ).connections@.map_values(
                |c: Connection| DatagramV { addr: c.addr, payload: close_bytes() },
            ),
            final(self).events@ =~= old(self).events@ + old(self).connections@.map_values(
                |c: Connection| Event::Disconnection(c.addr, DisconnectReason::Kicked),
            ),
    {
        let ghost conns0 = self.connections@;
        let total = self.connections.len();
        let mut k: usize = 0;
        #[verifier::loop_isolation(false)]
        while self.connections.len() > 0
            invariant
                self.wf(),
                self.instance == old(self).instance,
                self.config == old(self).config,
                k <= total == conns0.len(),
                self.connections@ =~= conns0.skip(k as int),
                self.outgoing.deep_view() =~= old(self).outgoing.deep_view() + conns0.take(
                    k as int,
                ).map_values(|c: Connection| DatagramV { addr: c.addr, payload: close_bytes() }),
                self.events@ =~= old(self).events@ + conns0.take(k as int).map_values(
                    |c: Connection| Event::Disconnection(c.addr, DisconnectReason::Kicked),
                ),
                forall|now: u64| old(self).le_now(now) ==> self.le_now(now),
            decreases self.connections@.len(),
    {
            proof {
                assert(self.connections@.len() > 0);
                assert(k < total);
                assert(conns0.skip(k as int)[0] == conns0[k as int]);
                assert(conns0.take(k + 1).drop_last() =~= conns0.take(k as int));
                assert(conns0.take(k + 1).last() == conns0[k as int]);
                assert(conns0.skip(k as int).drop_first() =~= conns0.skip(k + 1));
            }
            let conn = self.connections.remove(0);
            let addr = conn.addr;
            proof {
                assert(conn == conns0[k as int]);
            }
            let close = build_close();
            let ghost pre_out = self.outgoing.deep_view();
            let ghost pre_ev = self.events@;
            self.outgoing.push(Datagram { addr, payload: close });
            self.events.push(Event::Disconnection(addr, DisconnectReason::Kicked));
            proof {
                assert(self.outgoing.deep_view() =~~= pre_out.push(
                    DatagramV { addr, payload: close_bytes() },
                ));
                assert(conns0.take(k + 1).map_values(
                    |c: Connection| DatagramV { addr: c.addr, payload: close_bytes() },
                ) =~~= conns0.take(k as int).map_values(
                    |c: Connection| DatagramV { addr: c.addr, payload: close_bytes() },
                ).push(DatagramV { addr, payload: close_bytes() }));
                assert(conns0.take(k + 1).map_values(
                    |c: Connection| Event::Disconnection(c.addr, DisconnectReason::Kicked),
                ) =~~= conns0.take(k as int).map_values(
                    |c: Connection| Event::Disconnection(c.addr, DisconnectReason::Kicked),
                ).push(Event::Disconnection(addr, DisconnectReason::Kicked)));
            }
            k = k + 1;
            proof {
                assert(self.connections@ =~= conns0.skip(k as int));
                assert(self.outgoing.deep_view() =~~= old(self).outgoing.deep_view()
                    + conns0.take(k as int).map_values(
                    |c: Connection| DatagramV { addr: c.addr, payload: close_bytes() },
                ));
                assert(self.events@ =~~= old(self).events@ + conns0.take(k as int).map_values(
                    |c: Connection| Event::Disconnection(c.addr, DisconnectReason::Kicked),
                ));
            }
        }
        proof {
            assert(k == conns0.len());
            assert(conns0.take(conns0.len() as int) =~= conns0);
        }
        Ok(())
    }

    /// The current round-trip average for `addr`, or nothing before the
    /// first sample; an error when `addr` is not connected.
    pub fn get_ping(&self, addr: PeerAddr) -> (r: Result<Option<u64>, Error>)
        requires
            self.wf(),
        ensures
            if self.has_peer(addr) {
                r == Ok::<Option<u64>, Error>(
                    self.connections@[self.peer_at(addr)].average_ping,
                )
            } else {
                r == Err::<Option<u64>, Error>(Error::AddressNotConnected)
            },
    {
        match self.find_peer(addr) {
            None => Err(Error::AddressNotConnected),
            Some(i) => Ok(self.connections[i].average_ping),
        }
    }

    /// The addresses of every tracked peer, in table order.
    pub fn connections(&self) -> (r: Vec<PeerAddr>)
        ensures
            r@ == self.connections@.map_values(|c: Connection| c.addr),
    {
        let n = self.connections.len();
        let mut r: Vec<PeerAddr> = Vec::new();
        let mut i: usize = 0;
        #[verifier::loop_isolation(false)]
        while i < n
            invariant
                i <= n == self.connections@.len(),
                r@ =~= self.connections@.take(i as int).map_values(|c: Connection| c.addr),
            decreases n - i,
        {
            r.push(self.connections[i].addr);
            i = i + 1;
            proof {
                assert(r@ =~= self.connections@.take(i as int).map_values(
                    |c: Connection| c.addr,
                ));
            }
        }
        proof {
            assert(self.connections@.take(n as int) =~= self.connections@);
        }
        r
    }

    /// Sends one message on channel `channel_id` to `addr`. What exactly is
    /// transmitted and retained is the channel state machine's affair; this
    /// relation restates it at the endpoint level.
    pub open spec fn send_transition(pre: Client, post: Client, r: Result<(), Error>, addr: PeerAddr, channel_id: u8, msg: Seq<u8>, now: u64) -> bool {
        &&& post.instance == pre.instance
        &&& post.config == pre.config
        &&& post.events == pre.events
        &&& (if !pre.has_peer(addr) {
            &&& r == Err::<(), Error>(Error::AddressNotConnected)
            &&& post.connections == pre.connections
            &&& post.outgoing@ == pre.outgoing@
        } else if channel_id as int >= pre.config.channels@.len() {
            &&& r == Err::<(), Error>(Error::InvalidChannelId)
            &&& post.connections == pre.connections
            &&& post.outgoing@ == pre.outgoing@
        } else {
            let i = pre.peer_at(addr);
            let cid = channel_id as int;
            let ch = pre.connections@[i].channels@[cid]@;
            let max = pre.config.max_message_size as int;
            &&& (r is Ok ==> {
                &&& post.connections@.len() == pre.connections@.len()
                &&& (forall|j: int|
                    0 <= j < pre.connections@.len() && j != i ==> #[trigger] post.connections@[j]
                        == pre.connections@[j])
                &&& post.connections@[i].addr == pre.connections@[i].addr
                &&& post.connections@[i].other_instance == pre.connections@[i].other_instance
                &&& post.connections@[i].creation_time == pre.connections@[i].creation_time
                &&& post.connections@[i].ping_memory == pre.connections@[i].ping_memory
                &&& post.connections@[i].average_ping == pre.connections@[i].average_ping
                &&& post.connections@[i].last_received_keep_alive == pre.connections@[
                    i
                ].last_received_keep_alive
                &&& post.connections@[i].last_sent_keep_alive == pre.connections@[
                    i
                ].last_sent_keep_alive
                &&& post.connections@[i].channels@.len() == pre.connections@[i].channels@.len()
                &&& (forall|q: int|
                    0 <= q < pre.connections@[i].channels@.len() && q != cid
                        ==> #[trigger] post.connections@[i].channels@[q] == pre.connections@[
                        i
                    ].channels@[q])
                &&& post.connections@[i].channels@[cid]@ == send_apply(ch, msg, now)
                &&& post.outgoing.deep_view() == pre.outgoing.deep_view() + send_out(
                    ch,
                    addr,
                    channel_id,
                    msg,
                    now,
                )
            })
            &&& (r is Err ==> {
                &&& post.connections@.len() == pre.connections@.len()
                &&& (forall|j: int|
                    0 <= j < pre.connections@.len() ==> (#[trigger] post.connections@[j])@
                        == pre.connections@[j]@)
                &&& post.outgoing@ == pre.outgoing@
            })
            &&& (match pre.config.channels@[cid] {
                ChannelConfig::SendUnreliable => {
                    if 1 + msg.len() <= max {
                        r is Ok
                    } else {
                        r == Err::<(), Error>(Error::MessageTooLong)
                    }
                },
                ChannelConfig::SendReliable { .. } => {
                    if 9 + msg.len() <= max {
                        r is Ok
                    } else {
                        r == Err::<(), Error>(Error::MessageTooLong)
                    }
                },
                ChannelConfig::SendFecReliable { .. } => {
                    &&& (msg.len() > 65535 ==> r == Err::<(), Error>(Error::MessageTooLong))
                    &&& (r is Err ==> r == Err::<(), Error>(Error::MessageTooLong) || r
                        == Err::<(), Error>(Error::FecEncode))
                },
                _ => r == Err::<(), Error>(Error::SendOnReceiveChannel),
            })
        })
    }

    /// Sends `message` on channel `channel_id` to `addr`: fails when the
    /// address is unknown, the channel id out of range, the channel a
    /// receiving one, or the message does not fit; otherwise the channel
    /// transmits and, on the reliable disciplines, retains it.
    pub fn send(&mut self, addr: PeerAddr, channel_id: u8, message: &[u8], now: u64) -> (r:
        Result<(), Error>)
        requires
            old(self).wf(),
            old(self).le_now(now),
            old(self).has_peer(addr) && (channel_id as int) < old(self).config.channels@.len()
                ==> old(self).connections@[old(self).peer_at(addr)].channels@[
                channel_id as int
            ]@.next_seq() < u64::MAX,
        ensures
            final(self).wf(),
            final(self).le_now(now),
            Self::send_transition(
                *old(self),
                *final(self),
                r,
                addr,
                channel_id,
                message@,
                now,
            ),
    {
        let i = match self.find_peer(addr) {
            None => {
                return Err(Error::AddressNotConnected);
            },
            Some(i) => i,
        };
        if channel_id as usize >= self.config.channels.len() {
            return Err(Error::InvalidChannelId);
        }
        let max = self.config.max_message_size as usize;
        let cid = channel_id as usize;
        proof {
            assert(old(self).conn_wf(old(self).connections@[i as int]));
            assert(old(self).connections@[i as int].channels@[cid as int].inv());
            assert(channel_matches(
                old(self).connections@[i as int].channels@[cid as int]@,
                old(self).config.channels@[cid as int],
            ));
        }
        let conn = &mut self.connections[i];
        let ch = &mut conn.channels[cid];
        let res = ch.send(message, now, max, &mut self.outgoing);
        proof {
            let pre_conn = old(self).connections@[i as int];
            let pre_ch = pre_conn.channels@[cid as int];
            assert(self.connections@ =~= old(self).connections@.update(
                i as int,
                self.connections@[i as int],
            ));
            assert(self.connections@[i as int].channels@ =~= pre_conn.channels@.update(
                cid as int,
                self.connections@[i as int].channels@[cid as int],
            ));
        }
        match res {
            Ok(()) => {
                proof {
                    let pre = *old(self);
                    let i2 = i as int;
                    let cid2 = cid as int;
                    let max2 = pre.config.max_message_size as int;
                    let pre_conn = pre.connections@[i2];
                    let newconn = self.connections@[i2];
                    assert(pre.conn_wf(pre_conn));
                    assert(pre_conn@.fits(max2));
                    assert(pre_conn@.le_now(now));
                    assert forall|q: int|
                        0 <= q < newconn@.channels.len() implies (#[trigger] newconn@.channels[
                        q
                    ]).fits(max2) && newconn@.channels[q].le_now(now) by {
                        assert(newconn@.channels[q] == newconn.channels@[q]@);
                        assert(pre_conn@.channels[q] == pre_conn.channels@[q]@);
                        assert(pre_conn@.channels[q].fits(max2));
                        assert(pre_conn@.channels[q].le_now(now));
                        if q != cid2 {
                            assert(newconn.channels@[q] == pre_conn.channels@[q]);
                        }
                    }
                    assert(newconn@.fits(max2));
                    assert(newconn@.le_now(now));
                    assert(self.conn_wf(newconn)) by {
                        assert(newconn.inv()) by {
                            assert(newconn@.ping_wf() == pre_conn@.ping_wf());
                        }
                        assert(forall|q: int|
                            0 <= q < newconn.channels@.len() ==> channel_matches(
                                (#[trigger] newconn.channels@[q])@,
                                self.config.channels@[q],
                            ));
                    }
                    assert forall|p: int|
                        0 <= p < self.connections@.len() implies self.conn_wf(
                        #[trigger] self.connections@[p],
                    ) by {
                        if p != i2 {
                            assert(self.connections@[p] == pre.connections@[p]);
                        }
                    }
                    assert(self.wf());
                    assert(self.le_now(now));
                    let pre_ch = pre_conn.channels@[cid2];
                    assert(self.connections@[i2].channels@[cid2]@ == send_apply(
                        pre_ch@,
                        message@,
                        now,
                    ));
                    assert(self.outgoing.deep_view() =~~= pre.outgoing.deep_view() + send_out(
                        pre_ch@,
                        addr,
                        channel_id,
                        message@,
                        now,
                    ));
                    assert(Self::send_transition(
                        pre,
                        *self,
                        Ok::<(), Error>(()),
                        addr,
                        channel_id,
                        message@,
                        now,
                    ));
                }
                Ok(())
            },
            Err(e) => {
                proof {
                    let pre = *old(self);
                    let i2 = i as int;
                    let cid2 = cid as int;
                    let pre_conn = pre.connections@[i2];
                    assert(pre.conn_wf(pre_conn));
                    assert(channel_matches(
                        pre_conn.channels@[cid2]@,
                        pre.config.channels@[cid2],
                    ));
                    assert forall|j: int|
                        0 <= j < pre.connections@.len() implies (#[trigger] self.connections@[
                        j
                    ])@ == pre.connections@[j]@ by {
                        if j == i2 {
                            assert(self.connections@[j].channels@ =~= pre_conn.channels@.update(
                                cid2,
                                self.connections@[j].channels@[cid2],
                            ));
                            assert(self.connections@[j]@.channels =~~= pre.connections@[
                                j
                            ]@.channels);
                            assert(self.connections@[j]@ =~~= pre.connections@[j]@);
                        } else {
                            assert(self.connections@[j] == pre.connections@[j]);
                        }
                    }
                    assert forall|p: int|
                        0 <= p < self.connections@.len() implies self.conn_wf(
                        #[trigger] self.connections@[p],
                    ) by {
                        if p != i2 {
                            assert(self.connections@[p] == pre.connections@[p]);
                        } else {
                            let nc = self.connections@[p];
                            assert(nc@.ping_wf() == pre_conn@.ping_wf());
                            assert(forall|q: int|
                                0 <= q < nc.channels@.len() ==> (#[trigger] nc.channels@[q])
                                    == pre_conn.channels@[q] || q == cid2);
                            assert(nc.channels@[cid2].inv() && nc.channels@[cid2].channel_id
                                == cid2 && nc.channels@[cid2].addr == nc.addr);
                            assert(forall|q: int|
                                0 <= q < nc.channels@.len() ==> channel_matches(
                                    (#[trigger] nc.channels@[q])@,
                                    self.config.channels@[q],
                                ));
                            assert(nc@.fits(self.config.max_message_size as int)) by {
                                assert(forall|q: int|
                                    0 <= q < nc@.channels.len() ==> (#[trigger] nc@.channels[q])
                                        == nc.channels@[q]@);
                            }
                        }
                    }
                    assert(self.wf());
                    assert(self.le_now(now)) by {
                        assert forall|p: int|
                            0 <= p < self.connections@.len() implies (
                        #[trigger] self.connections@[p])@.le_now(now) by {
                            assert(self.connections@[p]@ == pre.connections@[p]@ || p == i2);
                            if p == i2 {
                                assert(forall|q: int|
                                    0 <= q < self.connections@[p]@.channels.len() ==> (
                                    #[trigger] self.connections@[p]@.channels[q])
                                        == self.connections@[p].channels@[q]@);
                            }
                        }
                    }
                }
                Err(e)
            },
        }
    }

    /// Sends on the single connection: valid exactly when one peer is
    /// tracked, and then behaves as `send` to that peer.
    pub fn send_single(&mut self, channel_id: u8, message: &[u8], now: u64) -> (r: Result<
        (),
        Error,
    >)
        requires
            old(self).wf(),
            old(self).le_now(now),
            old(self).connections@.len() == 1 && (channel_id as int) < old(
                self,
            ).config.channels@.len() ==> old(self).connections@[0].channels@[
                channel_id as int
            ]@.next_seq() < u64::MAX,
        ensures
            final(self).wf(),
            final(self).le_now(now),
            if old(self).connections@.len() == 1 {
                Self::send_transition(
                    *old(self),
                    *final(self),
                    r,
                    old(self).connections@[0].addr,
                    channel_id,
                    message@,
                    now,
                )
            } else {
                r == Err::<(), Error>(Error::SendSingleInvalid) && *final(self) == *old(self)
            },
    {
        if self.connections.len() != 1 {
            return Err(Error::SendSingleInvalid);
        }
        let addr = self.connections[0].addr;
        proof {
            self.lemma_unique_peer(addr, 0);
        }
        self.send(addr, channel_id, message, now)
    }

    /// Within one pass at time `now`, a connection that outlives the pass
    /// keeps the instance tag it had already recorded: the tag is write
    /// once. Connections created during the pass carry `now` as their
    /// creation time.
    pub open spec fn instance_preserved(pre: Client, post: Client, now: u64) -> bool {
        forall|k: int|
            0 <= k < post.connections@.len() ==> {
                let fc = (#[trigger] post.connections@[k]);
                fc.creation_time == now || (pre.has_peer(fc.addr) && {
                    let oc = pre.connections@[pre.peer_at(fc.addr)];
                    &&& oc.creation_time == fc.creation_time
                    &&& (oc.other_instance matches Some(x) ==> fc.other_instance == Some(x))
                })
            }
    }

    /// Write-once tags compose across the steps of one pass.
    pub proof fn lemma_instance_preserved_trans(a: Client, b: Client, c: Client, now: u64)
        requires
            Self::instance_preserved(a, b, now),
            Self::instance_preserved(b, c, now),
        ensures
            Self::instance_preserved(a, c, now),
    {
        assert forall|k: int| 0 <= k < c.connections@.len() implies {
            let fc = (#[trigger] c.connections@[k]);
            fc.creation_time == now || (a.has_peer(fc.addr) && {
                let oc = a.connections@[a.peer_at(fc.addr)];
                &&& oc.creation_time == fc.creation_time
                &&& (oc.other_instance matches Some(x) ==> fc.other_instance == Some(x))
            })
        } by {
            let fc = c.connections@[k];
            if fc.creation_time != now {
                assert(b.has_peer(fc.addr));
                let jb = b.peer_at(fc.addr);
                let mc = b.connections@[jb];
                assert(0 <= jb < b.connections@.len() && mc.addr == fc.addr);
                assert(mc.creation_time == fc.creation_time);
                assert(mc.creation_time != now);
                assert(a.has_peer(mc.addr));
            }
        }
    }

    /// A pass step that keeps the table pointwise (same addresses, same
    /// creation times, recorded tags kept) preserves instance tags.
    pub proof fn lemma_instance_preserved_pointwise(pre: Client, post: Client, now: u64)
        requires
            pre.wf(),
            post.connections@.len() == pre.connections@.len(),
            forall|k: int|
                0 <= k < post.connections@.len() ==> {
                    &&& (#[trigger] post.connections@[k]).addr == pre.connections@[k].addr
                    &&& post.connections@[k].creation_time == pre.connections@[k].creation_time
                    &&& (pre.connections@[k].other_instance matches Some(x)
                        ==> post.connections@[k].other_instance == Some(x))
                },
        ensures
            Self::instance_preserved(pre, post, now),
    {
        assert forall|k: int| 0 <= k < post.connections@.len() implies ({
            let fc = (#[trigger] post.connections@[k]);
            fc.creation_time == now || (pre.has_peer(fc.addr) && {
                let oc = pre.connections@[pre.peer_at(fc.addr)];
                &&& oc.creation_time == fc.creation_time
                &&& (oc.other_instance matches Some(x) ==> fc.other_instance == Some(x))
            })
        }) by {
            let fc = post.connections@[k];
            pre.lemma_unique_peer(fc.addr, k);
        }
    }

    /// Dropping one connection preserves the recorded tags of the rest.
    pub proof fn lemma_instance_preserved_remove(pre: Client, post: Client, i: int, now: u64)
        requires
            pre.wf(),
            0 <= i < pre.connections@.len(),
            forall|k: int|
                0 <= k < post.connections@.len() ==> (#[trigger] post.connections@[k])
                    == pre.connections@[if k < i { k } else { k + 1 }],
            post.connections@.len() == pre.connections@.len() - 1,
        ensures
            Self::instance_preserved(pre, post, now),
    {
        assert forall|k: int| 0 <= k < post.connections@.len() implies ({
            let fc = (#[trigger] post.connections@[k]);
            fc.creation_time == now || (pre.has_peer(fc.addr) && {
                let oc = pre.connections@[pre.peer_at(fc.addr)];
                &&& oc.creation_time == fc.creation_time
                &&& (oc.other_instance matches Some(x) ==> fc.other_instance == Some(x))
            })
        }) by {
            let fc = post.connections@[k];
            let k2: int = if k < i {
                k
            } else {
                k + 1
            };
            assert(fc == pre.connections@[k2]);
            pre.lemma_unique_peer(fc.addr, k2);
        }
    }

    /// Adding a connection created at `now` preserves the recorded tags.
    pub proof fn lemma_instance_preserved_push(pre: Client, post: Client, now: u64)
        requires
            pre.wf(),
            post.connections@.len() == pre.connections@.len() + 1,
            forall|k: int|
                0 <= k < pre.connections@.len() ==> (#[trigger] post.connections@[k])
                    == pre.connections@[k],
            post.connections@[pre.connections@.len() as int].creation_time == now,
        ensures
            Self::instance_preserved(pre, post, now),
    {
        assert forall|k: int| 0 <= k < post.connections@.len() implies ({
            let fc = (#[trigger] post.connections@[k]);
            fc.creation_time == now || (pre.has_peer(fc.addr) && {
                let oc = pre.connections@[pre.peer_at(fc.addr)];
                &&& oc.creation_time == fc.creation_time
                &&& (oc.other_instance matches Some(x) ==> fc.other_instance == Some(x))
            })
        }) by {
            if k < pre.connections@.len() {
                let fc = post.connections@[k];
                pre.lemma_unique_peer(fc.addr, k);
            }
        }
    }

    /// Drops connection `i` from the table, leaving everything else alone.
    fn remove_conn(&mut self, i: usize) -> (c: Connection)
        requires
            old(self).wf(),
            i < old(self).connections@.len(),
        ensures
            final(self).wf(),
            c == old(self).connections@[i as int],
            final(self).connections@ == old(self).connections@.remove(i as int),
            final(self).instance == old(self).instance,
            final(self).config == old(self).config,
            final(self).events == old(self).events,
            final(self).outgoing == old(self).outgoing,
            forall|t: u64| old(self).le_now(t) ==> final(self).le_now(t),
            forall|k: int|
                0 <= k < final(self).connections@.len()
                    ==> (#[trigger] final(self).connections@[k]) == old(self).connections@[
                    if k < i { k } else { k + 1 }
                ],
    {
        let c = self.connections.remove(i);
        proof {
            let olds = old(self).connections@;
            let news = self.connections@;
            assert forall|p: int| 0 <= p < news.len() implies #[trigger] news[p] == olds[
                if p < i {
                    p
                } else {
                    p + 1
                }
            ] by {
                if p < i {
                    assert(olds.remove(i as int)[p] == olds[p]);
                } else {
                    assert(olds.remove(i as int)[p] == olds[p + 1]);
                }
            }
            assert forall|p: int, q: int|
                #![trigger news[p], news[q]]
                0 <= p < q < news.len() implies news[p].addr != news[q].addr by {
                let p2: int = if p < i {
                    p
                } else {
                    p + 1
                };
                let q2: int = if q < i {
                    q
                } else {
                    q + 1
                };
                assert(olds[p2].addr != olds[q2].addr);
            }
            assert forall|p: int| 0 <= p < news.len() implies self.conn_wf(
                #[trigger] news[p],
            ) by {
                let p2: int = if p < i {
                    p
                } else {
                    p + 1
                };
                assert(old(self).conn_wf(olds[p2]));
            }
            assert forall|t: u64| old(self).le_now(t) implies final(self).le_now(t) by {
                assert forall|p: int|
                    0 <= p < news.len() implies (#[trigger] news[p])@.le_now(t) by {
                    let p2: int = if p < i {
                        p
                    } else {
                        p + 1
                    };
                    assert(olds[p2]@.le_now(t));
                }
            }
        }
        c
    }

    /// Whether a peer's silence has outlived the timeout at time `now`.
    pub open spec fn stale(c: Connection, timeout: u64, now: u64) -> bool {
        now - c.last_received_keep_alive > timeout
    }

    /// The peers the timeout sweep retains, in table order.
    pub open spec fn surviving(conns: Seq<Connection>, timeout: u64, now: u64) -> Seq<Connection>
        decreases conns.len(),
    {
        if conns.len() == 0 {
            Seq::empty()
        } else {
            Self::surviving(conns.drop_last(), timeout, now) + (if !Self::stale(
                conns.last(),
                timeout,
                now,
            ) {
                seq![conns.last()]
            } else {
                Seq::empty()
            })
        }
    }

    /// The disconnection events the timeout sweep records, in table order.
    pub open spec fn timeout_events(conns: Seq<Connection>, timeout: u64, now: u64) -> Seq<Event>
        decreases conns.len(),
    {
        if conns.len() == 0 {
            Seq::empty()
        } else {
            Self::timeout_events(conns.drop_last(), timeout, now) + (if Self::stale(
                conns.last(),
                timeout,
                now,
            ) {
                seq![Event::Disconnection(conns.last().addr, DisconnectReason::Timeout)]
            } else {
                Seq::empty()
            })
        }
    }

    /// The timeout sweep: a peer is removed exactly when its last received
    /// traffic is older than the timeout, each removal recorded with one
    /// timeout disconnection event, in table order; nothing else moves.
    pub open spec fn sweep_rel(pre: Client, post: Client, now: u64) -> bool {
        &&& post.instance == pre.instance
        &&& post.config == pre.config
        &&& post.outgoing == pre.outgoing
        &&& post.connections@ == Self::surviving(pre.connections@, pre.config.timeout, now)
        &&& post.events@ == pre.events@ + Self::timeout_events(
            pre.connections@,
            pre.config.timeout,
            now,
        )
    }

    /// Whether a connection owes a heartbeat at time `now`.
    pub open spec fn hb_due(c: Connection, now: u64) -> bool {
        now - c.last_sent_keep_alive > c.heartbeat_interval
    }

    /// The packets one connection's periodic pass sends: a heartbeat when
    /// due, then each channel's acknowledgements and retransmissions.
    pub open spec fn conn_tick_out(c: Connection, instance: u128, now: u64) -> Seq<DatagramV> {
        (if Self::hb_due(c, now) {
            seq![
                DatagramV {
                    addr: c.addr,
                    payload: heartbeat_bytes(instance, (now - c.creation_time) as u128),
                },
            ]
        } else {
            Seq::empty()
        }) + conn_channels_out(c.addr, c@.channels, c.average_ping, now)
    }

    /// The packets the whole periodic pass sends, in table order.
    pub open spec fn tick_out(conns: Seq<Connection>, instance: u128, now: u64) -> Seq<DatagramV>
        decreases conns.len(),
    {
        if conns.len() == 0 {
            Seq::empty()
        } else {
            Self::tick_out(conns.drop_last(), instance, now) + Self::conn_tick_out(
                conns.last(),
                instance,
                now,
            )
        }
    }

    /// The periodic pass: every connection sends its due heartbeat and its
    /// channels' periodic packets, channel state advances by `update_apply`,
    /// and nothing else moves.
    pub open spec fn periodic_rel(pre: Client, post: Client, now: u64) -> bool {
        &&& post.instance == pre.instance
        &&& post.config == pre.config
        &&& post.events == pre.events
        &&& post.connections@.len() == pre.connections@.len()
        &&& (forall|k: int|
            0 <= k < pre.connections@.len() ==> {
                let pc = (#[trigger] pre.connections@[k]);
                let qc = post.connections@[k];
                &&& qc.addr == pc.addr
                &&& qc.other_instance == pc.other_instance
                &&& qc.creation_time == pc.creation_time
                &&& qc.ping_memory == pc.ping_memory
                &&& qc.average_ping == pc.average_ping
                &&& qc.heartbeat_interval == pc.heartbeat_interval
                &&& qc.last_received_keep_alive == pc.last_received_keep_alive
                &&& qc.last_sent_keep_alive == (if Self::hb_due(pc, now) {
                    now
                } else {
                    pc.last_sent_keep_alive
                })
                &&& qc@.channels =~= pc@.channels.map_values(
                    |ch: ChannelV| update_apply(ch, pc.average_ping, now),
                )
            })
        &&& post.outgoing.deep_view() == pre.outgoing.deep_view() + Self::tick_out(
            pre.connections@,
            pre.instance,
            now,
        )
    }

    /// The receive drain: each datagram is handled in arrival order, each by
    /// one successful `datagram_step`.
    pub open spec fn drain_rel(pre: Client, post: Client, msgs: Seq<DatagramV>, now: u64) -> bool
        decreases msgs.len(),
    {
        if msgs.len() == 0 {
            post == pre
        } else {
            exists|mid: Client|
                #[trigger] Self::datagram_step(
                    pre,
                    mid,
                    Ok(()),
                    msgs[0].addr,
                    msgs[0].payload,
                    now,
                ) && Self::drain_rel(mid, post, msgs.drop_first(), now)
        }
    }

    /// Extending a drain by one handled datagram.
    pub proof fn lemma_drain_snoc(pre: Client, mid: Client, post: Client, msgs: Seq<DatagramV>, d: DatagramV, now: u64)
        requires
            Self::drain_rel(pre, mid, msgs, now),
            Self::datagram_step(mid, post, Ok(()), d.addr, d.payload, now),
        ensures
            Self::drain_rel(pre, post, msgs.push(d), now),
        decreases msgs.len(),
    {
        if msgs.len() == 0 {
            assert(msgs.push(d)[0] == d);
            assert(msgs.push(d).drop_first() =~= Seq::<DatagramV>::empty());
            assert(Self::datagram_step(pre, post, Ok(()), d.addr, d.payload, now));
            assert(Self::drain_rel(post, post, msgs.push(d).drop_first(), now));
        } else {
            let m1 = choose|m: Client|
                #[trigger] Self::datagram_step(
                    pre,
                    m,
                    Ok(()),
                    msgs[0].addr,
                    msgs[0].payload,
                    now,
                ) && Self::drain_rel(m, mid, msgs.drop_first(), now);
            Self::lemma_drain_snoc(m1, mid, post, msgs.drop_first(), d, now);
            assert(msgs.push(d)[0] == msgs[0]);
            assert(msgs.push(d).drop_first() =~= msgs.drop_first().push(d));
            assert(Self::datagram_step(
                pre,
                m1,
                Ok(()),
                msgs.push(d)[0].addr,
                msgs.push(d)[0].payload,
                now,
            ));
        }
    }

    /// Everything one received datagram does to the endpoint at time
    /// `now`: the step relation of the receive drain. The forward-error-
    /// correction data path is relational (the decoder is opaque); every
    /// other packet kind is pinned exactly.
    pub open spec fn datagram_step(pre: Client, post: Client, r: Result<(), Error>, origin: PeerAddr, bytes: Seq<u8>, now: u64) -> bool {
        &&& (post.wf())
        &&& (post.le_now(now))
        &&& (post.instance == pre.instance)
        &&& (post.config == pre.config)
        &&& (pre.outgoing.deep_view().is_prefix_of(post.outgoing.deep_view()))
        &&& (pre.events@.is_prefix_of(post.events@))
        &&& (Self::instance_preserved(pre, post, now))
        &&& (r is Err ==> pre.config.max_message_size < 33)
        &&& (parse_packet_spec(bytes) is None ==> post == pre)
        &&& (parse_packet_spec(bytes) matches Some(PacketV::Close) ==> (if pre.has_peer(
                origin,
            ) {
                &&& post.connections@ == pre.connections@.remove(
                    pre.peer_at(origin),
                )
                &&& post.events@ == pre.events@.push(
                    Event::Disconnection(origin, DisconnectReason::Other),
                )
                &&& post.outgoing == pre.outgoing
            } else {
                post == pre
            }))
        &&& ((parse_packet_spec(bytes) matches Some(PacketV::Heartbeat { instance, timestamp })
                && ({
                let pre = pre;
                &&& pre.has_peer(origin)
                &&& pre.connections@[pre.peer_at(origin)].other_instance is Some
                &&& pre.connections@[pre.peer_at(origin)].other_instance != Some(instance)
            }) ==> {
                &&& r is Ok
                &&& post.connections@ =~= pre.connections@.remove(
                    pre.peer_at(origin),
                )
                &&& post.events@ == pre.events@.push(
                    Event::Disconnection(origin, DisconnectReason::OriginChangedInstance),
                )
                &&& post.outgoing == pre.outgoing
            }))
        &&& ((parse_packet_spec(bytes) matches Some(PacketV::Heartbeat { instance, timestamp })
                && ({
                let pre = pre;
                &&& pre.has_peer(origin)
                &&& (pre.connections@[pre.peer_at(origin)].other_instance is None
                    || pre.connections@[pre.peer_at(origin)].other_instance == Some(instance))
                &&& 33 <= pre.config.max_message_size
            }) ==> {
                &&& r is Ok
                &&& post.connections@.len() == pre.connections@.len()
                &&& post.connections@[pre.peer_at(origin)].other_instance == Some(
                    parse_packet_spec(bytes)->Some_0->Heartbeat_instance,
                )
                &&& post.events == pre.events
                &&& post.outgoing.deep_view() == pre.outgoing.deep_view().push(
                    DatagramV {
                        addr: origin,
                        payload: crate::wire::echo_bytes(
                            parse_packet_spec(bytes)->Some_0->Heartbeat_timestamp,
                        ),
                    },
                )
            }))
        &&& ((parse_packet_spec(bytes) matches Some(PacketV::Echo { timestamp }) && pre.has_peer(origin)) ==> {
                &&& r is Ok
                &&& post.events == pre.events
                &&& post.outgoing == pre.outgoing
                &&& post.connections@.len() == pre.connections@.len()
                &&& post.connections@[pre.peer_at(origin)]@ == rtt_apply(
                    ConnectionV {
                        last_received_keep_alive: now,
                        ..pre.connections@[pre.peer_at(origin)]@
                    },
                    parse_packet_spec(bytes)->Some_0->Echo_timestamp,
                    now,
                    pre.config.ping_memory_length,
                )
            })
        &&& ((parse_packet_spec(bytes) matches Some(PacketV::ChannelFrame { channel_id, .. })
                && (channel_id as int) >= pre.config.channels@.len()) ==> post
                == pre)
        &&& ((parse_packet_spec(bytes) matches Some(PacketV::ChannelFrame { channel_id, frame })
                && ({
                let pre = pre;
                &&& pre.has_peer(origin)
                &&& (channel_id as int) < pre.config.channels@.len()
                &&& pre.config.channels@[channel_id as int] is SendReliable
            }) ==> ({
                let pre = pre;
                let i = pre.peer_at(origin);
                let cid = parse_packet_spec(bytes)->Some_0->ChannelFrame_channel_id as int;
                let frame = parse_packet_spec(bytes)->Some_0->ChannelFrame_frame;
                let ch = pre.connections@[i].channels@[cid]@;
                &&& r is Ok
                &&& post.events.deep_view() == pre.events.deep_view()
                &&& post.outgoing.deep_view() == pre.outgoing.deep_view()
                &&& post.connections@.len() == pre.connections@.len()
                &&& post.connections@[i].channels@[cid]@ == (if frame.len() >= 8 {
                    ack_apply(ch, be_val(frame.take(8)) as u64)
                } else {
                    ch
                })
            })))
        &&& ((parse_packet_spec(bytes) matches Some(PacketV::ChannelFrame { channel_id, frame })
                && ({
                let pre = pre;
                &&& pre.has_peer(origin)
                &&& (channel_id as int) < pre.config.channels@.len()
                &&& pre.config.channels@[channel_id as int] is ReceiveReliable
            }) ==> ({
                let pre = pre;
                let i = pre.peer_at(origin);
                let cid = parse_packet_spec(bytes)->Some_0->ChannelFrame_channel_id as int;
                let frame = parse_packet_spec(bytes)->Some_0->ChannelFrame_frame;
                let ch = pre.connections@[i].channels@[cid]@;
                let base = ch->ReceiveReliable_base_seq;
                &&& r is Ok
                &&& post.outgoing.deep_view() == pre.outgoing.deep_view()
                &&& post.connections@.len() == pre.connections@.len()
                &&& (if frame.len() < 8 {
                    post.connections@[i].channels@[cid]@ == ch
                        && post.events.deep_view() == pre.events.deep_view()
                } else {
                    let s = be_val(frame.take(8)) as u64;
                    if s >= base && (s == u64::MAX || s - base >= usize::MAX) {
                        post.events.deep_view() == pre.events.deep_view()
                    } else {
                        &&& post.connections@[i].channels@[cid]@ == reliable_recv_apply(
                            ch,
                            s,
                        )
                        &&& (if ch.delivered(s) {
                            post.events.deep_view() == pre.events.deep_view()
                        } else {
                            post.events.deep_view()
                                == pre.events.deep_view().push(
                                EventV::Message(
                                    origin,
                                    parse_packet_spec(bytes)->Some_0->ChannelFrame_channel_id,
                                    frame.skip(8),
                                ),
                            )
                        })
                    }
                })
            })))
        &&& ((parse_packet_spec(bytes) matches Some(PacketV::ChannelFrame { channel_id, frame })
                && ({
                let pre = pre;
                &&& pre.has_peer(origin)
                &&& (channel_id as int) < pre.config.channels@.len()
                &&& pre.config.channels@[channel_id as int] is ReceiveUnreliable
            }) ==> ({
                &&& r is Ok
                &&& post.outgoing.deep_view() == pre.outgoing.deep_view()
                &&& post.events.deep_view() == pre.events.deep_view().push(
                    EventV::Message(
                        origin,
                        parse_packet_spec(bytes)->Some_0->ChannelFrame_channel_id,
                        parse_packet_spec(bytes)->Some_0->ChannelFrame_frame,
                    ),
                )
            })))
        &&& ((parse_packet_spec(bytes) matches Some(PacketV::ChannelFrame { channel_id, frame })
                && ({
                let pre = pre;
                &&& pre.has_peer(origin)
                &&& (channel_id as int) < pre.config.channels@.len()
                &&& pre.config.channels@[channel_id as int] is SendUnreliable
            }) ==> ({
                &&& r is Ok
                &&& post.outgoing.deep_view() == pre.outgoing.deep_view()
                &&& post.events.deep_view() == pre.events.deep_view()
            })))
        &&& ((parse_packet_spec(bytes) matches Some(PacketV::ChannelFrame { channel_id, frame })
                && ({
                let pre = pre;
                &&& pre.has_peer(origin)
                &&& (channel_id as int) < pre.config.channels@.len()
                &&& pre.config.channels@[channel_id as int] is SendFecReliable
            }) ==> ({
                let pre = pre;
                let i = pre.peer_at(origin);
                let cid = parse_packet_spec(bytes)->Some_0->ChannelFrame_channel_id as int;
                let frame = parse_packet_spec(bytes)->Some_0->ChannelFrame_frame;
                let ch = pre.connections@[i].channels@[cid]@;
                &&& r is Ok
                &&& post.events.deep_view() == pre.events.deep_view()
                &&& post.outgoing.deep_view() == pre.outgoing.deep_view()
                &&& post.connections@.len() == pre.connections@.len()
                &&& post.connections@[i].channels@[cid]@ == (if frame.len() >= 9
                    && frame[0] == 0 {
                    fec_whole_ack_apply(ch, be_val(frame.subrange(1, 9)) as u64)
                } else if frame.len() >= 10 && frame[0] == 1 {
                    fec_symbol_ack_apply(ch, be_val(frame.subrange(1, 9)) as u64, frame[9])
                } else {
                    ch
                })
            })))
        &&& ((parse_packet_spec(bytes) matches Some(p2) && ({
                &&& !(p2 is Close)
                &&& !pre.has_peer(origin)
                &&& !pre.config.listen
                &&& (p2 is ChannelFrame ==> (p2->ChannelFrame_channel_id as int) < pre.config.channels@.len())
            }) ==> {
                &&& r is Ok
                &&& post.connections == pre.connections
                &&& post.events == pre.events
                &&& post.outgoing.deep_view() == pre.outgoing.deep_view().push(
                    DatagramV { addr: origin, payload: close_bytes() },
                )
            }))
        &&& ((parse_packet_spec(bytes) matches Some(p2) && ({
            &&& !(p2 is Close)
            &&& !pre.has_peer(origin)
            &&& pre.config.listen
            &&& (p2 is ChannelFrame ==> (p2->ChannelFrame_channel_id as int)
                < pre.config.channels@.len())
            &&& r is Ok
        }) ==> {
            &&& post.connections@.len() == pre.connections@.len() + 1
            &&& (forall|j: int|
                0 <= j < pre.connections@.len() ==> #[trigger] post.connections@[j]
                    == pre.connections@[j])
            &&& post.connections@[pre.connections@.len() as int].addr == origin
            &&& post.connections@[pre.connections@.len() as int].creation_time == now
            &&& pre.events@.len() < post.events@.len()
            &&& post.events@[pre.events@.len() as int] == Event::Connection(origin)
            &&& pre.outgoing.deep_view().len() < post.outgoing.deep_view().len()
            &&& post.outgoing.deep_view()[pre.outgoing.deep_view().len() as int] == (DatagramV {
                addr: origin,
                payload: heartbeat_bytes(pre.instance, 0),
            })
        }))
    }

    /// The itemized guarantees of one datagram's handling, bundled into
    /// the step relation of the receive drain.
    pub proof fn lemma_datagram_step_intro(pre: Client, post: Client, r: Result<(), Error>, origin: PeerAddr, bytes: Seq<u8>, now: u64)
        requires
            (post.wf()),
            (post.le_now(now)),
            (post.instance == pre.instance),
            (post.config == pre.config),
            (pre.outgoing.deep_view().is_prefix_of(post.outgoing.deep_view())),
            (pre.events@.is_prefix_of(post.events@)),
            (Self::instance_preserved(pre, post, now)),
            (r is Err ==> pre.config.max_message_size < 33),
            (parse_packet_spec(bytes) is None ==> post == pre),
            (parse_packet_spec(bytes) matches Some(PacketV::Close) ==> (if pre.has_peer(
                origin,
            ) {
                &&& post.connections@ == pre.connections@.remove(
                    pre.peer_at(origin),
                )
                &&& post.events@ == pre.events@.push(
                    Event::Disconnection(origin, DisconnectReason::Other),
                )
                &&& post.outgoing == pre.outgoing
            } else {
                post == pre
            })),
            ((parse_packet_spec(bytes) matches Some(PacketV::Heartbeat { instance, timestamp })
                && ({
                let pre = pre;
                &&& pre.has_peer(origin)
                &&& pre.connections@[pre.peer_at(origin)].other_instance is Some
                &&& pre.connections@[pre.peer_at(origin)].other_instance != Some(instance)
            }) ==> {
                &&& r is Ok
                &&& post.connections@ =~= pre.connections@.remove(
                    pre.peer_at(origin),
                )
                &&& post.events@ == pre.events@.push(
                    Event::Disconnection(origin, DisconnectReason::OriginChangedInstance),
                )
                &&& post.outgoing == pre.outgoing
            })),
            ((parse_packet_spec(bytes) matches Some(PacketV::Heartbeat { instance, timestamp })
                && ({
                let pre = pre;
                &&& pre.has_peer(origin)
                &&& (pre.connections@[pre.peer_at(origin)].other_instance is None
                    || pre.connections@[pre.peer_at(origin)].other_instance == Some(instance))
                &&& 33 <= pre.config.max_message_size
            }) ==> {
                &&& r is Ok
                &&& post.connections@.len() == pre.connections@.len()
                &&& post.connections@[pre.peer_at(origin)].other_instance == Some(
                    parse_packet_spec(bytes)->Some_0->Heartbeat_instance,
                )
                &&& post.events == pre.events
                &&& post.outgoing.deep_view() == pre.outgoing.deep_view().push(
                    DatagramV {
                        addr: origin,
                        payload: crate::wire::echo_bytes(
                            parse_packet_spec(bytes)->Some_0->Heartbeat_timestamp,
                        ),
                    },
                )
            })),
            ((parse_packet_spec(bytes) matches Some(PacketV::Echo { timestamp }) && pre.has_peer(origin)) ==> {
                &&& r is Ok
                &&& post.events == pre.events
                &&& post.outgoing == pre.outgoing
                &&& post.connections@.len() == pre.connections@.len()
                &&& post.connections@[pre.peer_at(origin)]@ == rtt_apply(
                    ConnectionV {
                        last_received_keep_alive: now,
                        ..pre.connections@[pre.peer_at(origin)]@
                    },
                    parse_packet_spec(bytes)->Some_0->Echo_timestamp,
                    now,
                    pre.config.ping_memory_length,
                )
            }),
            ((parse_packet_spec(bytes) matches Some(PacketV::ChannelFrame { channel_id, .. })
                && (channel_id as int) >= pre.config.channels@.len()) ==> post
                == pre),
            ((parse_packet_spec(bytes) matches Some(PacketV::ChannelFrame { channel_id, frame })
                && ({
                let pre = pre;
                &&& pre.has_peer(origin)
                &&& (channel_id as int) < pre.config.channels@.len()
                &&& pre.config.channels@[channel_id as int] is SendReliable
            }) ==> ({
                let pre = pre;
                let i = pre.peer_at(origin);
                let cid = parse_packet_spec(bytes)->Some_0->ChannelFrame_channel_id as int;
                let frame = parse_packet_spec(bytes)->Some_0->ChannelFrame_frame;
                let ch = pre.connections@[i].channels@[cid]@;
                &&& r is Ok
                &&& post.events.deep_view() == pre.events.deep_view()
                &&& post.outgoing.deep_view() == pre.outgoing.deep_view()
                &&& post.connections@.len() == pre.connections@.len()
                &&& post.connections@[i].channels@[cid]@ == (if frame.len() >= 8 {
                    ack_apply(ch, be_val(frame.take(8)) as u64)
                } else {
                    ch
                })
            }))),
            ((parse_packet_spec(bytes) matches Some(PacketV::ChannelFrame { channel_id, frame })
                && ({
                let pre = pre;
                &&& pre.has_peer(origin)
                &&& (channel_id as int) < pre.config.channels@.len()
                &&& pre.config.channels@[channel_id as int] is ReceiveReliable
            }) ==> ({
                let pre = pre;
                let i = pre.peer_at(origin);
                let cid = parse_packet_spec(bytes)->Some_0->ChannelFrame_channel_id as int;
                let frame = parse_packet_spec(bytes)->Some_0->ChannelFrame_frame;
                let ch = pre.connections@[i].channels@[cid]@;
                let base = ch->ReceiveReliable_base_seq;
                &&& r is Ok
                &&& post.outgoing.deep_view() == pre.outgoing.deep_view()
                &&& post.connections@.len() == pre.connections@.len()
                &&& (if frame.len() < 8 {
                    post.connections@[i].channels@[cid]@ == ch
                        && post.events.deep_view() == pre.events.deep_view()
                } else {
                    let s = be_val(frame.take(8)) as u64;
                    if s >= base && (s == u64::MAX || s - base >= usize::MAX) {
                        post.events.deep_view() == pre.events.deep_view()
                    } else {
                        &&& post.connections@[i].channels@[cid]@ == reliable_recv_apply(
                            ch,
                            s,
                        )
                        &&& (if ch.delivered(s) {
                            post.events.deep_view() == pre.events.deep_view()
                        } else {
                            post.events.deep_view()
                                == pre.events.deep_view().push(
                                EventV::Message(
                                    origin,
                                    parse_packet_spec(bytes)->Some_0->ChannelFrame_channel_id,
                                    frame.skip(8),
                                ),
                            )
                        })
                    }
                })
            }))),
            ((parse_packet_spec(bytes) matches Some(PacketV::ChannelFrame { channel_id, frame })
                && ({
                let pre = pre;
                &&& pre.has_peer(origin)
                &&& (channel_id as int) < pre.config.channels@.len()
                &&& pre.config.channels@[channel_id as int] is ReceiveUnreliable
            }) ==> ({
                &&& r is Ok
                &&& post.outgoing.deep_view() == pre.outgoing.deep_view()
                &&& post.events.deep_view() == pre.events.deep_view().push(
                    EventV::Message(
                        origin,
                        parse_packet_spec(bytes)->Some_0->ChannelFrame_channel_id,
                        parse_packet_spec(bytes)->Some_0->ChannelFrame_frame,
                    ),
                )
            }))),
            ((parse_packet_spec(bytes) matches Some(PacketV::ChannelFrame { channel_id, frame })
                && ({
                let pre = pre;
                &&& pre.has_peer(origin)
                &&& (channel_id as int) < pre.config.channels@.len()
                &&& pre.config.channels@[channel_id as int] is SendUnreliable
            }) ==> ({
                &&& r is Ok
                &&& post.outgoing.deep_view() == pre.outgoing.deep_view()
                &&& post.events.deep_view() == pre.events.deep_view()
            }))),
            ((parse_packet_spec(bytes) matches Some(PacketV::ChannelFrame { channel_id, frame })
                && ({
                let pre = pre;
                &&& pre.has_peer(origin)
                &&& (channel_id as int) < pre.config.channels@.len()
                &&& pre.config.channels@[channel_id as int] is SendFecReliable
            }) ==> ({
                let pre = pre;
                let i = pre.peer_at(origin);
                let cid = parse_packet_spec(bytes)->Some_0->ChannelFrame_channel_id as int;
                let frame = parse_packet_spec(bytes)->Some_0->ChannelFrame_frame;
                let ch = pre.connections@[i].channels@[cid]@;
                &&& r is Ok
                &&& post.events.deep_view() == pre.events.deep_view()
                &&& post.outgoing.deep_view() == pre.outgoing.deep_view()
                &&& post.connections@.len() == pre.connections@.len()
                &&& post.connections@[i].channels@[cid]@ == (if frame.len() >= 9
                    && frame[0] == 0 {
                    fec_whole_ack_apply(ch, be_val(frame.subrange(1, 9)) as u64)
                } else if frame.len() >= 10 && frame[0] == 1 {
                    fec_symbol_ack_apply(ch, be_val(frame.subrange(1, 9)) as u64, frame[9])
                } else {
                    ch
                })
            }))),
            ((parse_packet_spec(bytes) matches Some(p2) && ({
                &&& !(p2 is Close)
                &&& !pre.has_peer(origin)
                &&& !pre.config.listen
                &&& (p2 is ChannelFrame ==> (p2->ChannelFrame_channel_id as int) < pre.config.channels@.len())
            }) ==> {
                &&& r is Ok
                &&& post.connections == pre.connections
                &&& post.events == pre.events
                &&& post.outgoing.deep_view() == pre.outgoing.deep_view().push(
                    DatagramV { addr: origin, payload: close_bytes() },
                )
            })),
            ((parse_packet_spec(bytes) matches Some(p2) && ({
            &&& !(p2 is Close)
            &&& !pre.has_peer(origin)
            &&& pre.config.listen
            &&& (p2 is ChannelFrame ==> (p2->ChannelFrame_channel_id as int)
                < pre.config.channels@.len())
            &&& r is Ok
        }) ==> {
            &&& post.connections@.len() == pre.connections@.len() + 1
            &&& (forall|j: int|
                0 <= j < pre.connections@.len() ==> #[trigger] post.connections@[j]
                    == pre.connections@[j])
            &&& post.connections@[pre.connections@.len() as int].addr == origin
            &&& post.connections@[pre.connections@.len() as int].creation_time == now
            &&& pre.events@.len() < post.events@.len()
            &&& post.events@[pre.events@.len() as int] == Event::Connection(origin)
            &&& pre.outgoing.deep_view().len() < post.outgoing.deep_view().len()
            &&& post.outgoing.deep_view()[pre.outgoing.deep_view().len() as int] == (DatagramV {
                addr: origin,
                payload: heartbeat_bytes(pre.instance, 0),
            })
        })),
        ensures
            Self::datagram_step(pre, post, r, origin, bytes, now),
    {
    }

    /// Processes one received datagram at time `now`: close notices and
    /// heartbeats adjust the connection table, echoes feed the round-trip
    /// estimate, channel frames go to the addressed channel, and anything
    /// malformed is dropped silently.
    #[verifier::rlimit(100)]
    fn handle_datagram(&mut self, origin: PeerAddr, bytes: &[u8], now: u64) -> (r: Result<
        (),
        Error,
    >)
        requires
            old(self).wf(),
            old(self).le_now(now),
        ensures
            final(self).wf(),
            final(self).le_now(now),
            final(self).instance == old(self).instance,
            final(self).config == old(self).config,
            old(self).outgoing.deep_view().is_prefix_of(final(self).outgoing.deep_view()),
            old(self).events@.is_prefix_of(final(self).events@),
            Self::instance_preserved(*old(self), *final(self), now),
            r is Err ==> old(self).config.max_message_size < 33,
            parse_packet_spec(bytes@) is None ==> *final(self) == *old(self),
            parse_packet_spec(bytes@) matches Some(PacketV::Close) ==> (if old(self).has_peer(
                origin,
            ) {
                &&& final(self).connections@ == old(self).connections@.remove(
                    old(self).peer_at(origin),
                )
                &&& final(self).events@ == old(self).events@.push(
                    Event::Disconnection(origin, DisconnectReason::Other),
                )
                &&& final(self).outgoing == old(self).outgoing
            } else {
                *final(self) == *old(self)
            }),
            (parse_packet_spec(bytes@) matches Some(PacketV::Heartbeat { instance, timestamp })
                && ({
                let pre = *old(self);
                &&& pre.has_peer(origin)
                &&& pre.connections@[pre.peer_at(origin)].other_instance is Some
                &&& pre.connections@[pre.peer_at(origin)].other_instance != Some(instance)
            }) ==> {
                &&& r is Ok
                &&& final(self).connections@ =~= old(self).connections@.remove(
                    old(self).peer_at(origin),
                )
                &&& final(self).events@ == old(self).events@.push(
                    Event::Disconnection(origin, DisconnectReason::OriginChangedInstance),
                )
                &&& final(self).outgoing == old(self).outgoing
            }),
            (parse_packet_spec(bytes@) matches Some(PacketV::Heartbeat { instance, timestamp })
                && ({
                let pre = *old(self);
                &&& pre.has_peer(origin)
                &&& (pre.connections@[pre.peer_at(origin)].other_instance is None
                    || pre.connections@[pre.peer_at(origin)].other_instance == Some(instance))
                &&& 33 <= pre.config.max_message_size
            }) ==> {
                &&& r is Ok
                &&& final(self).connections@.len() == old(self).connections@.len()
                &&& final(self).connections@[old(self).peer_at(origin)].other_instance == Some(
                    parse_packet_spec(bytes@)->Some_0->Heartbeat_instance,
                )
                &&& final(self).events == old(self).events
                &&& final(self).outgoing.deep_view() == old(self).outgoing.deep_view().push(
                    DatagramV {
                        addr: origin,
                        payload: crate::wire::echo_bytes(
                            parse_packet_spec(bytes@)->Some_0->Heartbeat_timestamp,
                        ),
                    },
                )
            }),
            (parse_packet_spec(bytes@) matches Some(PacketV::Echo { timestamp }) && old(
                self,
            ).has_peer(origin)) ==> {
                &&& r is Ok
                &&& final(self).events == old(self).events
                &&& final(self).outgoing == old(self).outgoing
                &&& final(self).connections@.len() == old(self).connections@.len()
                &&& final(self).connections@[old(self).peer_at(origin)]@ == rtt_apply(
                    ConnectionV {
                        last_received_keep_alive: now,
                        ..old(self).connections@[old(self).peer_at(origin)]@
                    },
                    parse_packet_spec(bytes@)->Some_0->Echo_timestamp,
                    now,
                    old(self).config.ping_memory_length,
                )
            },
            (parse_packet_spec(bytes@) matches Some(PacketV::ChannelFrame { channel_id, .. })
                && (channel_id as int) >= old(self).config.channels@.len()) ==> *final(self)
                == *old(self),
            (parse_packet_spec(bytes@) matches Some(PacketV::ChannelFrame { channel_id, frame })
                && ({
                let pre = *old(self);
                &&& pre.has_peer(origin)
                &&& (channel_id as int) < pre.config.channels@.len()
                &&& pre.config.channels@[channel_id as int] is SendReliable
            }) ==> ({
                let pre = *old(self);
                let i = pre.peer_at(origin);
                let cid = parse_packet_spec(bytes@)->Some_0->ChannelFrame_channel_id as int;
                let frame = parse_packet_spec(bytes@)->Some_0->ChannelFrame_frame;
                let ch = pre.connections@[i].channels@[cid]@;
                &&& r is Ok
                &&& final(self).events.deep_view() == old(self).events.deep_view()
                &&& final(self).outgoing.deep_view() == old(self).outgoing.deep_view()
                &&& final(self).connections@.len() == pre.connections@.len()
                &&& final(self).connections@[i].channels@[cid]@ == (if frame.len() >= 8 {
                    ack_apply(ch, be_val(frame.take(8)) as u64)
                } else {
                    ch
                })
            })),
            (parse_packet_spec(bytes@) matches Some(PacketV::ChannelFrame { channel_id, frame })
                && ({
                let pre = *old(self);
                &&& pre.has_peer(origin)
                &&& (channel_id as int) < pre.config.channels@.len()
                &&& pre.config.channels@[channel_id as int] is ReceiveReliable
            }) ==> ({
                let pre = *old(self);
                let i = pre.peer_at(origin);
                let cid = parse_packet_spec(bytes@)->Some_0->ChannelFrame_channel_id as int;
                let frame = parse_packet_spec(bytes@)->Some_0->ChannelFrame_frame;
                let ch = pre.connections@[i].channels@[cid]@;
                let base = ch->ReceiveReliable_base_seq;
                &&& r is Ok
                &&& final(self).outgoing.deep_view() == old(self).outgoing.deep_view()
                &&& final(self).connections@.len() == pre.connections@.len()
                &&& (if frame.len() < 8 {
                    final(self).connections@[i].channels@[cid]@ == ch
                        && final(self).events.deep_view() == old(self).events.deep_view()
                } else {
                    let s = be_val(frame.take(8)) as u64;
                    if s >= base && (s == u64::MAX || s - base >= usize::MAX) {
                        final(self).events.deep_view() == old(self).events.deep_view()
                    } else {
                        &&& final(self).connections@[i].channels@[cid]@ == reliable_recv_apply(
                            ch,
                            s,
                        )
                        &&& (if ch.delivered(s) {
                            final(self).events.deep_view() == old(self).events.deep_view()
                        } else {
                            final(self).events.deep_view()
                                == old(self).events.deep_view().push(
                                EventV::Message(
                                    origin,
                                    parse_packet_spec(bytes@)->Some_0->ChannelFrame_channel_id,
                                    frame.skip(8),
                                ),
                            )
                        })
                    }
                })
            })),
            (parse_packet_spec(bytes@) matches Some(PacketV::ChannelFrame { channel_id, frame })
                && ({
                let pre = *old(self);
                &&& pre.has_peer(origin)
                &&& (channel_id as int) < pre.config.channels@.len()
                &&& pre.config.channels@[channel_id as int] is ReceiveUnreliable
            }) ==> ({
                &&& r is Ok
                &&& final(self).outgoing.deep_view() == old(self).outgoing.deep_view()
                &&& final(self).events.deep_view() == old(self).events.deep_view().push(
                    EventV::Message(
                        origin,
                        parse_packet_spec(bytes@)->Some_0->ChannelFrame_channel_id,
                        parse_packet_spec(bytes@)->Some_0->ChannelFrame_frame,
                    ),
                )
            })),
            (parse_packet_spec(bytes@) matches Some(PacketV::ChannelFrame { channel_id, frame })
                && ({
                let pre = *old(self);
                &&& pre.has_peer(origin)
                &&& (channel_id as int) < pre.config.channels@.len()
                &&& pre.config.channels@[channel_id as int] is SendUnreliable
            }) ==> ({
                &&& r is Ok
                &&& final(self).outgoing.deep_view() == old(self).outgoing.deep_view()
                &&& final(self).events.deep_view() == old(self).events.deep_view()
            })),
            (parse_packet_spec(bytes@) matches Some(PacketV::ChannelFrame { channel_id, frame })
                && ({
                let pre = *old(self);
                &&& pre.has_peer(origin)
                &&& (channel_id as int) < pre.config.channels@.len()
                &&& pre.config.channels@[channel_id as int] is SendFecReliable
            }) ==> ({
                let pre = *old(self);
                let i = pre.peer_at(origin);
                let cid = parse_packet_spec(bytes@)->Some_0->ChannelFrame_channel_id as int;
                let frame = parse_packet_spec(bytes@)->Some_0->ChannelFrame_frame;
                let ch = pre.connections@[i].channels@[cid]@;
                &&& r is Ok
                &&& final(self).events.deep_view() == old(self).events.deep_view()
                &&& final(self).outgoing.deep_view() == old(self).outgoing.deep_view()
                &&& final(self).connections@.len() == pre.connections@.len()
                &&& final(self).connections@[i].channels@[cid]@ == (if frame.len() >= 9
                    && frame[0] == 0 {
                    fec_whole_ack_apply(ch, be_val(frame.subrange(1, 9)) as u64)
                } else if frame.len() >= 10 && frame[0] == 1 {
                    fec_symbol_ack_apply(ch, be_val(frame.subrange(1, 9)) as u64, frame[9])
                } else {
                    ch
                })
            })),
            (parse_packet_spec(bytes@) matches Some(p2) && ({
                &&& !(p2 is Close)
                &&& !old(self).has_peer(origin)
                &&& !old(self).config.listen
                &&& (p2 is ChannelFrame ==> (p2->ChannelFrame_channel_id as int) < old(
                    self,
                ).config.channels@.len())
            }) ==> {
                &&& r is Ok
                &&& final(self).connections == old(self).connections
                &&& final(self).events == old(self).events
                &&& final(self).outgoing.deep_view() == old(self).outgoing.deep_view().push(
                    DatagramV { addr: origin, payload: close_bytes() },
                )
            }),
            ((parse_packet_spec(bytes@) matches Some(p2) && ({
            &&& !(p2 is Close)
            &&& !old(self).has_peer(origin)
            &&& old(self).config.listen
            &&& (p2 is ChannelFrame ==> (p2->ChannelFrame_channel_id as int)
                < old(self).config.channels@.len())
            &&& r is Ok
        }) ==> {
            &&& final(self).connections@.len() == old(self).connections@.len() + 1
            &&& (forall|j: int|
                0 <= j < old(self).connections@.len() ==> #[trigger] final(self).connections@[j]
                    == old(self).connections@[j])
            &&& final(self).connections@[old(self).connections@.len() as int].addr == origin
            &&& final(self).connections@[old(self).connections@.len() as int].creation_time == now
            &&& old(self).events@.len() < final(self).events@.len()
            &&& final(self).events@[old(self).events@.len() as int] == Event::Connection(origin)
            &&& old(self).outgoing.deep_view().len() < final(self).outgoing.deep_view().len()
            &&& final(self).outgoing.deep_view()[old(self).outgoing.deep_view().len() as int] == (DatagramV {
                addr: origin,
                payload: heartbeat_bytes(old(self).instance, 0),
            })
        })),
    {
        proof {
            assert(old(self).outgoing.deep_view().is_prefix_of(
                old(self).outgoing.deep_view(),
            )) by {
                assert(old(self).outgoing.deep_view().take(
                    old(self).outgoing.deep_view().len() as int,
                ) =~= old(self).outgoing.deep_view());
            }
            assert(old(self).events@.is_prefix_of(old(self).events@)) by {
                assert(old(self).events@.take(old(self).events@.len() as int)
                    =~= old(self).events@);
            }
        }
        let max = self.config.max_message_size as usize;
        let cap = self.config.ping_memory_length;
        let packet = match parse_packet(bytes) {
            None => {
                return Ok(());
            },
            Some(p) => p,
        };
        if let Packet::Close = packet {
            match self.find_peer(origin) {
                None => {
                    return Ok(());
                },
                Some(i) => {
                    let _ = self.remove_conn(i);
                    self.events.push(Event::Disconnection(origin, DisconnectReason::Other));
                    proof {
                        assert(old(self).events@.is_prefix_of(self.events@)) by {
                            assert(self.events@.take(old(self).events@.len() as int)
                                =~= old(self).events@);
                        }
                        Self::lemma_instance_preserved_remove(
                            *old(self),
                            *self,
                            i as int,
                            now,
                        );
                    }
                    return Ok(());
                },
            }
        }
        if let Packet::ChannelFrame { channel_id, .. } = &packet {
            if *channel_id as usize >= self.config.channels.len() {
                return Ok(());
            }
        }
        let i = match self.find_peer(origin) {
            Some(i) => i,
            None => {
                if !self.config.listen {
                    let close = build_close();
                    let ghost pre_out = self.outgoing.deep_view();
                    self.outgoing.push(Datagram { addr: origin, payload: close });
                    proof {
                        assert(old(self).outgoing.deep_view().is_prefix_of(
                            self.outgoing.deep_view(),
                        )) by {
                            assert(self.outgoing.deep_view().take(pre_out.len() as int)
                                =~= pre_out);
                        }
                    }
                    return Ok(());
                }
                let conn = match Connection::new(
                    &self.config,
                    origin,
                    self.instance,
                    now,
                    &mut self.outgoing,
                ) {
                    Ok(c) => c,
                    Err(e) => {
                        return Err(e);
                    },
                };
                let ghost gconn = conn;
                let ghost pre_len = self.connections@.len();
                self.connections.push(conn);
                self.events.push(Event::Connection(origin));
                proof {
                    let w = pre_len as int;
                    assert(self.connections@[w] == gconn);
                    assert(gconn.channels@.len() == gconn@.channels.len());
                    assert forall|q: int|
                        0 <= q < gconn.channels@.len() implies channel_matches(
                        (#[trigger] gconn.channels@[q])@,
                        self.config.channels@[q],
                    ) by {
                        assert(gconn@.channels[q] == gconn.channels@[q]@);
                    }
                    assert(self.conn_wf(gconn));
                    assert(gconn@.le_now(now));
                    assert forall|p: int, q: int|
                        #![trigger self.connections@[p], self.connections@[q]]
                        0 <= p < q < self.connections@.len() implies self.connections@[p].addr
                        != self.connections@[q].addr by {
                        if q < w {
                            assert(old(self).connections@[p].addr != old(
                                self,
                            ).connections@[q].addr);
                        } else {
                            assert(!old(self).has_peer(origin));
                            assert(old(self).connections@[p].addr != origin);
                        }
                    }
                    assert(old(self).events@.is_prefix_of(self.events@)) by {
                        assert(self.events@.take(old(self).events@.len() as int)
                            =~= old(self).events@);
                    }
                    assert forall|p: int| 0 <= p < self.connections@.len() implies self.conn_wf(
                        #[trigger] self.connections@[p],
                    ) by {
                        if p < w {
                            assert(self.connections@[p] == old(self).connections@[p]);
                        }
                    }
                    assert(self.wf());
                    assert forall|p: int|
                        0 <= p < self.connections@.len() implies (
                    #[trigger] self.connections@[p])@.le_now(now) by {
                        if p < w {
                            assert(self.connections@[p] == old(self).connections@[p]);
                        }
                    }
                    assert(self.le_now(now));
                }
                self.connections.len() - 1
            },
        };
        proof {
            assert(self.connections@[i as int].addr == origin);
        }
        let ghost before_rx = *self;
        {
            let conn = &mut self.connections[i];
            conn.last_received_keep_alive = now;
        }
        let ghost mid = *self;
        proof {
            assert(before_rx.wf());
            assert(before_rx.le_now(now));
            assert(self.connections@ =~= before_rx.connections@.update(
                i as int,
                self.connections@[i as int],
            ));
            assert forall|p: int| 0 <= p < self.connections@.len() implies self.conn_wf(
                #[trigger] self.connections@[p],
            ) by {
                assert(before_rx.conn_wf(before_rx.connections@[p]));
                if p != i as int {
                    assert(self.connections@[p] == before_rx.connections@[p]);
                } else {
                    let c2 = self.connections@[p];
                    let c1 = before_rx.connections@[p];
                    assert(c2.channels == c1.channels);
                    assert(c2.ping_memory == c1.ping_memory);
                    assert(c2.average_ping == c1.average_ping);
                    assert(c2.heartbeat_interval == c1.heartbeat_interval);
                    assert(c2@.ping_memory == c1@.ping_memory);
                    assert(c2@.average_ping == c1@.average_ping);
                    assert(c2@.ping_wf() == c1@.ping_wf());
                    assert(c2@.channels =~= c1@.channels);
                    assert(c2@.fits(self.config.max_message_size as int) == c1@.fits(
                        self.config.max_message_size as int,
                    ));
                    assert(c2.inv());
                }
            }
            assert(self.wf());
            assert forall|p: int|
                0 <= p < self.connections@.len() implies (
            #[trigger] self.connections@[p])@.le_now(now) by {
                if p != i as int {
                    assert(self.connections@[p] == before_rx.connections@[p]);
                } else {
                    assert(self.connections@[p]@.channels == before_rx.connections@[
                        p
                    ]@.channels);
                    assert(before_rx.connections@[p]@.le_now(now));
                }
            }
            assert(self.le_now(now));
            assert(Self::instance_preserved(*old(self), *self, now)) by {
                if self.connections@.len() == old(self).connections@.len() {
                    Self::lemma_instance_preserved_pointwise(*old(self), *self, now);
                } else {
                    Self::lemma_instance_preserved_push(*old(self), *self, now);
                }
            }
        }
        match packet {
            Packet::Close => Ok(()),
            Packet::Heartbeat { instance, timestamp } => {
                let mismatch = {
                    let conn = &mut self.connections[i];
                    conn.observe_instance(instance)
                };
                proof {
                    assert forall|p: int| 0 <= p < self.connections@.len() implies self.conn_wf(
                        #[trigger] self.connections@[p],
                    ) by {
                        assert(mid.conn_wf(mid.connections@[p]));
                        if p != i as int {
                            assert(self.connections@[p] == mid.connections@[p]);
                        } else {
                            let c2 = self.connections@[p];
                            let c1 = mid.connections@[p];
                            assert(c2.channels == c1.channels);
                            assert(c2.ping_memory == c1.ping_memory);
                            assert(c2.average_ping == c1.average_ping);
                            assert(c2.heartbeat_interval == c1.heartbeat_interval);
                            assert(c2@.ping_wf() == c1@.ping_wf());
                            assert(c2@.channels =~= c1@.channels);
                            assert(c2@.fits(self.config.max_message_size as int) == c1@.fits(
                                self.config.max_message_size as int,
                            ));
                            assert(c2.inv());
                        }
                    }
                    assert(self.wf());
                    assert(self.le_now(now)) by {
                        assert forall|p: int|
                            0 <= p < self.connections@.len() implies (
                        #[trigger] self.connections@[p])@.le_now(now) by {
                            assert(self.connections@[p]@.channels =~= mid.connections@[
                                p
                            ]@.channels);
                            assert(mid.connections@[p]@.le_now(now));
                        }
                    }
                    assert(Self::instance_preserved(mid, *self, now)) by {
                        Self::lemma_instance_preserved_pointwise(mid, *self, now);
                    }
                    Self::lemma_instance_preserved_trans(*old(self), mid, *self, now);
                }
                let ghost mid2 = *self;
                if mismatch {
                    // A contradicting tag closes the connection; the removed
                    // peer gets no echo.
                    let _ = self.remove_conn(i);
                    self.events.push(
                        Event::Disconnection(origin, DisconnectReason::OriginChangedInstance),
                    );
                    proof {
                        assert(old(self).events@.is_prefix_of(self.events@)) by {
                            assert(self.events@.take(old(self).events@.len() as int)
                                =~= old(self).events@);
                        }
                        Self::lemma_instance_preserved_remove(mid2, *self, i as int, now);
                        Self::lemma_instance_preserved_trans(*old(self), mid2, *self, now);
                    }
                    return Ok(());
                }
                let echo = match build_echo(timestamp, max) {
                    Ok(p) => p,
                    Err(e) => {
                        return Err(e);
                    },
                };
                let ghost pre_out = self.outgoing.deep_view();
                let ghost echo_dg = DatagramV {
                    addr: origin,
                    payload: crate::wire::echo_bytes(timestamp),
                };
                self.outgoing.push(Datagram { addr: origin, payload: echo });
                proof {
                    assert(self.outgoing.deep_view() =~~= pre_out.push(echo_dg));
                    assert(old(self).outgoing.deep_view().is_prefix_of(
                        self.outgoing.deep_view(),
                    )) by {
                        assert(old(self).outgoing.deep_view().is_prefix_of(pre_out));
                        assert(self.outgoing.deep_view().take(pre_out.len() as int)
                            =~= pre_out);
                        assert(self.outgoing.deep_view().take(
                            old(self).outgoing.deep_view().len() as int,
                        ) =~= old(self).outgoing.deep_view());
                    }
                    assert forall|j: int|
                        0 <= j < old(self).outgoing.deep_view().len() implies #[trigger] self.outgoing.deep_view()[j] == old(self).outgoing.deep_view()[j] by {
                        assert(old(self).outgoing.deep_view()
                            =~= self.outgoing.deep_view().subrange(
                            0,
                            old(self).outgoing.deep_view().len() as int,
                        ));
                    }

                    assert((!old(self).has_peer(origin) && old(self).config.listen) ==> {
                        &&& old(self).outgoing.deep_view().len()
                            < self.outgoing.deep_view().len()
                        &&& self.outgoing.deep_view()[old(self).outgoing.deep_view().len() as int]
                            == (DatagramV {
                            addr: origin,
                            payload: heartbeat_bytes(old(self).instance, 0),
                        })
                    });
                }
                Ok(())
            },
            Packet::Echo { timestamp } => {
                let conn = &mut self.connections[i];
                conn.record_rtt(timestamp, now, cap);
                proof {
                    assert forall|p: int| 0 <= p < self.connections@.len() implies self.conn_wf(
                        #[trigger] self.connections@[p],
                    ) by {
                        assert(mid.conn_wf(mid.connections@[p]));
                        if p != i as int {
                            assert(self.connections@[p] == mid.connections@[p]);
                        } else {
                            let c2 = self.connections@[p];
                            let c1 = mid.connections@[p];
                            assert(c2.channels == c1.channels);
                            assert(c2.heartbeat_interval == c1.heartbeat_interval);
                            assert(c2@.channels =~= c1@.channels);
                            assert(c2@.fits(self.config.max_message_size as int) == c1@.fits(
                                self.config.max_message_size as int,
                            ));
                            assert(c2.ping_memory@.len() <= cap);
                            assert(c2.inv());
                        }
                    }
                    assert(self.wf());
                    assert(self.le_now(now)) by {
                        assert forall|p: int|
                            0 <= p < self.connections@.len() implies (
                        #[trigger] self.connections@[p])@.le_now(now) by {
                            if p != i as int {
                                assert(self.connections@[p] == mid.connections@[p]);
                            }
                        }
                    }
                    assert(Self::instance_preserved(mid, *self, now)) by {
                        Self::lemma_instance_preserved_pointwise(mid, *self, now);
                    }
                    Self::lemma_instance_preserved_trans(*old(self), mid, *self, now);

                    assert forall|j: int|
                        0 <= j < old(self).outgoing.deep_view().len() implies #[trigger] self.outgoing.deep_view()[j] == old(self).outgoing.deep_view()[j] by {
                        assert(old(self).outgoing.deep_view()
                            =~= self.outgoing.deep_view().subrange(
                            0,
                            old(self).outgoing.deep_view().len() as int,
                        ));
                    }

                    assert((!old(self).has_peer(origin) && old(self).config.listen) ==> {
                        &&& old(self).outgoing.deep_view().len()
                            < self.outgoing.deep_view().len()
                        &&& self.outgoing.deep_view()[old(self).outgoing.deep_view().len() as int]
                            == (DatagramV {
                            addr: origin,
                            payload: heartbeat_bytes(old(self).instance, 0),
                        })
                    });
                }
                Ok(())
            },
            Packet::ChannelFrame { channel_id, frame } => {
                let cid = channel_id as usize;
                proof {
                    assert(mid.conn_wf(mid.connections@[i as int]));
                    assert(mid.connections@[i as int].channels@[cid as int].inv());
                }
                let conn = &mut self.connections[i];
                let ch = &mut conn.channels[cid];
                let res = ch.receive(frame.as_slice(), max, &mut self.outgoing);
                proof {
                    let pre_conn = mid.connections@[i as int];
                    assert(self.connections@ =~= mid.connections@.update(
                        i as int,
                        self.connections@[i as int],
                    ));
                    assert(self.connections@[i as int].channels@
                        =~= pre_conn.channels@.update(
                        cid as int,
                        self.connections@[i as int].channels@[cid as int],
                    ));
                    let nc = self.connections@[i as int];
                    let max2 = self.config.max_message_size as int;
                    let cid2 = cid as int;
                    assert(pre_conn@.fits(max2));
                    assert(pre_conn@.le_now(now));
                    assert forall|q: int|
                        0 <= q < nc@.channels.len() implies (#[trigger] nc@.channels[q]).fits(
                        max2,
                    ) && nc@.channels[q].le_now(now) by {
                        assert(nc@.channels[q] == nc.channels@[q]@);
                        assert(pre_conn@.channels[q] == pre_conn.channels@[q]@);
                        assert(pre_conn@.channels[q].fits(max2));
                        assert(pre_conn@.channels[q].le_now(now));
                        if q != cid2 {
                            assert(nc.channels@[q] == pre_conn.channels@[q]);
                        }
                    }
                    assert(nc@.fits(max2));
                    assert(nc@.le_now(now));
                    assert forall|p: int| 0 <= p < self.connections@.len() implies self.conn_wf(
                        #[trigger] self.connections@[p],
                    ) by {
                        if p != i as int {
                            assert(self.connections@[p] == mid.connections@[p]);
                        } else {
                            assert(nc@.ping_wf() == pre_conn@.ping_wf());
                            assert(forall|q: int|
                                0 <= q < nc.channels@.len() ==> (#[trigger] nc.channels@[q])
                                    == pre_conn.channels@[q] || q == cid as int);
                            assert(forall|q: int|
                                0 <= q < nc.channels@.len() ==> channel_matches(
                                    (#[trigger] nc.channels@[q])@,
                                    self.config.channels@[q],
                                ));
                        }
                    }
                    assert(self.wf());
                    assert(self.le_now(now)) by {
                        assert forall|p: int|
                            0 <= p < self.connections@.len() implies (
                        #[trigger] self.connections@[p])@.le_now(now) by {
                            if p != i as int {
                                assert(self.connections@[p] == mid.connections@[p]);
                            }
                        }
                    }
                    assert(Self::instance_preserved(mid, *self, now)) by {
                        Self::lemma_instance_preserved_pointwise(mid, *self, now);
                    }
                    Self::lemma_instance_preserved_trans(*old(self), mid, *self, now);
                }
                let ghost old_conns_snapshot = self.connections;
                let ghost old_out_snapshot = self.outgoing;
                let mut msgs = match res {
                    Ok(m) => m,
                    Err(e) => {
                        return Err(e);
                    },
                };
                let ghost ev0 = self.events@;
                let ghost evd0 = self.events.deep_view();
                let ghost msgs0 = msgs.deep_view();
                let mut consumed: usize = 0;
                while msgs.len() > 0
                    invariant
                        self.wf(),
                        self.le_now(now),
                        self.instance == old(self).instance,
                        self.config == old(self).config,
                        old(self).outgoing.deep_view().is_prefix_of(self.outgoing.deep_view()),
                        ev0.is_prefix_of(self.events@),
                        old(self).events@.is_prefix_of(ev0),
                        Self::instance_preserved(*old(self), *self, now),
                        (channel_id as int) < self.config.channels@.len(),
                        consumed + msgs.deep_view().len() == msgs0.len(),
                        msgs0.len() <= usize::MAX,
                        msgs.deep_view() =~= msgs0.skip(consumed as int),
                        self.events.deep_view() =~= evd0 + msgs0.take(consumed as int).map_values(
                            |m: Seq<u8>| EventV::Message(origin, channel_id, m),
                        ),
                        self.connections == old_conns_snapshot,
                        self.outgoing == old_out_snapshot,
                    decreases msgs@.len(),
                {
                    proof {
                        assert(msgs.deep_view().len() == msgs@.len());
                        assert(consumed < msgs0.len());
                    }
                    let ghost pre_deep = msgs.deep_view();
                    let m = msgs.remove(0);
                    proof {
                        assert(m@ == pre_deep[0]);
                        assert(pre_deep[0] == msgs0[consumed as int]);
                        assert(msgs.deep_view() =~~= pre_deep.drop_first());
                    }
                    let ghost pre_evd = self.events.deep_view();
                    self.events.push(Event::Message(origin, channel_id, m));
                    consumed = consumed + 1;
                    proof {
                        assert(ev0.is_prefix_of(self.events@)) by {
                            assert(self.events@.take(ev0.len() as int) =~= ev0);
                        }
                        assert(self.events.deep_view() =~~= pre_evd.push(
                            EventV::Message(origin, channel_id, msgs0[consumed - 1]),
                        ));
                        assert(msgs0.take(consumed as int) =~= msgs0.take(consumed - 1).push(
                            msgs0[consumed - 1],
                        ));
                        assert(self.events.deep_view() =~~= evd0 + msgs0.take(
                            consumed as int,
                        ).map_values(|m2: Seq<u8>| EventV::Message(origin, channel_id, m2)));
                        assert(msgs.deep_view() =~~= msgs0.skip(consumed as int));
                    }
                }
                proof {
                    assert(old(self).events@.is_prefix_of(self.events@)) by {
                        assert(self.events@.take(old(self).events@.len() as int)
                            =~= old(self).events@);
                    }
                    assert(msgs0.take(consumed as int) =~= msgs0);
                    assert forall|j: int| 0 <= j < ev0.len() implies #[trigger] self.events@[j]
                        == ev0[j] by {
                        assert(ev0 =~= self.events@.subrange(0, ev0.len() as int));
                    }
                    assert forall|j: int|
                        0 <= j < old(self).outgoing.deep_view().len() implies #[trigger] self.outgoing.deep_view()[j] == old(self).outgoing.deep_view()[j] by {
                        assert(old(self).outgoing.deep_view()
                            =~= self.outgoing.deep_view().subrange(
                            0,
                            old(self).outgoing.deep_view().len() as int,
                        ));
                    }

                    assert((!old(self).has_peer(origin) && old(self).config.listen) ==> {
                        &&& old(self).outgoing.deep_view().len()
                            < self.outgoing.deep_view().len()
                        &&& self.outgoing.deep_view()[old(self).outgoing.deep_view().len() as int]
                            == (DatagramV {
                            addr: origin,
                            payload: heartbeat_bytes(old(self).instance, 0),
                        })
                    });
                }
                Ok(())
            },
        }
    }

    /// One pass of the endpoint at time `now`: every datagram in `incoming`
    /// is handled, peers silent for longer than the configured timeout are
    /// dropped, heartbeats and retransmissions are queued for transmission,
    /// and the events the endpoint has accumulated are handed back in
    /// arrival order. The caller sends what `take_outgoing` returns.
    #[verifier::rlimit(100)]
    pub fn update(&mut self, now: u64, incoming: Vec<Datagram>) -> (r: Result<Vec<Event>, Error>)
        requires
            old(self).wf(),
            old(self).le_now(now),
        ensures
            final(self).wf(),
            final(self).le_now(now),
            final(self).instance == old(self).instance,
            final(self).config == old(self).config,
            old(self).outgoing.deep_view().is_prefix_of(final(self).outgoing.deep_view()),
            Self::instance_preserved(*old(self), *final(self), now),
            r matches Ok(evs) ==> {
                &&& final(self).events@ == Seq::<Event>::empty()
                &&& evs@.len() >= old(self).events@.len()
                &&& evs@.take(old(self).events@.len() as int) == old(self).events@
                &&& (forall|k: int|
                    0 <= k < evs@.len() ==> event_ch_wf(
                        (#[trigger] evs@[k])@,
                        old(self).config.channels@.len() as int,
                    ))
                &&& (forall|k: int|
                    0 <= k < final(self).connections@.len() ==> now
                        <= (#[trigger] final(self).connections@[k]).last_received_keep_alive
                        + old(self).config.timeout)
                &&& (33 <= old(self).config.max_message_size ==> forall|k: int|
                    0 <= k < final(self).connections@.len() ==> now
                        <= (#[trigger] final(self).connections@[k]).last_sent_keep_alive + old(
                        self,
                    ).config.heartbeat_interval)
            },
            r matches Ok(evs) ==> exists|mid1: Client, mid2: Client, mid3: Client|
                {
                    &&& #[trigger] Self::drain_rel(
                        *old(self),
                        mid1,
                        incoming.deep_view(),
                        now,
                    )
                    &&& #[trigger] Self::sweep_rel(mid1, mid2, now)
                    &&& #[trigger] Self::periodic_rel(mid2, mid3, now)
                    &&& evs == mid3.events
                    &&& final(self).connections == mid3.connections
                    &&& final(self).outgoing == mid3.outgoing
                },
            r is Err ==> old(self).config.max_message_size < 33,
    {
        proof {
            assert(old(self).outgoing.deep_view().is_prefix_of(
                old(self).outgoing.deep_view(),
            )) by {
                assert(old(self).outgoing.deep_view().take(
                    old(self).outgoing.deep_view().len() as int,
                ) =~= old(self).outgoing.deep_view());
            }
            assert(old(self).events@.is_prefix_of(old(self).events@)) by {
                assert(old(self).events@.take(old(self).events@.len() as int)
                    =~= old(self).events@);
            }
        }
        // Drain the received datagrams.
        proof {
            assert(incoming.deep_view().take(0) =~= Seq::<DatagramV>::empty());
        }
        let n_in = incoming.len();
        let mut di: usize = 0;
        while di < n_in
            invariant
                self.wf(),
                self.le_now(now),
                self.instance == old(self).instance,
                self.config == old(self).config,
                old(self).outgoing.deep_view().is_prefix_of(self.outgoing.deep_view()),
                old(self).events@.is_prefix_of(self.events@),
                Self::instance_preserved(*old(self), *self, now),
                di <= n_in == incoming@.len(),
                Self::drain_rel(*old(self), *self, incoming.deep_view().take(di as int), now),
            decreases n_in - di,
        {
            let ghost prev = *self;
            let d = &incoming[di];
            let res = self.handle_datagram(d.addr, d.payload.as_slice(), now);
            proof {
                Self::lemma_instance_preserved_trans(*old(self), prev, *self, now);
                lemma_prefix_trans(
                    old(self).outgoing.deep_view(),
                    prev.outgoing.deep_view(),
                    self.outgoing.deep_view(),
                );
                lemma_prefix_trans(old(self).events@, prev.events@, self.events@);
            }
            match res {
                Ok(()) => {},
                Err(e) => {
                    return Err(e);
                },
            }
            proof {
                let dv = incoming.deep_view()[di as int];
                assert(dv == incoming@[di as int]@);
                assert(dv.addr == d.addr && dv.payload == d.payload@);
                Self::lemma_datagram_step_intro(
                    prev,
                    *self,
                    Ok(()),
                    d.addr,
                    d.payload@,
                    now,
                );
                assert(Self::datagram_step(prev, *self, Ok(()), dv.addr, dv.payload, now));
                assert(incoming.deep_view().take(di + 1) =~= incoming.deep_view().take(
                    di as int,
                ).push(dv));
                Self::lemma_drain_snoc(
                    *old(self),
                    prev,
                    *self,
                    incoming.deep_view().take(di as int),
                    dv,
                    now,
                );
            }
            di = di + 1;
        }
        proof {
            assert(incoming.deep_view().take(n_in as int) =~= incoming.deep_view());
        }
        let ghost mid1 = *self;
        // Expire peers that have been silent for too long.
        let timeout = self.config.timeout;
        let ghost cs1 = mid1.connections@;
        let ghost mut processed: int = 0;
        proof {
            assert(cs1.take(0) =~= Seq::<Connection>::empty());
            assert(self.connections@ =~= Self::surviving(cs1.take(0), timeout, now) + cs1.skip(
                0,
            ));
            assert(self.events@ =~= mid1.events@ + Self::timeout_events(
                cs1.take(0),
                timeout,
                now,
            ));
        }
        let mut i: usize = 0;
        while i < self.connections.len()
            invariant
                self.wf(),
                self.le_now(now),
                self.instance == old(self).instance,
                self.config == old(self).config,
                old(self).outgoing.deep_view().is_prefix_of(self.outgoing.deep_view()),
                old(self).events@.is_prefix_of(self.events@),
                Self::instance_preserved(*old(self), *self, now),
                timeout == self.config.timeout,
                i <= self.connections@.len(),
                forall|k: int|
                    0 <= k < i ==> now <= (#[trigger] self.connections@[
                        k
                    ]).last_received_keep_alive + timeout,
                mid1.config == self.config,
                mid1.instance == self.instance,
                self.outgoing == mid1.outgoing,
                0 <= processed <= cs1.len(),
                i as int == Self::surviving(cs1.take(processed), timeout, now).len(),
                self.connections@ =~= Self::surviving(cs1.take(processed), timeout, now)
                    + cs1.skip(processed),
                self.events@ =~= mid1.events@ + Self::timeout_events(
                    cs1.take(processed),
                    timeout,
                    now,
                ),
            decreases self.connections@.len() - i,
        {
            proof {
                assert(self.connections@[i as int]@.le_now(now));
                assert(cs1.skip(processed).len() > 0);
                assert(processed < cs1.len());
                assert(self.connections@[i as int] == cs1.skip(processed)[0]);
                assert(cs1.skip(processed)[0] == cs1[processed]);
                assert(cs1.take(processed + 1).drop_last() =~= cs1.take(processed));
                assert(cs1.take(processed + 1).last() == cs1[processed]);
                assert(cs1.skip(processed).drop_first() =~= cs1.skip(processed + 1));
            }
            let expired = now - self.connections[i].last_received_keep_alive > timeout;
            if expired {
                let ghost prev = *self;
                let c = self.remove_conn(i);
                self.events.push(Event::Disconnection(c.addr, DisconnectReason::Timeout));
                proof {
                    assert(prev.events@.is_prefix_of(self.events@)) by {
                        assert(self.events@.take(prev.events@.len() as int) =~= prev.events@);
                    }
                    lemma_prefix_trans(old(self).events@, prev.events@, self.events@);
                    Self::lemma_instance_preserved_remove(prev, *self, i as int, now);
                    Self::lemma_instance_preserved_trans(*old(self), prev, *self, now);
                    processed = processed + 1;
                    assert(Self::stale(cs1[processed - 1], timeout, now));
                    assert(Self::surviving(cs1.take(processed), timeout, now)
                        =~= Self::surviving(cs1.take(processed - 1), timeout, now));
                    assert(Self::timeout_events(cs1.take(processed), timeout, now)
                        =~= Self::timeout_events(cs1.take(processed - 1), timeout, now).push(
                        Event::Disconnection(cs1[processed - 1].addr, DisconnectReason::Timeout),
                    ));
                    assert(self.connections@ =~= Self::surviving(
                        cs1.take(processed),
                        timeout,
                        now,
                    ) + cs1.skip(processed));
                    assert(self.events@ =~= mid1.events@ + Self::timeout_events(
                        cs1.take(processed),
                        timeout,
                        now,
                    ));
                }
            } else {
                proof {
                    processed = processed + 1;
                    assert(!Self::stale(cs1[processed - 1], timeout, now));
                    assert(Self::surviving(cs1.take(processed), timeout, now)
                        =~= Self::surviving(cs1.take(processed - 1), timeout, now).push(
                        cs1[processed - 1],
                    ));
                    assert(Self::timeout_events(cs1.take(processed), timeout, now)
                        =~= Self::timeout_events(cs1.take(processed - 1), timeout, now));
                    assert(self.connections@ =~= Self::surviving(
                        cs1.take(processed),
                        timeout,
                        now,
                    ) + cs1.skip(processed));
                }
                i = i + 1;
            }
        }
        proof {
            assert(cs1.skip(processed).len() == 0);
            assert(processed == cs1.len());
            assert(cs1.take(processed) =~= cs1);
            assert(self.connections@ =~= Self::surviving(cs1, timeout, now));
            assert(Self::sweep_rel(mid1, *self, now));
        }
        let ghost mid2 = *self;
        // Heartbeats and retransmissions.
        let ghost cs2 = mid2.connections@;
        proof {
            assert(cs2.take(0) =~= Seq::<Connection>::empty());
            assert(self.outgoing.deep_view() =~= mid2.outgoing.deep_view() + Self::tick_out(
                cs2.take(0),
                mid2.instance,
                now,
            ));
        }
        let max = self.config.max_message_size as usize;
        let inst = self.instance;
        let n_c = self.connections.len();
        let mut j: usize = 0;
        while j < n_c
            invariant
                self.wf(),
                self.le_now(now),
                self.instance == old(self).instance,
                self.config == old(self).config,
                inst == self.instance,
                max == self.config.max_message_size,
                old(self).outgoing.deep_view().is_prefix_of(self.outgoing.deep_view()),
                old(self).events@.is_prefix_of(self.events@),
                Self::instance_preserved(*old(self), *self, now),
                timeout == self.config.timeout,
                j <= n_c == self.connections@.len(),
                forall|k: int|
                    0 <= k < self.connections@.len() ==> now <= (#[trigger] self.connections@[
                        k
                    ]).last_received_keep_alive + timeout,
                33 <= max ==> forall|k: int|
                    0 <= k < j ==> now <= (#[trigger] self.connections@[
                        k
                    ]).last_sent_keep_alive + self.config.heartbeat_interval,
                mid2.instance == self.instance,
                n_c == cs2.len(),
                self.events == mid2.events,
                forall|k: int| j <= k < n_c ==> #[trigger] self.connections@[k] == cs2[k],
                forall|k: int|
                    0 <= k < j ==> {
                        let pc = (#[trigger] cs2[k]);
                        let qc = self.connections@[k];
                        &&& qc.addr == pc.addr
                        &&& qc.other_instance == pc.other_instance
                        &&& qc.creation_time == pc.creation_time
                        &&& qc.ping_memory == pc.ping_memory
                        &&& qc.average_ping == pc.average_ping
                        &&& qc.heartbeat_interval == pc.heartbeat_interval
                        &&& qc.last_received_keep_alive == pc.last_received_keep_alive
                        &&& qc.last_sent_keep_alive == (if Self::hb_due(pc, now) {
                            now
                        } else {
                            pc.last_sent_keep_alive
                        })
                        &&& qc@.channels =~= pc@.channels.map_values(
                            |ch: ChannelV| update_apply(ch, pc.average_ping, now),
                        )
                    },
                self.outgoing.deep_view() =~= mid2.outgoing.deep_view() + Self::tick_out(
                    cs2.take(j as int),
                    mid2.instance,
                    now,
                ),
            decreases n_c - j,
        {
            proof {
                assert(cs2.take(j + 1).drop_last() =~= cs2.take(j as int));
                assert(cs2.take(j + 1).last() == cs2[j as int]);
            }
            let ghost prev = *self;
            let conn = &mut self.connections[j];
            let res = conn.update(inst, now, max, &mut self.outgoing);
            proof {
                let j2 = j as int;
                assert(self.connections@ =~= prev.connections@.update(
                    j2,
                    self.connections@[j2],
                ));
                let nc = self.connections@[j2];
                let pc = prev.connections@[j2];
                assert(prev.conn_wf(pc));
                assert forall|p: int| 0 <= p < self.connections@.len() implies self.conn_wf(
                    #[trigger] self.connections@[p],
                ) by {
                    if p != j2 {
                        assert(self.connections@[p] == prev.connections@[p]);
                    } else {
                        assert(nc@.ping_wf() == pc@.ping_wf());
                        assert forall|q: int|
                            0 <= q < nc.channels@.len() implies channel_matches(
                            (#[trigger] nc.channels@[q])@,
                            self.config.channels@[q],
                        ) by {
                            assert(channel_matches(pc.channels@[q]@, self.config.channels@[q]));
                            assert(same_kind(pc.channels@[q]@, nc.channels@[q]@));
                        }
                    }
                }
                assert(self.wf());
                assert forall|p: int|
                    0 <= p < self.connections@.len() implies (
                #[trigger] self.connections@[p])@.le_now(now) by {
                    if p != j2 {
                        assert(self.connections@[p] == prev.connections@[p]);
                    }
                }
                assert(self.le_now(now));
                Self::lemma_instance_preserved_pointwise(prev, *self, now);
                Self::lemma_instance_preserved_trans(*old(self), prev, *self, now);
                lemma_prefix_trans(
                    old(self).outgoing.deep_view(),
                    prev.outgoing.deep_view(),
                    self.outgoing.deep_view(),
                );
                if 33 <= max {
                    assert(nc.heartbeat_interval == self.config.heartbeat_interval);
                    assert(now <= nc.last_sent_keep_alive + self.config.heartbeat_interval);
                }
            }
            match res {
                Ok(()) => {},
                Err(e) => {
                    return Err(e);
                },
            }
            proof {
                let j2 = j as int;
                let pc = cs2[j2];
                assert(prev.connections@[j2] == pc);
                assert(self.connections@[j2]@.channels =~= pc@.channels.map_values(
                    |ch: ChannelV| update_apply(ch, pc.average_ping, now),
                ));
                assert(self.outgoing.deep_view() =~~= mid2.outgoing.deep_view()
                    + Self::tick_out(cs2.take(j2 + 1), mid2.instance, now)) by {
                    assert(Self::tick_out(cs2.take(j2 + 1), mid2.instance, now)
                        =~= Self::tick_out(cs2.take(j2), mid2.instance, now)
                        + Self::conn_tick_out(pc, mid2.instance, now));
                    assert(prev.outgoing.deep_view() =~= mid2.outgoing.deep_view()
                        + Self::tick_out(cs2.take(j2), mid2.instance, now));
                }
            }
            j = j + 1;
        }
        proof {
            assert(cs2.take(n_c as int) =~= cs2);
            assert(Self::periodic_rel(mid2, *self, now));
        }
        let ghost mid3 = *self;
        // Hand the accumulated events back.
        let mut evs: Vec<Event> = Vec::new();
        core::mem::swap(&mut evs, &mut self.events);
        proof {
            assert(evs@.take(old(self).events@.len() as int) =~= old(self).events@);
            assert(Self::drain_rel(*old(self), mid1, incoming.deep_view(), now));
            assert(Self::sweep_rel(mid1, mid2, now));
            assert(Self::periodic_rel(mid2, mid3, now));
            assert(evs == mid3.events);
            assert(self.connections == mid3.connections);
            assert(self.outgoing == mid3.outgoing);
        }
        Ok(evs)
    }

    /// Hands the caller everything queued for transmission and empties the
    /// queue. The caller sends each datagram to its address.
    pub fn take_outgoing(&mut self) -> (r: Vec<Datagram>)
        ensures
            r == old(self).outgoing,
            final(self).outgoing@ == Seq::<Datagram>::empty(),
            final(self).instance == old(self).instance,
            final(self).connections == old(self).connections,
            final(self).config == old(self).config,
            final(self).events == old(self).events,
    {
        let mut r: Vec<Datagram> = Vec::new();
        core::mem::swap(&mut r, &mut self.outgoing);
        r
    }
}

} // verus!
