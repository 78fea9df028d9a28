//! Per-peer state: liveness deadlines, the round-trip estimate and the
//! owned channel vector.

use vstd::prelude::*;

use crate::channel::{same_kind, update_apply, update_out, Channel, ChannelV};
use crate::config::{ChannelConfig, ClientConfig};
use crate::wire::{build_heartbeat, heartbeat_bytes};
use crate::{Datagram, DatagramV, Error, PeerAddr};

verus! {

/// The state kept for one peer.
pub struct Connection {
    pub addr: PeerAddr,
    pub other_instance: Option<u128>,
    pub creation_time: u64,
    pub ping_memory: Vec<u64>,
    pub average_ping: Option<u64>,
    pub heartbeat_interval: u64,
    pub last_received_keep_alive: u64,
    pub last_sent_keep_alive: u64,
    pub channels: Vec<Channel>,
}

/// Ghost image of a [`Connection`].
pub ghost struct ConnectionV {
    pub addr: PeerAddr,
    pub other_instance: Option<u128>,
    pub creation_time: u64,
    pub ping_memory: Seq<u64>,
    pub average_ping: Option<u64>,
    pub heartbeat_interval: u64,
    pub last_received_keep_alive: u64,
    pub last_sent_keep_alive: u64,
    pub channels: Seq<ChannelV>,
}

impl View for Connection {
    type V = ConnectionV;

    open spec fn view(&self) -> ConnectionV {
        ConnectionV {
            addr: self.addr,
            other_instance: self.other_instance,
            creation_time: self.creation_time,
            ping_memory: self.ping_memory@,
            average_ping: self.average_ping,
            heartbeat_interval: self.heartbeat_interval,
            last_received_keep_alive: self.last_received_keep_alive,
            last_sent_keep_alive: self.last_sent_keep_alive,
            channels: self.channels@.map_values(|c: Channel| c@),
        }
    }
}

/// The sum of a sequence of round-trip samples.
pub open spec fn sum_seq(s: Seq<u64>) -> int
    decreases s.len(),
{
    if s.len() == 0 {
        0
    } else {
        sum_seq(s.drop_last()) + s.last()
    }
}

/// The integer mean of a non-empty sequence of samples.
pub open spec fn mean(s: Seq<u64>) -> int {
    sum_seq(s) / s.len() as int
}

pub proof fn lemma_sum_seq_bound(s: Seq<u64>)
    ensures
        0 <= sum_seq(s) <= s.len() * u64::MAX,
    decreases s.len(),
{
    if s.len() > 0 {
        lemma_sum_seq_bound(s.drop_last());
        assert((s.len() - 1) * u64::MAX + u64::MAX == s.len() * u64::MAX) by (nonlinear_arith);
    }
}

/// Whether a channel's state is the one its configuration prescribes,
/// parameter for parameter.
pub open spec fn channel_matches(v: ChannelV, c: ChannelConfig) -> bool {
    match c {
        ChannelConfig::SendUnreliable => v is SendUnreliable,
        ChannelConfig::ReceiveUnreliable => v is ReceiveUnreliable,
        ChannelConfig::SendReliable { resend_threshold_permille } => v matches
            ChannelV::SendReliable { threshold_permille, .. } && threshold_permille
            == resend_threshold_permille,
        ChannelConfig::ReceiveReliable => v is ReceiveReliable,
        ChannelConfig::SendFecReliable {
            resend_threshold_permille,
            max_data_symbols: d,
            max_repair_symbols: r,
        } => v matches ChannelV::SendFecReliable {
            threshold_permille,
            max_data_symbols,
            max_repair_symbols,
            ..
        } && threshold_permille == resend_threshold_permille && max_data_symbols == d
            && max_repair_symbols == r,
        ChannelConfig::ReceiveFecReliable => v is ReceiveFecReliable,
    }
}

impl ConnectionV {
    /// Every instant this connection remembers lies at or before `now`.
    pub open spec fn le_now(self, now: u64) -> bool {
        &&& self.creation_time <= now
        &&& self.last_received_keep_alive <= now
        &&& self.last_sent_keep_alive <= now
        &&& forall|i: int| 0 <= i < self.channels.len() ==> (#[trigger] self.channels[i]).le_now(
            now,
        )
    }

    /// Every packet this connection's channels may retransmit fits `max`.
    pub open spec fn fits(self, max: int) -> bool {
        forall|i: int| 0 <= i < self.channels.len() ==> (#[trigger] self.channels[i]).fits(max)
    }

    /// The round-trip buffer invariant: the average is defined exactly when
    /// a sample exists and is then the integer mean of the buffer.
    pub open spec fn ping_wf(self) -> bool {
        &&& (self.average_ping is Some <==> self.ping_memory.len() > 0)
        &&& (self.average_ping matches Some(m) ==> m == mean(self.ping_memory))
    }

    /// The packets a periodic pass over this connection's channels sends, in
    /// channel order.
    pub open spec fn channels_update_out(self, now: u64) -> Seq<DatagramV> {
        conn_channels_out(self.addr, self.channels, self.average_ping, now)
    }
}

/// The state a fresh connection starts from: nothing observed, nothing
/// measured, every channel in its initial state, all deadlines at `now`.
pub open spec fn fresh_conn_v(config: ClientConfig, addr: PeerAddr, now: u64) -> ConnectionV {
    ConnectionV {
        addr,
        other_instance: None,
        creation_time: now,
        ping_memory: Seq::empty(),
        average_ping: None,
        heartbeat_interval: config.heartbeat_interval,
        last_received_keep_alive: now,
        last_sent_keep_alive: now,
        channels: config.channels@.map_values(|c: ChannelConfig| Channel::init_v(c)),
    }
}

/// The packets a periodic pass over a channel list sends; channel `i`
/// carries tag `i + CHANNEL_OFFSET`.
pub open spec fn conn_channels_out(addr: PeerAddr, channels: Seq<ChannelV>, ping: Option<u64>, now: u64) -> Seq<DatagramV>
    decreases channels.len(),
{
    if channels.len() == 0 {
        Seq::empty()
    } else {
        conn_channels_out(addr, channels.drop_last(), ping, now) + update_out(
            channels.last(),
            addr,
            (channels.len() - 1) as u8,
            ping,
            now,
        )
    }
}

/// What one echoed heartbeat timestamp does to a connection: a plausible
/// echo appends the measured sample, evicting the oldest once the buffer
/// holds `cap` samples, and the average becomes the integer mean; an echo
/// claiming a send time later than the present is dropped.
pub open spec fn rtt_apply(c: ConnectionV, echoed: u128, now: u64, cap: u8) -> ConnectionV {
    let elapsed = (now - c.creation_time) as u64;
    if echoed > elapsed as u128 {
        c
    } else {
        let sample = (elapsed - echoed) as u64;
        let kept = if c.ping_memory.len() >= cap {
            c.ping_memory.drop_first()
        } else {
            c.ping_memory
        };
        ConnectionV {
            ping_memory: kept.push(sample),
            average_ping: Some(mean(kept.push(sample)) as u64),
            ..c
        }
    }
}

impl Connection {
    /// Structural soundness: channel `i` is the state machine for slot `i`
    /// of the configuration, addressed at this peer, and the round-trip
    /// buffer average is coherent.
    pub open spec fn inv(self) -> bool {
        &&& self@.ping_wf()
        &&& self.channels@.len() <= 253
        &&& forall|i: int| 0 <= i < self.channels@.len() ==> {
            &&& (#[trigger] self.channels@[i]).inv()
            &&& self.channels@[i].channel_id == i
            &&& self.channels@[i].addr == self.addr
        }
    }

    /// Sets up the state for a fresh peer and emits the opening heartbeat,
    /// which carries this endpoint's instance tag and a zero timestamp.
    pub fn new(config: &ClientConfig, addr: PeerAddr, instance: u128, now: u64, out: &mut Vec<Datagram>) -> (r:
        Result<Connection, Error>)
        requires
            config.wf(),
            config.channels@.len() <= 252,
        ensures
            r is Ok <==> 33 <= config.max_message_size,
            r is Err ==> r == Err::<Connection, Error>(Error::MessageTooLong) && final(out)@
                == old(out)@,
            r matches Ok(c) ==> {
                &&& c.inv()
                &&& c@.le_now(now)
                &&& c@.fits(config.max_message_size as int)
                &&& c.addr == addr
                &&& c@.other_instance is None
                &&& c@.creation_time == now
                &&& c@.ping_memory == Seq::<u64>::empty()
                &&& c@.average_ping is None
                &&& c@.heartbeat_interval == config.heartbeat_interval
                &&& c@.last_received_keep_alive == now
                &&& c@.last_sent_keep_alive == now
                &&& c@.channels.len() == config.channels@.len()
                &&& (forall|i: int|
                    0 <= i < config.channels@.len() ==> (#[trigger] c@.channels[i])
                        == Channel::init_v(config.channels@[i]))
                &&& (forall|i: int|
                    0 <= i < config.channels@.len() ==> channel_matches(
                        #[trigger] c@.channels[i],
                        config.channels@[i],
                    ))
                &&& c@ == fresh_conn_v(*config, addr, now)
                &&& final(out).deep_view() == old(out).deep_view().push(
                    DatagramV { addr, payload: heartbeat_bytes(instance, 0) },
                )
            },
    {
        let max = config.max_message_size as usize;
        let hb = match build_heartbeat(instance, 0, max) {
            Ok(hb) => hb,
            Err(e) => {
                return Err(e);
            },
        };
        out.push(Datagram { addr, payload: hb });
        let n = config.channels.len();
        let mut channels: Vec<Channel> = Vec::new();
        let mut i: usize = 0;
        #[verifier::loop_isolation(false)]
        while i < n
            invariant
                i <= n,
                channels@.len() == i,
                forall|q: int| 0 <= q < i ==> {
                    &&& (#[trigger] channels@[q]).inv()
                    &&& channels@[q].channel_id == q
                    &&& channels@[q].addr == addr
                    &&& channels@[q]@ == Channel::init_v(config.channels@[q])
                    &&& channels@[q]@.le_now(now)
                    &&& channels@[q]@.fits(config.max_message_size as int)
                    &&& channel_matches(channels@[q]@, config.channels@[q])
                },
            decreases n - i,
        {
            let c = Channel::new(&config.channels[i], i as u8, addr);
            channels.push(c);
            i = i + 1;
            proof {
                let q = i - 1;
                assert(channels@[q]@ == Channel::init_v(config.channels@[q]));
                assert(channel_matches(channels@[q]@, config.channels@[q]));
                assert(channels@[q]@.le_now(now));
                assert(channels@[q]@.fits(config.max_message_size as int));
            }
        }
        let c = Connection {
            addr,
            other_instance: None,
            creation_time: now,
            ping_memory: Vec::new(),
            average_ping: None,
            heartbeat_interval: config.heartbeat_interval,
            last_received_keep_alive: now,
            last_sent_keep_alive: now,
            channels,
        };
        proof {
            assert(c@.channels =~= c.channels@.map_values(|ch: Channel| ch@));
            assert(c@.channels =~~= config.channels@.map_values(
                |cc: ChannelConfig| Channel::init_v(cc),
            ));
            assert(c@ =~~= fresh_conn_v(*config, addr, now));
            assert(out.deep_view() =~~= old(out).deep_view().push(
                DatagramV { addr, payload: heartbeat_bytes(instance, 0) },
            ));
        }
        Ok(c)
    }

    /// Records the instance tag carried by a heartbeat. The first tag seen
    /// is stored for the life of the connection; the result says whether a
    /// later heartbeat contradicts the stored tag.
    pub fn observe_instance(&mut self, instance: u128) -> (mismatch: bool)
        ensures
            old(self).other_instance is None ==> final(self).other_instance == Some(instance)
                && !mismatch,
            old(self).other_instance matches Some(i) ==> *final(self) == *old(self) && (mismatch
                <==> i != instance),
            final(self).other_instance is Some,
            final(self).addr == old(self).addr,
            final(self).creation_time == old(self).creation_time,
            final(self).ping_memory == old(self).ping_memory,
            final(self).average_ping == old(self).average_ping,
            final(self).heartbeat_interval == old(self).heartbeat_interval,
            final(self).last_received_keep_alive == old(self).last_received_keep_alive,
            final(self).last_sent_keep_alive == old(self).last_sent_keep_alive,
            final(self).channels == old(self).channels,
    {
        match self.other_instance {
            None => {
                self.other_instance = Some(instance);
                false
            },
            Some(i) => i != instance,
        }
    }

    /// Feeds one echoed heartbeat timestamp into the round-trip buffer: the
    /// sample is the elapsed time minus the echoed send time, the oldest
    /// sample is evicted once the buffer is full, and the average is the
    /// integer mean of what remains. An echo claiming a send time later
    /// than the present is hostile and is dropped.
    pub fn record_rtt(&mut self, echoed: u128, now: u64, cap: u8)
        requires
            old(self).inv(),
            old(self)@.le_now(now),
            cap >= 1,
            old(self).ping_memory@.len() <= cap,
        ensures
            final(self).inv(),
            final(self)@.le_now(now),
            final(self).ping_memory@.len() <= cap,
            final(self).addr == old(self).addr,
            final(self).other_instance == old(self).other_instance,
            final(self).creation_time == old(self).creation_time,
            final(self).heartbeat_interval == old(self).heartbeat_interval,
            final(self).last_received_keep_alive == old(self).last_received_keep_alive,
            final(self).last_sent_keep_alive == old(self).last_sent_keep_alive,
            final(self).channels == old(self).channels,
            final(self)@ == rtt_apply(old(self)@, echoed, now, cap),
    {
        let elapsed: u64 = now - self.creation_time;
        if echoed > elapsed as u128 {
            proof {
                assert(self@.channels =~= old(self)@.channels);
                assert(self@ =~~= rtt_apply(old(self)@, echoed, now, cap));
            }
            return ;
        }
        let sample: u64 = elapsed - (echoed as u64);
        if self.ping_memory.len() >= cap as usize {
            let _ = self.ping_memory.remove(0);
        }
        self.ping_memory.push(sample);
        let n = self.ping_memory.len();
        let mut total: u128 = 0;
        let mut i: usize = 0;
        #[verifier::loop_isolation(false)]
        while i < n
            invariant
                i <= n == self.ping_memory@.len(),
                total == sum_seq(self.ping_memory@.take(i as int)),
                total <= i * (u64::MAX as int),
            decreases n - i,
        {
            let s = self.ping_memory[i];
            proof {
                lemma_sum_seq_bound(self.ping_memory@.take(i as int));
                assert(self.ping_memory@.take(i + 1).drop_last() =~= self.ping_memory@.take(
                    i as int,
                ));
            }
            total = total + (s as u128);
            i = i + 1;
        }
        proof {
            assert(self.ping_memory@.take(n as int) =~= self.ping_memory@);
            assert(total / (n as u128) <= u64::MAX) by (nonlinear_arith)
                requires
                    total <= n * (u64::MAX as int),
                    n >= 1,
            ;
        }
        self.average_ping = Some((total / (n as u128)) as u64);
        proof {
            assert(self@.channels =~= old(self)@.channels);
            assert(self@ =~~= rtt_apply(old(self)@, echoed, now, cap));
        }
    }

    /// Periodic work for this peer: a heartbeat when the last one is older
    /// than the heartbeat interval, then every channel's periodic pass.
    pub fn update(&mut self, instance: u128, now: u64, max_message_size: usize, out: &mut Vec<Datagram>) -> (r:
        Result<(), Error>)
        requires
            old(self).inv(),
            old(self)@.le_now(now),
            old(self)@.fits(max_message_size as int),
        ensures
            final(self).inv(),
            final(self)@.le_now(now),
            final(self)@.fits(max_message_size as int),
            final(self).addr == old(self).addr,
            final(self).other_instance == old(self).other_instance,
            final(self).creation_time == old(self).creation_time,
            final(self).ping_memory == old(self).ping_memory,
            final(self).average_ping == old(self).average_ping,
            final(self).heartbeat_interval == old(self).heartbeat_interval,
            final(self).last_received_keep_alive == old(self).last_received_keep_alive,
            final(self).channels@.len() == old(self).channels@.len(),
            forall|q: int|
                0 <= q < old(self).channels@.len() ==> same_kind(
                    (#[trigger] old(self).channels@[q])@,
                    final(self).channels@[q]@,
                ),
            old(out).deep_view().is_prefix_of(final(out).deep_view()),
            forall|i: int, s: u64|
                0 <= i < old(self).channels@.len() && (#[trigger] old(self).channels@[i]@.delivered(s)) ==> final(self).channels@[i]@.delivered(s),
            33 <= max_message_size ==> r is Ok,
            r is Err ==> max_message_size < 33,
            r is Ok ==> {
                let due = now - old(self).last_sent_keep_alive > old(self).heartbeat_interval;
                let hb: Seq<DatagramV> = if due {
                    seq![
                        DatagramV {
                            addr: old(self).addr,
                            payload: heartbeat_bytes(
                                instance,
                                (now - old(self).creation_time) as u128,
                            ),
                        },
                    ]
                } else {
                    Seq::empty()
                };
                &&& r is Ok
                &&& final(self).last_sent_keep_alive == (if due {
                    now
                } else {
                    old(self).last_sent_keep_alive
                })
                &&& final(self)@.channels =~= old(self)@.channels.map_values(
                    |c: ChannelV| update_apply(c, old(self).average_ping, now),
                )
                &&& final(out).deep_view() =~= old(out).deep_view() + hb + conn_channels_out(
                    old(self).addr,
                    old(self)@.channels,
                    old(self).average_ping,
                    now,
                )
            },
    {
        let ghost out0 = out.deep_view();
        let ghost hb_part: Seq<DatagramV> = Seq::empty();
        let due = now - self.last_sent_keep_alive > self.heartbeat_interval;
        if due {
            let ts: u64 = now - self.creation_time;
            let hb = match build_heartbeat(instance, ts as u128, max_message_size) {
                Ok(hb) => hb,
                Err(e) => {
                    return Err(e);
                },
            };
            out.push(Datagram { addr: self.addr, payload: hb });
            self.last_sent_keep_alive = now;
            proof {
                assert(out.deep_view() =~~= out0.push(
                    DatagramV {
                        addr: self.addr,
                        payload: heartbeat_bytes(instance, ts as u128),
                    },
                ));
            }
        }
        let ghost out1 = out.deep_view();
        let ghost gchans = self.channels@.map_values(|c: Channel| c@);
        let ghost pre_tx = self.last_sent_keep_alive;
        let ping = self.average_ping;
        let addr = self.addr;
        let n = self.channels.len();
        let mut i: usize = 0;
        #[verifier::loop_isolation(false)]
        while i < n
            invariant
                i <= n == self.channels@.len(),
                self.addr == old(self).addr,
                self.other_instance == old(self).other_instance,
                self.creation_time == old(self).creation_time,
                self.ping_memory == old(self).ping_memory,
                self.average_ping == old(self).average_ping,
                self.heartbeat_interval == old(self).heartbeat_interval,
                self.last_received_keep_alive == old(self).last_received_keep_alive,
                self.last_sent_keep_alive == pre_tx,
                forall|q: int|
                    i <= q < n ==> (#[trigger] self.channels@[q]) == old(self).channels@[q],
                forall|q: int| 0 <= q < i ==> {
                    &&& (#[trigger] self.channels@[q]).inv()
                    &&& self.channels@[q].channel_id == q
                    &&& self.channels@[q].addr == addr
                    &&& self.channels@[q]@.le_now(now)
                    &&& self.channels@[q]@.fits(max_message_size as int)
                    &&& self.channels@[q]@ == update_apply(gchans[q], ping, now)
                    &&& same_kind(gchans[q], self.channels@[q]@)
                    &&& (forall|s: u64|
                        gchans[q].delivered(s) ==> (#[trigger] self.channels@[q]@.delivered(s)))
                },
                out.deep_view() =~= out1 + conn_channels_out(
                    addr,
                    gchans.take(i as int),
                    ping,
                    now,
                ),
                33 <= max_message_size ==> out1 =~= out0 + (if now - old(self).last_sent_keep_alive > old(self).heartbeat_interval {
                    seq![
                        DatagramV {
                            addr,
                            payload: heartbeat_bytes(
                                instance,
                                (now - old(self).creation_time) as u128,
                            ),
                        },
                    ]
                } else {
                    Seq::<DatagramV>::empty()
                }),
                out0.is_prefix_of(out1),
                out0 == old(out).deep_view(),
            decreases n - i,
        {
            proof {
                assert(gchans.take(i + 1).drop_last() =~= gchans.take(i as int));
                assert(gchans[i as int] == old(self).channels@[i as int]@);
            }
            proof {
                assert(old(self)@.channels[i as int] == old(self).channels@[i as int]@);
                assert(old(self)@.channels[i as int].fits(max_message_size as int));
                assert(old(self)@.channels[i as int].le_now(now));
            }
            let ghost pre_out = out.deep_view();
            let ch = &mut self.channels[i];
            let res = ch.update(ping, now, max_message_size, out);
            match res {
                Ok(()) => {},
                Err(e) => {
                    proof {
                        assert(out0.is_prefix_of(out.deep_view())) by {
                            assert(pre_out.is_prefix_of(out.deep_view()));
                        }
                    }
                    return Err(e);
                },
            }
            proof {
                assert(out.deep_view() =~~= pre_out + update_out(
                    gchans[i as int],
                    addr,
                    i as u8,
                    ping,
                    now,
                ));
                assert(self.channels@[i as int]@ == update_apply(gchans[i as int], ping, now));
            }
            i = i + 1;
            proof {
                assert(out.deep_view() =~~= out1 + conn_channels_out(
                    addr,
                    gchans.take(i as int),
                    ping,
                    now,
                ));
            }
        }
        proof {
            assert(gchans.take(n as int) =~= gchans);
            assert(self@.channels =~~= gchans.map_values(
                |c: ChannelV| update_apply(c, ping, now),
            ));
            assert(self@.ping_memory == old(self)@.ping_memory);
            assert(self@.ping_wf());
            assert(self.inv());
        }
        Ok(())
    }
}

} // verus!
