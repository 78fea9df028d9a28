//! End-to-end checks of the endpoint: two clients wired back to back
//! through plain datagram vectors.

use nifty_udp::{
    ChannelConfig, Client, ClientConfig, Datagram, DisconnectReason, Error, Event, PeerAddr,
};

fn addr(port: u16) -> PeerAddr {
    PeerAddr { ip: 0x7f00_0001, port }
}

fn config(listen: bool, channels: Vec<ChannelConfig>) -> ClientConfig {
    ClientConfig {
        max_message_size: 65443,
        heartbeat_interval: 100,
        timeout: 10000,
        ping_memory_length: 16,
        listen,
        channels,
    }
}

/// Moves everything `from` has queued over to `to`, stamping each datagram
/// with the sender's address, and runs one pass of `to`.
fn pump(from: &mut Client, from_addr: PeerAddr, to: &mut Client, now: u64) -> Vec<Event> {
    let outgoing = from.take_outgoing();
    let incoming: Vec<Datagram> = outgoing
        .into_iter()
        .map(|d| Datagram { addr: from_addr, payload: d.payload })
        .collect();
    to.update(now, incoming).unwrap()
}

#[test]
fn bind_rejects_too_many_channels() {
    let channels: Vec<ChannelConfig> = (0..253).map(|_| ChannelConfig::SendUnreliable).collect();
    match Client::bind(config(false, channels), 1) {
        Err(Error::TooManyChannels) => {}
        _ => panic!("253 channels must be refused"),
    }
    let channels: Vec<ChannelConfig> = (0..252).map(|_| ChannelConfig::SendUnreliable).collect();
    assert!(Client::bind(config(false, channels), 1).is_ok());
}

#[test]
fn unreliable_echo() {
    let a_addr = addr(1000);
    let b_addr = addr(2000);
    let mut a = Client::bind(
        config(
            false,
            vec![ChannelConfig::SendUnreliable, ChannelConfig::ReceiveUnreliable],
        ),
        11,
    )
    .unwrap();
    let mut b = Client::bind(
        config(
            true,
            vec![ChannelConfig::ReceiveUnreliable, ChannelConfig::SendUnreliable],
        ),
        22,
    )
    .unwrap();

    a.connect(b_addr, 0).unwrap();
    let evs = pump(&mut a, a_addr, &mut b, 0);
    assert_eq!(evs, vec![Event::Connection(a_addr)]);

    a.send(b_addr, 0, b"hi", 1).unwrap();
    let evs = pump(&mut a, a_addr, &mut b, 1);
    assert_eq!(evs, vec![Event::Message(a_addr, 0, b"hi".to_vec())]);
}

#[test]
fn channel_packets_carry_tags_of_at_least_three() {
    let b_addr = addr(2001);
    let mut a = Client::bind(config(false, vec![ChannelConfig::SendUnreliable]), 11).unwrap();
    a.connect(b_addr, 0).unwrap();
    let _ = a.take_outgoing();
    a.send(b_addr, 0, b"payload", 1).unwrap();
    let out = a.take_outgoing();
    assert_eq!(out.len(), 1);
    assert!(out[0].payload[0] >= 3);
    assert_eq!(out[0].payload[0], 3);
}

#[test]
fn out_of_range_channel_frame_is_dropped() {
    let a_addr = addr(1002);
    let mut b = Client::bind(config(true, vec![ChannelConfig::ReceiveUnreliable]), 22).unwrap();
    // Tag 4 names channel 1, which does not exist: no event, no connection.
    let evs = b
        .update(
            0,
            vec![Datagram { addr: a_addr, payload: vec![4u8, 9, 9] }],
        )
        .unwrap();
    assert!(evs.is_empty());
    assert!(b.connections().is_empty());
}

#[test]
fn reliable_delivery_without_loss() {
    let a_addr = addr(1003);
    let b_addr = addr(2003);
    let mut a = Client::bind(
        config(
            false,
            vec![ChannelConfig::SendReliable { resend_threshold_permille: 1250 }],
        ),
        11,
    )
    .unwrap();
    let mut b = Client::bind(config(true, vec![ChannelConfig::ReceiveReliable]), 22).unwrap();

    a.connect(b_addr, 0).unwrap();
    pump(&mut a, a_addr, &mut b, 0);
    a.send(b_addr, 0, b"first", 1).unwrap();
    a.send(b_addr, 0, b"second", 1).unwrap();
    let evs = pump(&mut a, a_addr, &mut b, 2);
    assert_eq!(
        evs,
        vec![
            Event::Message(a_addr, 0, b"first".to_vec()),
            Event::Message(a_addr, 0, b"second".to_vec()),
        ]
    );
    // The receiver's acknowledgements clear the sender's ring.
    pump(&mut b, b_addr, &mut a, 3);
    match &a.connections[0].channels[0].state {
        nifty_udp::channel::ChannelState::SendReliable { base_seq, slots, .. } => {
            assert_eq!(*base_seq, 2);
            assert!(slots.is_empty());
        }
        _ => panic!("expected a reliable sender"),
    }
}

#[test]
fn duplicate_data_frames_are_suppressed() {
    let a_addr = addr(1004);
    let mut b = Client::bind(config(true, vec![ChannelConfig::ReceiveReliable]), 22).unwrap();
    // A reliable data frame for sequence 0 with payload "x": tag 3, then
    // the eight-byte sequence, then the payload.
    let mut frame = vec![3u8];
    frame.extend_from_slice(&0u64.to_be_bytes());
    frame.push(b'x');
    let evs = b
        .update(0, vec![Datagram { addr: a_addr, payload: frame.clone() }])
        .unwrap();
    assert_eq!(
        evs,
        vec![
            Event::Connection(a_addr),
            Event::Message(a_addr, 0, b"x".to_vec()),
        ]
    );
    // Replays deliver nothing further, however often they arrive.
    for _ in 0..3 {
        let evs = b
            .update(1, vec![Datagram { addr: a_addr, payload: frame.clone() }])
            .unwrap();
        assert!(evs.is_empty());
    }
}

#[test]
fn out_of_order_delivery_is_first_observation_order() {
    let a_addr = addr(1005);
    let mut b = Client::bind(config(true, vec![ChannelConfig::ReceiveReliable]), 22).unwrap();
    let mut frame1 = vec![3u8];
    frame1.extend_from_slice(&1u64.to_be_bytes());
    frame1.push(b'b');
    let mut frame0 = vec![3u8];
    frame0.extend_from_slice(&0u64.to_be_bytes());
    frame0.push(b'a');
    let evs = b
        .update(
            0,
            vec![
                Datagram { addr: a_addr, payload: frame1 },
                Datagram { addr: a_addr, payload: frame0 },
            ],
        )
        .unwrap();
    assert_eq!(
        evs,
        vec![
            Event::Connection(a_addr),
            Event::Message(a_addr, 0, b"b".to_vec()),
            Event::Message(a_addr, 0, b"a".to_vec()),
        ]
    );
}

#[test]
fn acks_are_idempotent_on_the_sender() {
    let b_addr = addr(2006);
    let mut a = Client::bind(
        config(
            false,
            vec![ChannelConfig::SendReliable { resend_threshold_permille: 1250 }],
        ),
        11,
    )
    .unwrap();
    a.connect(b_addr, 0).unwrap();
    a.send(b_addr, 0, b"one", 1).unwrap();
    a.send(b_addr, 0, b"two", 1).unwrap();
    let _ = a.take_outgoing();
    // An acknowledgement for sequence 0, replayed three times.
    let mut ack = vec![3u8];
    ack.extend_from_slice(&0u64.to_be_bytes());
    for _ in 0..3 {
        a.update(2, vec![Datagram { addr: b_addr, payload: ack.clone() }])
            .unwrap();
        match &a.connections[0].channels[0].state {
            nifty_udp::channel::ChannelState::SendReliable { base_seq, slots, .. } => {
                assert_eq!(*base_seq, 1);
                assert_eq!(slots.len(), 1);
            }
            _ => panic!("expected a reliable sender"),
        }
    }
}

#[test]
fn front_trim_advances_past_acknowledged_prefix() {
    let b_addr = addr(2007);
    let mut a = Client::bind(
        config(
            false,
            vec![ChannelConfig::SendReliable { resend_threshold_permille: 1250 }],
        ),
        11,
    )
    .unwrap();
    a.connect(b_addr, 0).unwrap();
    for m in [b"m0".as_slice(), b"m1", b"m2"] {
        a.send(b_addr, 0, m, 1).unwrap();
    }
    let mut ack1 = vec![3u8];
    ack1.extend_from_slice(&1u64.to_be_bytes());
    a.update(2, vec![Datagram { addr: b_addr, payload: ack1 }])
        .unwrap();
    // Slot 1 is cleared but the front (sequence 0) is still in flight: no trim.
    match &a.connections[0].channels[0].state {
        nifty_udp::channel::ChannelState::SendReliable { base_seq, slots, .. } => {
            assert_eq!(*base_seq, 0);
            assert_eq!(slots.len(), 3);
            assert!(slots[0].is_some());
            assert!(slots[1].is_none());
        }
        _ => panic!("expected a reliable sender"),
    }
    let mut ack0 = vec![3u8];
    ack0.extend_from_slice(&0u64.to_be_bytes());
    a.update(3, vec![Datagram { addr: b_addr, payload: ack0 }])
        .unwrap();
    // Now the front is terminal and the ring trims past both slots.
    match &a.connections[0].channels[0].state {
        nifty_udp::channel::ChannelState::SendReliable { base_seq, slots, .. } => {
            assert_eq!(*base_seq, 2);
            assert_eq!(slots.len(), 1);
            assert!(slots[0].is_some());
        }
        _ => panic!("expected a reliable sender"),
    }
}

#[test]
fn retransmission_after_loss() {
    let a_addr = addr(1008);
    let b_addr = addr(2008);
    let mut a = Client::bind(
        config(
            false,
            vec![ChannelConfig::SendReliable { resend_threshold_permille: 1250 }],
        ),
        11,
    )
    .unwrap();
    let mut b = Client::bind(config(true, vec![ChannelConfig::ReceiveReliable]), 22).unwrap();
    a.connect(b_addr, 0).unwrap();
    pump(&mut a, a_addr, &mut b, 0);
    // B answers the heartbeat with an echo; A turns it into a ping sample.
    pump(&mut b, b_addr, &mut a, 5);
    assert!(a.get_ping(b_addr).unwrap().is_some());

    // The first transmission is lost.
    a.send(b_addr, 0, b"lost once", 6).unwrap();
    let _ = a.take_outgoing();
    // Past the resend threshold, the periodic pass replays the packet.
    a.update(2000, Vec::new()).unwrap();
    let evs = pump(&mut a, a_addr, &mut b, 2001);
    assert_eq!(evs, vec![Event::Message(a_addr, 0, b"lost once".to_vec())]);
}

#[test]
fn ping_average_is_the_integer_mean_and_buffer_is_bounded() {
    let b_addr = addr(2009);
    let mut cfg = config(false, vec![]);
    cfg.ping_memory_length = 2;
    let mut a = Client::bind(cfg, 11).unwrap();
    // Connection created at time 1000; its echoes carry times the peer
    // copied from our heartbeats (milliseconds since connection creation).
    a.connect(b_addr, 1000).unwrap();
    let echo = |t: u128| {
        let mut p = vec![2u8];
        p.extend_from_slice(&t.to_be_bytes());
        Datagram { addr: b_addr, payload: p }
    };
    // At 1010, an echo of our time 0: sample 10.
    a.update(1010, vec![echo(0)]).unwrap();
    assert_eq!(a.get_ping(b_addr).unwrap(), Some(10));
    // At 1025, an echo of our time 5: sample 20; mean of {10, 20} is 15.
    a.update(1025, vec![echo(5)]).unwrap();
    assert_eq!(a.get_ping(b_addr).unwrap(), Some(15));
    // A third sample of 41 evicts the oldest: mean of {20, 41} is 30.
    a.update(1066, vec![echo(25)]).unwrap();
    assert_eq!(a.get_ping(b_addr).unwrap(), Some(30));
    assert!(a.connections[0].ping_memory.len() <= 2);
    // A hostile echo claiming a time later than now is dropped.
    a.update(1070, vec![echo(9999)]).unwrap();
    assert_eq!(a.get_ping(b_addr).unwrap(), Some(30));
}

#[test]
fn timeout_disconnects_silent_peer() {
    let a_addr = addr(1010);
    let mut b = Client::bind(config(true, vec![]), 22).unwrap();
    let hb = {
        let mut p = vec![0u8];
        p.extend_from_slice(&77u128.to_be_bytes());
        p.extend_from_slice(&0u128.to_be_bytes());
        Datagram { addr: a_addr, payload: p }
    };
    let evs = b.update(0, vec![hb]).unwrap();
    assert_eq!(evs[0], Event::Connection(a_addr));
    // Quiet but within the timeout: still connected.
    let evs = b.update(10000, Vec::new()).unwrap();
    assert!(evs.is_empty());
    assert_eq!(b.connections().len(), 1);
    // One tick past the timeout: dropped.
    let evs = b.update(10001, Vec::new()).unwrap();
    assert_eq!(
        evs,
        vec![Event::Disconnection(a_addr, DisconnectReason::Timeout)]
    );
    assert!(b.connections().is_empty());
}

#[test]
fn peer_restart_is_detected() {
    let a_addr = addr(1011);
    let b_addr = addr(2011);
    let mut b = Client::bind(config(true, vec![]), 22).unwrap();

    let mut a1 = Client::bind(config(false, vec![]), 111).unwrap();
    a1.connect(b_addr, 0).unwrap();
    let evs = pump(&mut a1, a_addr, &mut b, 0);
    assert_eq!(evs, vec![Event::Connection(a_addr)]);

    // The same heartbeat again: same instance, nothing happens.
    a1.connect(b_addr, 1).unwrap();
    let evs = pump(&mut a1, a_addr, &mut b, 1);
    assert_eq!(evs, vec![]);

    let _ = b.take_outgoing();
    // The peer restarts: a different instance tag from the same address.
    let mut a2 = Client::bind(config(false, vec![]), 222).unwrap();
    a2.connect(b_addr, 2).unwrap();
    let evs = pump(&mut a2, a_addr, &mut b, 2);
    assert_eq!(
        evs,
        vec![Event::Disconnection(a_addr, DisconnectReason::OriginChangedInstance)]
    );
    // The removed peer gets no echo back.
    assert!(b.take_outgoing().iter().all(|d| d.payload[0] != 2));
}

#[test]
fn heartbeats_are_sent_when_due() {
    let b_addr = addr(2012);
    let mut a = Client::bind(config(false, vec![]), 11).unwrap();
    a.connect(b_addr, 0).unwrap();
    let opening = a.take_outgoing();
    assert_eq!(opening.len(), 1);
    assert_eq!(opening[0].payload[0], 0);
    // Within the heartbeat interval: nothing more.
    a.update(100, Vec::new()).unwrap();
    assert!(a.take_outgoing().is_empty());
    // Past it: one heartbeat.
    a.update(101, Vec::new()).unwrap();
    let out = a.take_outgoing();
    assert_eq!(out.len(), 1);
    assert_eq!(out[0].payload[0], 0);
    assert_eq!(out[0].addr, b_addr);
}

#[test]
fn send_single_requires_exactly_one_peer() {
    let mut a = Client::bind(config(false, vec![ChannelConfig::SendUnreliable]), 11).unwrap();
    assert_eq!(a.send_single(0, b"x", 0), Err(Error::SendSingleInvalid));
    a.connect(addr(2013), 0).unwrap();
    assert!(a.send_single(0, b"x", 1).is_ok());
    a.connect(addr(2014), 2).unwrap();
    assert_eq!(a.send_single(0, b"x", 3), Err(Error::SendSingleInvalid));
}

#[test]
fn send_error_cases() {
    let b_addr = addr(2015);
    let mut a = Client::bind(
        config(
            false,
            vec![ChannelConfig::SendUnreliable, ChannelConfig::ReceiveUnreliable],
        ),
        11,
    )
    .unwrap();
    assert_eq!(
        a.send(b_addr, 0, b"x", 0),
        Err(Error::AddressNotConnected)
    );
    a.connect(b_addr, 0).unwrap();
    assert_eq!(a.send(b_addr, 2, b"x", 1), Err(Error::InvalidChannelId));
    assert_eq!(
        a.send(b_addr, 1, b"x", 1),
        Err(Error::SendOnReceiveChannel)
    );
}

#[test]
fn oversized_message_is_refused() {
    let b_addr = addr(2016);
    let mut cfg = config(false, vec![ChannelConfig::SendUnreliable]);
    cfg.max_message_size = 64;
    let mut a = Client::bind(cfg, 11).unwrap();
    a.connect(b_addr, 0).unwrap();
    // 63 payload bytes plus the tag fit exactly; 64 do not.
    assert!(a.send(b_addr, 0, &[9u8; 63], 1).is_ok());
    assert_eq!(a.send(b_addr, 0, &[9u8; 64], 1), Err(Error::MessageTooLong));
}

#[test]
fn disconnect_reports_and_notifies() {
    let b_addr = addr(2017);
    let mut a = Client::bind(config(false, vec![]), 11).unwrap();
    assert_eq!(a.disconnect(b_addr), Ok(false));
    a.connect(b_addr, 0).unwrap();
    let _ = a.take_outgoing();
    assert_eq!(a.disconnect(b_addr), Ok(true));
    let out = a.take_outgoing();
    assert_eq!(out.len(), 1);
    assert_eq!(out[0].payload, vec![1u8]);
    let evs = a.update(1, Vec::new()).unwrap();
    assert_eq!(
        evs,
        vec![
            Event::Connection(b_addr),
            Event::Disconnection(b_addr, DisconnectReason::Kicked),
        ]
    );
}

#[test]
fn close_notice_disconnects() {
    let a_addr = addr(1018);
    let b_addr = addr(2018);
    let mut b = Client::bind(config(true, vec![]), 22).unwrap();
    let mut a = Client::bind(config(false, vec![]), 11).unwrap();
    a.connect(b_addr, 0).unwrap();
    pump(&mut a, a_addr, &mut b, 0);
    a.disconnect(b_addr).unwrap();
    let evs = pump(&mut a, a_addr, &mut b, 1);
    assert_eq!(
        evs,
        vec![Event::Disconnection(a_addr, DisconnectReason::Other)]
    );
}

#[test]
fn non_listening_endpoint_answers_strangers_with_close() {
    let a_addr = addr(1019);
    let mut b = Client::bind(config(false, vec![]), 22).unwrap();
    let hb = {
        let mut p = vec![0u8];
        p.extend_from_slice(&77u128.to_be_bytes());
        p.extend_from_slice(&0u128.to_be_bytes());
        Datagram { addr: a_addr, payload: p }
    };
    let evs = b.update(0, vec![hb]).unwrap();
    assert!(evs.is_empty());
    assert!(b.connections().is_empty());
    let out = b.take_outgoing();
    assert_eq!(out.len(), 1);
    assert_eq!(out[0].addr, a_addr);
    assert_eq!(out[0].payload, vec![1u8]);
}

#[test]
fn get_ping_unknown_peer_errors() {
    let a = Client::bind(config(false, vec![]), 11).unwrap();
    assert_eq!(a.get_ping(addr(2020)), Err(Error::AddressNotConnected));
}

#[test]
fn reliable_delivery_with_half_the_datagrams_lost() {
    let a_addr = addr(1020);
    let b_addr = addr(2021);
    let mut a = Client::bind(
        config(
            false,
            vec![ChannelConfig::SendReliable { resend_threshold_permille: 1250 }],
        ),
        11,
    )
    .unwrap();
    let mut b = Client::bind(config(true, vec![ChannelConfig::ReceiveReliable]), 22).unwrap();
    a.connect(b_addr, 0).unwrap();
    pump(&mut a, a_addr, &mut b, 0);
    pump(&mut b, b_addr, &mut a, 5);
    assert!(a.get_ping(b_addr).unwrap().is_some());

    let total = 20usize;
    for m in 0..total {
        a.send(b_addr, 0, format!("msg {}", m).as_bytes(), 10).unwrap();
    }
    let mut delivered: Vec<Vec<u8>> = Vec::new();
    let mut drop_toggle = false;
    let mut now = 10u64;
    // Every other datagram in either direction is lost; retransmission
    // rounds driven by the resend threshold recover the rest.
    for _ in 0..200 {
        now += 500;
        let a_out = a.take_outgoing();
        let mut to_b = Vec::new();
        for d in a_out {
            drop_toggle = !drop_toggle;
            if drop_toggle {
                to_b.push(Datagram { addr: a_addr, payload: d.payload });
            }
        }
        for e in b.update(now, to_b).unwrap() {
            if let Event::Message(_, 0, m) = e {
                delivered.push(m);
            }
        }
        let b_out = b.take_outgoing();
        let mut to_a = Vec::new();
        for d in b_out {
            drop_toggle = !drop_toggle;
            if drop_toggle {
                to_a.push(Datagram { addr: b_addr, payload: d.payload });
            }
        }
        a.update(now, to_a).unwrap();
        if delivered.len() == total {
            break;
        }
    }
    assert_eq!(delivered.len(), total);
    // No duplicates: all twenty payloads are distinct.
    let mut seen = delivered.clone();
    seen.sort();
    seen.dedup();
    assert_eq!(seen.len(), total);
    // The sender's ring eventually empties once every ack got through.
    for _ in 0..40 {
        now += 500;
        let a_out = a
            .take_outgoing()
            .into_iter()
            .map(|d| Datagram { addr: a_addr, payload: d.payload })
            .collect();
        b.update(now, a_out).unwrap();
        let b_out = b
            .take_outgoing()
            .into_iter()
            .map(|d| Datagram { addr: b_addr, payload: d.payload })
            .collect();
        a.update(now, b_out).unwrap();
    }
    match &a.connections[0].channels[0].state {
        nifty_udp::channel::ChannelState::SendReliable { base_seq, slots, .. } => {
            assert_eq!(*base_seq, total as u64);
            assert!(slots.is_empty());
        }
        _ => panic!("expected a reliable sender"),
    }
}

#[test]
fn get_ping_is_none_before_the_first_sample() {
    let b_addr = addr(2022);
    let mut a = Client::bind(config(false, vec![]), 11).unwrap();
    a.connect(b_addr, 0).unwrap();
    assert_eq!(a.get_ping(b_addr).unwrap(), None);
}

#[test]
fn reliable_send_respects_the_size_limit() {
    let b_addr = addr(2023);
    let mut cfg = config(
        false,
        vec![ChannelConfig::SendReliable { resend_threshold_permille: 1250 }],
    );
    cfg.max_message_size = 64;
    let mut a = Client::bind(cfg, 11).unwrap();
    a.connect(b_addr, 0).unwrap();
    // The reliable header takes nine bytes of the datagram.
    assert!(a.send(b_addr, 0, &[9u8; 55], 1).is_ok());
    assert_eq!(a.send(b_addr, 0, &[9u8; 56], 1), Err(Error::MessageTooLong));
}

#[test]
fn reconnecting_replaces_the_connection() {
    let b_addr = addr(2024);
    let mut a = Client::bind(
        config(
            false,
            vec![ChannelConfig::SendReliable { resend_threshold_permille: 1250 }],
        ),
        11,
    )
    .unwrap();
    a.connect(b_addr, 0).unwrap();
    a.send(b_addr, 0, b"kept in flight", 1).unwrap();
    match &a.connections[0].channels[0].state {
        nifty_udp::channel::ChannelState::SendReliable { slots, .. } => {
            assert_eq!(slots.len(), 1)
        }
        _ => panic!("expected a reliable sender"),
    }
    // Connecting again replaces the connection: fresh rings, one table entry.
    a.connect(b_addr, 2).unwrap();
    assert_eq!(a.connections().len(), 1);
    match &a.connections[0].channels[0].state {
        nifty_udp::channel::ChannelState::SendReliable { base_seq, slots, .. } => {
            assert_eq!(*base_seq, 0);
            assert!(slots.is_empty());
        }
        _ => panic!("expected a reliable sender"),
    }
}
