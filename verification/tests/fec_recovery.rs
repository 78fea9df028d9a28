//! Forward-error-correction end to end: recovery from symbol loss, the
//! acknowledgement protocol, and the failure modes of the encoder.

use nifty_udp::{
    ChannelConfig, Client, ClientConfig, Datagram, Error, Event, PeerAddr,
};

fn addr(port: u16) -> PeerAddr {
    PeerAddr { ip: 0x7f00_0001, port }
}

fn config(listen: bool, channels: Vec<ChannelConfig>) -> ClientConfig {
    ClientConfig {
        max_message_size: 65443,
        heartbeat_interval: 100,
        timeout: 10000,
        ping_memory_length: 16,
        listen,
        channels,
    }
}

fn fec_sender() -> Vec<ChannelConfig> {
    vec![ChannelConfig::SendFecReliable {
        resend_threshold_permille: 1250,
        max_data_symbols: 4,
        max_repair_symbols: 3,
    }]
}

#[test]
fn fec_recovery_with_three_of_seven_symbols_lost() {
    let a_addr = addr(1100);
    let b_addr = addr(2100);
    let mut a = Client::bind(config(false, fec_sender()), 11).unwrap();
    let mut b =
        Client::bind(config(true, vec![ChannelConfig::ReceiveFecReliable]), 22).unwrap();
    a.connect(b_addr, 0).unwrap();
    let _ = a.take_outgoing();

    let payload: Vec<u8> = (0..10240u32).map(|i| (i * 31 % 251) as u8).collect();
    a.send(b_addr, 0, &payload, 1).unwrap();
    let symbols = a.take_outgoing();
    assert_eq!(symbols.len(), 7);
    for d in &symbols {
        assert_eq!(d.payload[0], 3);
    }

    // Drop three of the seven symbol packets.
    let survivors: Vec<Datagram> = symbols
        .into_iter()
        .enumerate()
        .filter(|(i, _)| ![1usize, 3, 5].contains(i))
        .map(|(_, d)| Datagram { addr: a_addr, payload: d.payload })
        .collect();
    assert_eq!(survivors.len(), 4);
    let evs = b.update(2, survivors).unwrap();
    let mut delivered = Vec::new();
    for e in evs {
        if let Event::Message(from, ch, m) = e {
            assert_eq!(from, a_addr);
            assert_eq!(ch, 0);
            delivered.push(m);
        }
    }
    assert_eq!(delivered.len(), 1);
    assert_eq!(delivered[0], payload);

    // The receiver's acknowledgements clear the sender's slot for sequence 0.
    let acks = b.take_outgoing();
    assert!(!acks.is_empty());
    let incoming: Vec<Datagram> = acks
        .into_iter()
        .map(|d| Datagram { addr: b_addr, payload: d.payload })
        .collect();
    a.update(3, incoming).unwrap();
    match &a.connections[0].channels[0].state {
        nifty_udp::channel::ChannelState::SendFecReliable { base_seq, slots, .. } => {
            assert_eq!(*base_seq, 1);
            assert!(slots.is_empty());
        }
        _ => panic!("expected a forward-error-correction sender"),
    }
}

#[test]
fn late_symbol_for_delivered_message_provokes_whole_ack() {
    let a_addr = addr(1101);
    let b_addr = addr(2101);
    let mut a = Client::bind(config(false, fec_sender()), 11).unwrap();
    let mut b =
        Client::bind(config(true, vec![ChannelConfig::ReceiveFecReliable]), 22).unwrap();
    a.connect(b_addr, 0).unwrap();
    let _ = a.take_outgoing();
    let payload = vec![7u8; 512];
    a.send(b_addr, 0, &payload, 1).unwrap();
    let symbols = a.take_outgoing();
    let late = symbols[0].payload.clone();
    let incoming: Vec<Datagram> = symbols
        .into_iter()
        .map(|d| Datagram { addr: a_addr, payload: d.payload })
        .collect();
    let evs = b.update(2, incoming).unwrap();
    assert!(evs
        .iter()
        .any(|e| matches!(e, Event::Message(_, 0, m) if *m == payload)));
    let _ = b.take_outgoing();

    // The sequence is behind the ring now; a replay draws a whole-message
    // acknowledgement: channel tag, then marker 0, then the sequence.
    let evs = b
        .update(3, vec![Datagram { addr: a_addr, payload: late }])
        .unwrap();
    assert!(evs.is_empty());
    let out = b.take_outgoing();
    assert_eq!(out.len(), 1);
    let mut expected = vec![3u8, 0u8];
    expected.extend_from_slice(&0u64.to_be_bytes());
    assert_eq!(out[0].payload, expected);
}

#[test]
fn fec_message_is_delivered_exactly_once_under_replay() {
    let a_addr = addr(1102);
    let b_addr = addr(2102);
    let mut a = Client::bind(config(false, fec_sender()), 11).unwrap();
    let mut b =
        Client::bind(config(true, vec![ChannelConfig::ReceiveFecReliable]), 22).unwrap();
    a.connect(b_addr, 0).unwrap();
    let _ = a.take_outgoing();
    let payload = vec![42u8; 256];
    a.send(b_addr, 0, &payload, 1).unwrap();
    let symbols: Vec<Datagram> = a
        .take_outgoing()
        .into_iter()
        .map(|d| Datagram { addr: a_addr, payload: d.payload })
        .collect();
    let evs = b.update(2, symbols.clone()).unwrap();
    let first: Vec<&Event> = evs
        .iter()
        .filter(|e| matches!(e, Event::Message(_, _, _)))
        .collect();
    assert_eq!(first.len(), 1);
    // The whole block replayed: nothing is delivered again.
    let evs = b.update(3, symbols).unwrap();
    assert!(!evs.iter().any(|e| matches!(e, Event::Message(_, _, _))));
}

#[test]
fn too_few_data_symbols_fail_the_encoder() {
    let b_addr = addr(2103);
    let mut a = Client::bind(
        config(
            false,
            vec![ChannelConfig::SendFecReliable {
                resend_threshold_permille: 1250,
                max_data_symbols: 2,
                max_repair_symbols: 2,
            }],
        ),
        11,
    )
    .unwrap();
    a.connect(b_addr, 0).unwrap();
    assert_eq!(a.send(b_addr, 0, &[1, 2, 3, 4], 1), Err(Error::FecEncode));
}

#[test]
fn fec_message_longer_than_wire_length_field_is_refused() {
    let b_addr = addr(2104);
    let mut a = Client::bind(config(false, fec_sender()), 11).unwrap();
    a.connect(b_addr, 0).unwrap();
    let huge = vec![0u8; 65536];
    assert_eq!(a.send(b_addr, 0, &huge, 1), Err(Error::MessageTooLong));
}

#[test]
fn fec_retransmission_resends_only_unacknowledged_symbols() {
    let a_addr = addr(1103);
    let b_addr = addr(2105);
    let mut a = Client::bind(config(false, fec_sender()), 11).unwrap();
    let mut b =
        Client::bind(config(true, vec![ChannelConfig::ReceiveFecReliable]), 22).unwrap();
    a.connect(b_addr, 0).unwrap();
    pump_heartbeat(&mut a, a_addr, &mut b);
    // Give the sender a ping average so its retransmission timer runs.
    let echo = {
        let mut p = vec![2u8];
        p.extend_from_slice(&0u128.to_be_bytes());
        Datagram { addr: b_addr, payload: p }
    };
    a.update(5, vec![echo]).unwrap();
    assert!(a.get_ping(b_addr).unwrap().is_some());

    let payload = vec![3u8; 400];
    a.send(b_addr, 0, &payload, 6).unwrap();
    let symbols = a.take_outgoing();
    assert_eq!(symbols.len(), 7);
    // Only two symbols arrive; the receiver acknowledges those two.
    let two: Vec<Datagram> = symbols
        .into_iter()
        .take(2)
        .map(|d| Datagram { addr: a_addr, payload: d.payload })
        .collect();
    b.update(7, two).unwrap();
    let acks: Vec<Datagram> = b
        .take_outgoing()
        .into_iter()
        .map(|d| Datagram { addr: b_addr, payload: d.payload })
        .collect();
    a.update(8, acks).unwrap();
    // Past the resend threshold the sender replays the five missing symbols.
    a.update(3000, Vec::new()).unwrap();
    let resent: Vec<Datagram> = a.take_outgoing();
    let data_packets: Vec<&Datagram> = resent.iter().filter(|d| d.payload[0] == 3).collect();
    assert_eq!(data_packets.len(), 5);
}

fn pump_heartbeat(from: &mut Client, from_addr: PeerAddr, to: &mut Client) {
    let outgoing = from.take_outgoing();
    let incoming: Vec<Datagram> = outgoing
        .into_iter()
        .map(|d| Datagram { addr: from_addr, payload: d.payload })
        .collect();
    to.update(0, incoming).unwrap();
}
