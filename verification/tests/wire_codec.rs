//! Byte-level checks of the wire codec.

use nifty_udp::wire::{build_close, build_echo, build_heartbeat, parse_packet, Packet};

#[test]
fn heartbeat_bytes_exact() {
    let p = build_heartbeat(1, 2, 65443).unwrap();
    let mut expected = vec![0u8];
    expected.extend_from_slice(&1u128.to_be_bytes());
    expected.extend_from_slice(&2u128.to_be_bytes());
    assert_eq!(p, expected);
    assert_eq!(p.len(), 33);
}

#[test]
fn heartbeat_too_long_for_tiny_datagram() {
    assert!(build_heartbeat(1, 2, 32).is_err());
    assert!(build_heartbeat(1, 2, 33).is_ok());
}

#[test]
fn close_bytes_exact() {
    assert_eq!(build_close(), vec![1u8]);
}

#[test]
fn echo_bytes_exact() {
    let p = build_echo(0xDEAD_BEEF, 65443).unwrap();
    let mut expected = vec![2u8];
    expected.extend_from_slice(&0xDEAD_BEEFu128.to_be_bytes());
    assert_eq!(p, expected);
}

#[test]
fn parse_heartbeat_round_trip() {
    let p = build_heartbeat(77, 12345, 65443).unwrap();
    match parse_packet(&p) {
        Some(Packet::Heartbeat { instance, timestamp }) => {
            assert_eq!(instance, 77);
            assert_eq!(timestamp, 12345);
        }
        _ => panic!("expected a heartbeat"),
    }
}

#[test]
fn parse_echo_round_trip() {
    let p = build_echo(424242, 65443).unwrap();
    match parse_packet(&p) {
        Some(Packet::Echo { timestamp }) => assert_eq!(timestamp, 424242),
        _ => panic!("expected an echo"),
    }
}

#[test]
fn parse_close() {
    match parse_packet(&[1u8]) {
        Some(Packet::Close) => {}
        _ => panic!("expected a close"),
    }
}

#[test]
fn parse_channel_frame() {
    let bytes = [7u8, 1, 2, 3];
    match parse_packet(&bytes) {
        Some(Packet::ChannelFrame { channel_id, frame }) => {
            assert_eq!(channel_id, 4);
            assert_eq!(frame, vec![1, 2, 3]);
        }
        _ => panic!("expected a channel frame"),
    }
}

#[test]
fn parse_rejects_truncated_and_empty() {
    assert!(parse_packet(&[]).is_none());
    assert!(parse_packet(&[0u8; 32]).is_none());
    assert!(parse_packet(&[2u8; 16]).is_none());
}
