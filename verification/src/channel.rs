//! The six per-channel state machines.
//!
//! A channel owns one delivery discipline. The reliable variants keep a ring
//! whose slot `i` stands for absolute sequence `base_seq + i`; whenever the
//! front slot reaches its terminal state (acknowledged, delivered, decoded)
//! the ring is trimmed from the front and `base_seq` advances.

use vstd::prelude::*;

use crate::config::ChannelConfig;
use crate::fec::{encode_block, fec_symbols, FecDecoder};
use crate::wire::{
    append_bytes, be_seq, be_val, channel_packet_bytes, lemma_be_seq_of_be_val,
    lemma_pow256_small, pow256, read_be, slice_suffix, write_be,
};
use crate::{Datagram, DatagramV, Error, PeerAddr};

verus! {

/// One in-flight reliable message: when it was last transmitted and its
/// payload, kept for retransmission.
pub struct SendSlot {
    pub last_sent: u64,
    pub payload: Vec<u8>,
}

/// Ghost image of a [`SendSlot`].
pub ghost struct SendSlotV {
    pub last_sent: u64,
    pub payload: Seq<u8>,
}

impl View for SendSlot {
    type V = SendSlotV;

    open spec fn view(&self) -> SendSlotV {
        SendSlotV { last_sent: self.last_sent, payload: self.payload@ }
    }
}

/// One in-flight forward-error-corrected message: when it was last
/// transmitted and one prebuilt frame per encoding symbol, each cleared when
/// that symbol is acknowledged.
pub struct FecSendSlot {
    pub last_sent: u64,
    pub frames: Vec<Option<Vec<u8>>>,
}

/// Ghost image of a [`FecSendSlot`].
pub ghost struct FecSendSlotV {
    pub last_sent: u64,
    pub frames: Seq<Option<Seq<u8>>>,
}

impl View for FecSendSlot {
    type V = FecSendSlotV;

    open spec fn view(&self) -> FecSendSlotV {
        FecSendSlotV { last_sent: self.last_sent, frames: self.frames.deep_view() }
    }
}

/// One slot of a receiving forward-error-correction ring.
pub enum FecRecvSlot {
    NotSeen,
    Receiving { decoder: FecDecoder },
    Received,
}

/// Ghost image of a [`FecRecvSlot`]: the decoder shrinks to the
/// source-symbol count it was created from.
pub ghost enum FecRecvSlotV {
    NotSeen,
    Receiving { nb_source_symbols: u32 },
    Received,
}

impl View for FecRecvSlot {
    type V = FecRecvSlotV;

    open spec fn view(&self) -> FecRecvSlotV {
        match *self {
            FecRecvSlot::NotSeen => FecRecvSlotV::NotSeen,
            FecRecvSlot::Receiving { ref decoder } => FecRecvSlotV::Receiving {
                nb_source_symbols: decoder.source_symbols(),
            },
            FecRecvSlot::Received => FecRecvSlotV::Received,
        }
    }
}

/// The state proper of a channel, one variant per discipline.
pub enum ChannelState {
    SendUnreliable,
    ReceiveUnreliable,
    SendReliable {
        resend_threshold_permille: u32,
        seq_counter: u64,
        base_seq: u64,
        slots: Vec<Option<SendSlot>>,
    },
    ReceiveReliable {
        pending_acks: Vec<u64>,
        base_seq: u64,
        seen: Vec<bool>,
    },
    SendFecReliable {
        resend_threshold_permille: u32,
        max_data_symbols: usize,
        max_repair_symbols: usize,
        seq_counter: u64,
        base_seq: u64,
        slots: Vec<Option<FecSendSlot>>,
    },
    ReceiveFecReliable {
        base_seq: u64,
        slots: Vec<FecRecvSlot>,
    },
}

/// Ghost image of a [`ChannelState`].
pub ghost enum ChannelV {
    SendUnreliable,
    ReceiveUnreliable,
    SendReliable { threshold_permille: u32, base_seq: u64, slots: Seq<Option<SendSlotV>> },
    ReceiveReliable { pending_acks: Seq<u64>, base_seq: u64, seen: Seq<bool> },
    SendFecReliable {
        threshold_permille: u32,
        max_data_symbols: usize,
        max_repair_symbols: usize,
        base_seq: u64,
        slots: Seq<Option<FecSendSlotV>>,
    },
    ReceiveFecReliable { base_seq: u64, slots: Seq<FecRecvSlotV> },
}

/// Lifts an optional slot to its ghost image.
pub open spec fn opt_slot_view(o: Option<SendSlot>) -> Option<SendSlotV> {
    match o {
        Some(s) => Some(s@),
        None => None,
    }
}

/// Lifts an optional forward-error-correction slot to its ghost image.
pub open spec fn opt_fec_slot_view(o: Option<FecSendSlot>) -> Option<FecSendSlotV> {
    match o {
        Some(s) => Some(s@),
        None => None,
    }
}

/// Trims a sending ring from the front: every leading acknowledged slot is
/// dropped and the base advances past it.
pub open spec fn trim_send<T>(base: int, slots: Seq<Option<T>>) -> (int, Seq<Option<T>>)
    decreases slots.len(),
{
    if slots.len() > 0 && slots[0] is None {
        trim_send(base + 1, slots.drop_first())
    } else {
        (base, slots)
    }
}

pub proof fn lemma_trim_send<T>(base: int, slots: Seq<Option<T>>)
    ensures
        ({
            let (b2, s2) = trim_send(base, slots);
            &&& base <= b2 <= base + slots.len()
            &&& s2 =~= slots.skip(b2 - base)
            &&& (s2.len() > 0 ==> s2[0] is Some)
        }),
    decreases slots.len(),
{
    if slots.len() > 0 && slots[0] is None {
        lemma_trim_send(base + 1, slots.drop_first());
        let (b2, s2) = trim_send(base, slots);
        assert(slots.drop_first().skip(b2 - base - 1) =~= slots.skip(b2 - base));
    }
}

/// Trims a reliable receiving ring: every leading delivered flag is dropped.
pub open spec fn trim_seen(base: int, seen: Seq<bool>) -> (int, Seq<bool>)
    decreases seen.len(),
{
    if seen.len() > 0 && seen[0] {
        trim_seen(base + 1, seen.drop_first())
    } else {
        (base, seen)
    }
}

pub proof fn lemma_trim_seen(base: int, seen: Seq<bool>)
    ensures
        ({
            let (b2, s2) = trim_seen(base, seen);
            &&& base <= b2 <= base + seen.len()
            &&& s2 =~= seen.skip(b2 - base)
            &&& (s2.len() > 0 ==> !s2[0])
        }),
    decreases seen.len(),
{
    if seen.len() > 0 && seen[0] {
        lemma_trim_seen(base + 1, seen.drop_first());
        let (b2, s2) = trim_seen(base, seen);
        assert(seen.drop_first().skip(b2 - base - 1) =~= seen.skip(b2 - base));
    }
}

/// Trims a forward-error-correction receiving ring: every leading decoded
/// slot is dropped.
pub open spec fn trim_fec(base: int, slots: Seq<FecRecvSlotV>) -> (int, Seq<FecRecvSlotV>)
    decreases slots.len(),
{
    if slots.len() > 0 && slots[0] is Received {
        trim_fec(base + 1, slots.drop_first())
    } else {
        (base, slots)
    }
}

pub proof fn lemma_trim_fec(base: int, slots: Seq<FecRecvSlotV>)
    ensures
        ({
            let (b2, s2) = trim_fec(base, slots);
            &&& base <= b2 <= base + slots.len()
            &&& s2 =~= slots.skip(b2 - base)
            &&& (s2.len() > 0 ==> !(s2[0] is Received))
        }),
    decreases slots.len(),
{
    if slots.len() > 0 && slots[0] is Received {
        lemma_trim_fec(base + 1, slots.drop_first());
        let (b2, s2) = trim_fec(base, slots);
        assert(slots.drop_first().skip(b2 - base - 1) =~= slots.skip(b2 - base));
    }
}

/// What an acknowledgement for sequence `s` does to a reliable sender:
/// acknowledgements outside the ring are ignored, one inside clears its slot
/// and the ring is trimmed.
pub open spec fn ack_apply(v: ChannelV, s: u64) -> ChannelV {
    match v {
        ChannelV::SendReliable { threshold_permille, base_seq, slots } => {
            if s < base_seq || s - base_seq >= slots.len() {
                v
            } else {
                let (b2, s2) = trim_send(base_seq as int, slots.update(s - base_seq, None));
                ChannelV::SendReliable { threshold_permille, base_seq: b2 as u64, slots: s2 }
            }
        },
        _ => v,
    }
}

/// A sequence of `n` cleared flags.
pub open spec fn falses(n: int) -> Seq<bool> {
    Seq::new(n as nat, |j: int| false)
}

/// What an inbound data frame for sequence `s` does to a reliable receiver:
/// the sequence is always queued for acknowledgement; the ring grows until
/// the slot for `s` exists; a first delivery marks it and trims the ring.
pub open spec fn reliable_recv_apply(v: ChannelV, s: u64) -> ChannelV {
    match v {
        ChannelV::ReceiveReliable { pending_acks, base_seq, seen } => {
            let acks = pending_acks.push(s);
            if s < base_seq {
                ChannelV::ReceiveReliable { pending_acks: acks, base_seq, seen }
            } else {
                let i = s - base_seq;
                let grown = if i < seen.len() {
                    seen
                } else {
                    seen + falses(i + 1 - seen.len())
                };
                if grown[i] {
                    ChannelV::ReceiveReliable { pending_acks: acks, base_seq, seen: grown }
                } else {
                    let (b2, s2) = trim_seen(base_seq as int, grown.update(i, true));
                    ChannelV::ReceiveReliable {
                        pending_acks: acks,
                        base_seq: b2 as u64,
                        seen: s2,
                    }
                }
            }
        },
        _ => v,
    }
}

/// A datagram image, for contracts.
pub open spec fn dgram(addr: PeerAddr, payload: Seq<u8>) -> DatagramV {
    DatagramV { addr, payload }
}

/// The frame of one reliable data packet: sequence, then payload.
pub open spec fn reliable_frame(seq: u64, payload: Seq<u8>) -> Seq<u8> {
    be_seq(seq as int, 8) + payload
}

/// The frame of one forward-error-correction data packet: sequence,
/// source-symbol count, symbol index, original message length, symbol bytes.
pub open spec fn fec_frame(seq: u64, nb_source_symbols: u32, index: u8, block_len: u16, symbol: Seq<u8>) -> Seq<u8> {
    be_seq(seq as int, 8) + be_seq(nb_source_symbols as int, 4) + seq![index] + be_seq(
        block_len as int,
        2,
    ) + symbol
}

/// The frames a forward-error-correction send builds for one message: one
/// per encoding symbol of the codec.
pub open spec fn fec_frames(data: Seq<u8>, max_data_symbols: usize, max_repair_symbols: usize, seq: u64) -> Seq<Seq<u8>> {
    let symbols = fec_symbols(data, max_data_symbols, max_repair_symbols);
    Seq::new(
        symbols.len(),
        |j: int| fec_frame(seq, max_data_symbols as u32, j as u8, data.len() as u16, symbols[j]),
    )
}

/// The frame of a whole-message acknowledgement: every symbol of `s` can be
/// forgotten.
pub open spec fn fec_whole_ack_frame(s: u64) -> Seq<u8> {
    seq![0u8] + be_seq(s as int, 8)
}

/// The frame of a single-symbol acknowledgement.
pub open spec fn fec_symbol_ack_frame(s: u64, index: u8) -> Seq<u8> {
    seq![1u8] + be_seq(s as int, 8) + seq![index]
}

/// What a whole-message acknowledgement does to a forward-error-correction
/// sender: the slot is cleared outright and the ring trimmed.
pub open spec fn fec_whole_ack_apply(v: ChannelV, s: u64) -> ChannelV {
    match v {
        ChannelV::SendFecReliable {
            threshold_permille,
            max_data_symbols,
            max_repair_symbols,
            base_seq,
            slots,
        } => {
            if s < base_seq || s - base_seq >= slots.len() {
                v
            } else {
                let (b2, s2) = trim_send(base_seq as int, slots.update(s - base_seq, None));
                ChannelV::SendFecReliable {
                    threshold_permille,
                    max_data_symbols,
                    max_repair_symbols,
                    base_seq: b2 as u64,
                    slots: s2,
                }
            }
        },
        _ => v,
    }
}

/// Whether every symbol frame of a slot has been acknowledged.
pub open spec fn all_frames_gone(frames: Seq<Option<Seq<u8>>>) -> bool {
    forall|q: int| 0 <= q < frames.len() ==> (#[trigger] frames[q]) is None
}

/// What a single-symbol acknowledgement does to a forward-error-correction
/// sender: the symbol's prebuilt frame is dropped; once the last one is gone
/// the slot is cleared and the ring trimmed.
pub open spec fn fec_symbol_ack_apply(v: ChannelV, s: u64, index: u8) -> ChannelV {
    match v {
        ChannelV::SendFecReliable {
            threshold_permille,
            max_data_symbols,
            max_repair_symbols,
            base_seq,
            slots,
        } => {
            if s < base_seq || s - base_seq >= slots.len() {
                v
            } else {
                match slots[s - base_seq] {
                    None => v,
                    Some(slot) => {
                        if index >= slot.frames.len() {
                            v
                        } else {
                            let cleared = FecSendSlotV {
                                last_sent: slot.last_sent,
                                frames: slot.frames.update(index as int, None),
                            };
                            if all_frames_gone(cleared.frames) {
                                let (b2, s2) = trim_send(
                                    base_seq as int,
                                    slots.update(s - base_seq, None),
                                );
                                ChannelV::SendFecReliable {
                                    threshold_permille,
                                    max_data_symbols,
                                    max_repair_symbols,
                                    base_seq: b2 as u64,
                                    slots: s2,
                                }
                            } else {
                                ChannelV::SendFecReliable {
                                    threshold_permille,
                                    max_data_symbols,
                                    max_repair_symbols,
                                    base_seq,
                                    slots: slots.update(s - base_seq, Some(cleared)),
                                }
                            }
                        }
                    },
                }
            }
        },
        _ => v,
    }
}

/// A sequence of `n` untouched slots.
pub open spec fn not_seens(n: int) -> Seq<FecRecvSlotV> {
    Seq::new(n as nat, |j: int| FecRecvSlotV::NotSeen)
}

/// Grows a receiving ring until the slot at offset `i` exists.
pub open spec fn fec_grow(slots: Seq<FecRecvSlotV>, i: int) -> Seq<FecRecvSlotV> {
    if i < slots.len() {
        slots
    } else {
        slots + not_seens(i + 1 - slots.len())
    }
}

/// Whether an in-flight slot is due for retransmission: its age exceeds
/// the average round trip scaled by the configured threshold.
pub open spec fn due_for_resend(last_sent: u64, now: u64, ping: u64, permille: u32) -> bool {
    (now - last_sent) * 1000 > ping * permille
}

/// The retransmissions one pass over a reliable sending ring produces, in
/// ring order: one data packet per due slot.
pub open spec fn resend_list(addr: PeerAddr, id: u8, base: u64, slots: Seq<Option<SendSlotV>>, now: u64, ping: u64, permille: u32) -> Seq<DatagramV>
    decreases slots.len(),
{
    if slots.len() == 0 {
        Seq::empty()
    } else {
        resend_list(addr, id, base, slots.drop_last(), now, ping, permille) + (match slots.last() {
            Some(sl) => {
                if due_for_resend(sl.last_sent, now, ping, permille) {
                    seq![
                        dgram(
                            addr,
                            channel_packet_bytes(
                                id,
                                reliable_frame((base + slots.len() - 1) as u64, sl.payload),
                            ),
                        ),
                    ]
                } else {
                    Seq::empty()
                }
            },
            None => Seq::empty(),
        })
    }
}

/// The packets of one forward-error-correction slot that are still owed:
/// one per unacknowledged symbol frame, in symbol order.
pub open spec fn fec_slot_packets(addr: PeerAddr, id: u8, frames: Seq<Option<Seq<u8>>>) -> Seq<DatagramV>
    decreases frames.len(),
{
    if frames.len() == 0 {
        Seq::empty()
    } else {
        fec_slot_packets(addr, id, frames.drop_last()) + (match frames.last() {
            Some(f) => seq![dgram(addr, channel_packet_bytes(id, f))],
            None => Seq::empty(),
        })
    }
}

/// The retransmissions one pass over a forward-error-correction sending
/// ring produces: every live symbol frame of every due slot.
pub open spec fn fec_resend_list(addr: PeerAddr, id: u8, slots: Seq<Option<FecSendSlotV>>, now: u64, ping: u64, permille: u32) -> Seq<DatagramV>
    decreases slots.len(),
{
    if slots.len() == 0 {
        Seq::empty()
    } else {
        fec_resend_list(addr, id, slots.drop_last(), now, ping, permille) + (match slots.last() {
            Some(sl) => {
                if due_for_resend(sl.last_sent, now, ping, permille) {
                    fec_slot_packets(addr, id, sl.frames)
                } else {
                    Seq::empty()
                }
            },
            None => Seq::empty(),
        })
    }
}

/// A sending slot after a pass at time `now`: a due slot keeps its payload
/// and is stamped with the new transmission time.
pub open spec fn resend_slot(o: Option<SendSlotV>, now: u64, ping: u64, permille: u32) -> Option<SendSlotV> {
    match o {
        Some(sl) => {
            if due_for_resend(sl.last_sent, now, ping, permille) {
                Some(SendSlotV { last_sent: now, payload: sl.payload })
            } else {
                o
            }
        },
        None => o,
    }
}

/// A forward-error-correction slot after a pass at time `now`.
pub open spec fn fec_resend_slot(o: Option<FecSendSlotV>, now: u64, ping: u64, permille: u32) -> Option<FecSendSlotV> {
    match o {
        Some(sl) => {
            if due_for_resend(sl.last_sent, now, ping, permille) {
                Some(FecSendSlotV { last_sent: now, frames: sl.frames })
            } else {
                o
            }
        },
        None => o,
    }
}

/// The acknowledgement packets a reliable receiver owes, one per queued
/// sequence, in the order the data arrived.
pub open spec fn ack_list(addr: PeerAddr, id: u8, pending: Seq<u64>) -> Seq<DatagramV> {
    pending.map_values(
        |s: u64| dgram(addr, channel_packet_bytes(id, be_seq(s as int, 8))),
    )
}

/// The state a successful send leaves behind: reliable senders append one
/// in-flight slot; everything else is unchanged.
pub open spec fn send_apply(v: ChannelV, msg: Seq<u8>, now: u64) -> ChannelV {
    match v {
        ChannelV::SendReliable { threshold_permille, base_seq, slots } => {
            ChannelV::SendReliable {
                threshold_permille,
                base_seq,
                slots: slots.push(Some(SendSlotV { last_sent: now, payload: msg })),
            }
        },
        ChannelV::SendFecReliable {
            threshold_permille,
            max_data_symbols,
            max_repair_symbols,
            base_seq,
            slots,
        } => {
            let frames = fec_frames(
                msg,
                max_data_symbols,
                max_repair_symbols,
                (base_seq + slots.len()) as u64,
            );
            ChannelV::SendFecReliable {
                threshold_permille,
                max_data_symbols,
                max_repair_symbols,
                base_seq,
                slots: slots.push(
                    Some(
                        FecSendSlotV {
                            last_sent: now,
                            frames: frames.map_values(|f: Seq<u8>| Some(f)),
                        },
                    ),
                ),
            }
        },
        _ => v,
    }
}

/// The packets a successful send transmits.
pub open spec fn send_out(v: ChannelV, addr: PeerAddr, id: u8, msg: Seq<u8>, now: u64) -> Seq<DatagramV> {
    match v {
        ChannelV::SendUnreliable => seq![dgram(addr, channel_packet_bytes(id, msg))],
        ChannelV::SendReliable { base_seq, slots, .. } => seq![
            dgram(
                addr,
                channel_packet_bytes(
                    id,
                    reliable_frame((base_seq + slots.len()) as u64, msg),
                ),
            ),
        ],
        ChannelV::SendFecReliable { max_data_symbols, max_repair_symbols, base_seq, slots, .. } => {
            fec_frames(
                msg,
                max_data_symbols,
                max_repair_symbols,
                (base_seq + slots.len()) as u64,
            ).map_values(|f: Seq<u8>| dgram(addr, channel_packet_bytes(id, f)))
        },
        _ => Seq::empty(),
    }
}

/// Whether two states belong to the same channel discipline with the same
/// static parameters.
pub open spec fn same_kind(a: ChannelV, b: ChannelV) -> bool {
    match a {
        ChannelV::SendUnreliable => b is SendUnreliable,
        ChannelV::ReceiveUnreliable => b is ReceiveUnreliable,
        ChannelV::SendReliable { threshold_permille, .. } => b matches ChannelV::SendReliable {
            threshold_permille: t2,
            ..
        } && t2 == threshold_permille,
        ChannelV::ReceiveReliable { .. } => b is ReceiveReliable,
        ChannelV::SendFecReliable { threshold_permille, max_data_symbols, max_repair_symbols, .. } => b matches ChannelV::SendFecReliable {
            threshold_permille: t2,
            max_data_symbols: d2,
            max_repair_symbols: r2,
            ..
        } && t2 == threshold_permille && d2 == max_data_symbols && r2 == max_repair_symbols,
        ChannelV::ReceiveFecReliable { .. } => b is ReceiveFecReliable,
    }
}

/// The state a channel's periodic pass leaves behind: senders stamp their
/// due slots, a reliable receiver forgets its queued acknowledgements.
pub open spec fn update_apply(v: ChannelV, ping: Option<u64>, now: u64) -> ChannelV {
    match v {
        ChannelV::SendReliable { threshold_permille, base_seq, slots } => {
            match ping {
                None => v,
                Some(p) => ChannelV::SendReliable {
                    threshold_permille,
                    base_seq,
                    slots: slots.map_values(
                        |o: Option<SendSlotV>| resend_slot(o, now, p, threshold_permille),
                    ),
                },
            }
        },
        ChannelV::ReceiveReliable { pending_acks, base_seq, seen } => {
            ChannelV::ReceiveReliable { pending_acks: Seq::empty(), base_seq, seen }
        },
        ChannelV::SendFecReliable {
            threshold_permille,
            max_data_symbols,
            max_repair_symbols,
            base_seq,
            slots,
        } => {
            match ping {
                None => v,
                Some(p) => ChannelV::SendFecReliable {
                    threshold_permille,
                    max_data_symbols,
                    max_repair_symbols,
                    base_seq,
                    slots: slots.map_values(
                        |o: Option<FecSendSlotV>| fec_resend_slot(o, now, p, threshold_permille),
                    ),
                },
            }
        },
        _ => v,
    }
}

/// The packets a channel's periodic pass transmits.
pub open spec fn update_out(v: ChannelV, addr: PeerAddr, id: u8, ping: Option<u64>, now: u64) -> Seq<DatagramV> {
    match v {
        ChannelV::SendReliable { threshold_permille, base_seq, slots } => {
            match ping {
                None => Seq::empty(),
                Some(p) => resend_list(addr, id, base_seq, slots, now, p, threshold_permille),
            }
        },
        ChannelV::ReceiveReliable { pending_acks, .. } => ack_list(addr, id, pending_acks),
        ChannelV::SendFecReliable { threshold_permille, slots, .. } => {
            match ping {
                None => Seq::empty(),
                Some(p) => fec_resend_list(addr, id, slots, now, p, threshold_permille),
            }
        },
        _ => Seq::empty(),
    }
}

/// Whether a slot of a receiving ring has already been decoded.
fn is_received(s: &FecRecvSlot) -> (r: bool)
    ensures
        r == (s@ is Received),
{
    match s {
        FecRecvSlot::Received => true,
        _ => false,
    }
}

/// Whether any symbol frame of a slot is still unacknowledged.
fn has_live_frame(frames: &Vec<Option<Vec<u8>>>) -> (r: bool)
    ensures
        r == !all_frames_gone(frames.deep_view()),
{
    let n = frames.len();
    let mut q: usize = 0;
    while q < n
        invariant
            q <= n == frames@.len(),
            forall|t: int| 0 <= t < q ==> (#[trigger] frames.deep_view()[t]) is None,
        decreases n - q,
    {
        if frames[q].is_some() {
            proof {
                assert(frames.deep_view()[q as int] is Some);
            }
            return true;
        }
        proof {
            assert(frames.deep_view()[q as int] is None);
        }
        q = q + 1;
    }
    false
}

/// One channel: where its packets go, which tag they carry, and its state.
pub struct Channel {
    pub addr: PeerAddr,
    pub channel_id: u8,
    pub state: ChannelState,
}

impl View for Channel {
    type V = ChannelV;

    open spec fn view(&self) -> ChannelV {
        match self.state {
            ChannelState::SendUnreliable => ChannelV::SendUnreliable,
            ChannelState::ReceiveUnreliable => ChannelV::ReceiveUnreliable,
            ChannelState::SendReliable {
                resend_threshold_permille,
                seq_counter: _,
                base_seq,
                ref slots,
            } => ChannelV::SendReliable {
                threshold_permille: resend_threshold_permille,
                base_seq,
                slots: slots@.map_values(|o: Option<SendSlot>| opt_slot_view(o)),
            },
            ChannelState::ReceiveReliable { ref pending_acks, base_seq, ref seen } => {
                ChannelV::ReceiveReliable { pending_acks: pending_acks@, base_seq, seen: seen@ }
            },
            ChannelState::SendFecReliable {
                resend_threshold_permille,
                max_data_symbols,
                max_repair_symbols,
                seq_counter: _,
                base_seq,
                ref slots,
            } => ChannelV::SendFecReliable {
                threshold_permille: resend_threshold_permille,
                max_data_symbols,
                max_repair_symbols,
                base_seq,
                slots: slots@.map_values(|o: Option<FecSendSlot>| opt_fec_slot_view(o)),
            },
            ChannelState::ReceiveFecReliable { base_seq, ref slots } => {
                ChannelV::ReceiveFecReliable {
                    base_seq,
                    slots: slots@.map_values(|s: FecRecvSlot| s@),
                }
            },
        }
    }
}

impl ChannelV {
    /// Structural soundness of a channel state: the ring never outruns the
    /// sequence space, the front slot is never terminal, and every live
    /// decoder is within the codec's bounds.
    pub open spec fn wf(self) -> bool {
        match self {
            ChannelV::SendUnreliable => true,
            ChannelV::ReceiveUnreliable => true,
            ChannelV::SendReliable { base_seq, slots, .. } => {
                &&& base_seq + slots.len() <= u64::MAX
                &&& (slots.len() > 0 ==> slots[0] is Some)
            },
            ChannelV::ReceiveReliable { base_seq, seen, .. } => {
                &&& base_seq + seen.len() <= u64::MAX
                &&& (seen.len() > 0 ==> seen[0] == false)
            },
            ChannelV::SendFecReliable { max_data_symbols, max_repair_symbols, base_seq, slots, .. } => {
                &&& base_seq + slots.len() <= u64::MAX
                &&& (slots.len() > 0 ==> slots[0] is Some)
                &&& 1 <= max_data_symbols
                &&& 1 <= max_repair_symbols
                &&& max_data_symbols + max_repair_symbols <= 255
            },
            ChannelV::ReceiveFecReliable { base_seq, slots } => {
                &&& base_seq + slots.len() <= u64::MAX
                &&& (slots.len() > 0 ==> !(slots[0] is Received))
                &&& forall|j: int|
                    0 <= j < slots.len() ==> ((#[trigger] slots[j]) matches
                    FecRecvSlotV::Receiving { nb_source_symbols } ==> 1 <= nb_source_symbols
                        <= 255)
            },
        }
    }

    /// The next sequence a sending ring will use.
    pub open spec fn next_seq(self) -> int {
        match self {
            ChannelV::SendReliable { base_seq, slots, .. } => base_seq + slots.len(),
            ChannelV::SendFecReliable { base_seq, slots, .. } => base_seq + slots.len(),
            _ => 0,
        }
    }

    /// Whether a reliable receiver has already delivered sequence `s`.
    pub open spec fn delivered(self, s: u64) -> bool {
        match self {
            ChannelV::ReceiveReliable { base_seq, seen, .. } => {
                s < base_seq || (s - base_seq < seen.len() && seen[s - base_seq])
            },
            _ => false,
        }
    }

    /// Whether a forward-error-correction receiver has already delivered
    /// sequence `s`.
    pub open spec fn fec_delivered(self, s: u64) -> bool {
        match self {
            ChannelV::ReceiveFecReliable { base_seq, slots } => {
                s < base_seq || (s - base_seq < slots.len() && slots[s - base_seq] is Received)
            },
            _ => false,
        }
    }

    /// All instants a channel remembers lie at or before `now`.
    pub open spec fn le_now(self, now: u64) -> bool {
        match self {
            ChannelV::SendReliable { slots, .. } => forall|j: int|
                0 <= j < slots.len() ==> ((#[trigger] slots[j]) matches Some(sl) ==> sl.last_sent
                    <= now),
            ChannelV::SendFecReliable { slots, .. } => forall|j: int|
                0 <= j < slots.len() ==> ((#[trigger] slots[j]) matches Some(sl) ==> sl.last_sent
                    <= now),
            _ => true,
        }
    }

    /// Every packet a channel may retransmit fits in `max` bytes.
    pub open spec fn fits(self, max: int) -> bool {
        match self {
            ChannelV::SendReliable { slots, .. } => forall|j: int|
                0 <= j < slots.len() ==> ((#[trigger] slots[j]) matches Some(sl) ==> 9
                    + sl.payload.len() <= max),
            ChannelV::SendFecReliable { slots, .. } => forall|j: int|
                0 <= j < slots.len() ==> ((#[trigger] slots[j]) matches Some(sl) ==> forall|p: int|
                    0 <= p < sl.frames.len() ==> ((#[trigger] sl.frames[p]) matches Some(f) ==> 1
                        + f.len() <= max)),
            _ => true,
        }
    }
}

impl Channel {
    /// The ring bookkeeping the ghost image cannot see: the stored sequence
    /// counter is exactly the ring base plus the ring length.
    pub open spec fn inv(self) -> bool {
        &&& self.channel_id <= 252
        &&& self@.wf()
        &&& match self.state {
            ChannelState::SendReliable { seq_counter, base_seq, ref slots, .. } => {
                seq_counter == base_seq + slots@.len()
            },
            ChannelState::SendFecReliable { seq_counter, base_seq, ref slots, .. } => {
                seq_counter == base_seq + slots@.len()
            },
            _ => true,
        }
    }

    /// The initial state a configuration gives rise to.
    pub open spec fn init_v(config: ChannelConfig) -> ChannelV {
        match config {
            ChannelConfig::SendUnreliable => ChannelV::SendUnreliable,
            ChannelConfig::ReceiveUnreliable => ChannelV::ReceiveUnreliable,
            ChannelConfig::SendReliable { resend_threshold_permille } => ChannelV::SendReliable {
                threshold_permille: resend_threshold_permille,
                base_seq: 0,
                slots: Seq::empty(),
            },
            ChannelConfig::ReceiveReliable => ChannelV::ReceiveReliable {
                pending_acks: Seq::empty(),
                base_seq: 0,
                seen: Seq::empty(),
            },
            ChannelConfig::SendFecReliable {
                resend_threshold_permille,
                max_data_symbols,
                max_repair_symbols,
            } => ChannelV::SendFecReliable {
                threshold_permille: resend_threshold_permille,
                max_data_symbols,
                max_repair_symbols,
                base_seq: 0,
                slots: Seq::empty(),
            },
            ChannelConfig::ReceiveFecReliable => ChannelV::ReceiveFecReliable {
                base_seq: 0,
                slots: Seq::empty(),
            },
        }
    }

    /// Sets up the state machine a configuration asks for, with every
    /// counter at zero and every ring empty.
    pub fn new(config: &ChannelConfig, channel_id: u8, addr: PeerAddr) -> (c: Channel)
        requires
            channel_id <= 252,
            config.wf(),
        ensures
            c.inv(),
            c.addr == addr,
            c.channel_id == channel_id,
            c@ == Self::init_v(*config),
    {
        let state = match *config {
            ChannelConfig::SendUnreliable => ChannelState::SendUnreliable,
            ChannelConfig::ReceiveUnreliable => ChannelState::ReceiveUnreliable,
            ChannelConfig::SendReliable { resend_threshold_permille } => {
                ChannelState::SendReliable {
                    resend_threshold_permille,
                    seq_counter: 0,
                    base_seq: 0,
                    slots: Vec::new(),
                }
            },
            ChannelConfig::ReceiveReliable => ChannelState::ReceiveReliable {
                pending_acks: Vec::new(),
                base_seq: 0,
                seen: Vec::new(),
            },
            ChannelConfig::SendFecReliable {
                resend_threshold_permille,
                max_data_symbols,
                max_repair_symbols,
            } => ChannelState::SendFecReliable {
                resend_threshold_permille,
                max_data_symbols,
                max_repair_symbols,
                seq_counter: 0,
                base_seq: 0,
                slots: Vec::new(),
            },
            ChannelConfig::ReceiveFecReliable => ChannelState::ReceiveFecReliable {
                base_seq: 0,
                slots: Vec::new(),
            },
        };
        let c = Channel { addr, channel_id, state };
        proof {
            assert(c@ == Self::init_v(*config)) by {
                match *config {
                    ChannelConfig::SendReliable { .. } => {
                        assert(c@->SendReliable_slots =~= Seq::<Option<SendSlotV>>::empty());
                    },
                    ChannelConfig::SendFecReliable { .. } => {
                        assert(c@->SendFecReliable_slots =~= Seq::<Option<FecSendSlotV>>::empty());
                    },
                    ChannelConfig::ReceiveFecReliable => {
                        assert(c@->ReceiveFecReliable_slots =~= Seq::<FecRecvSlotV>::empty());
                    },
                    _ => {},
                }
            }
        }
        c
    }

    /// Sends one application message on this channel: composes its packets,
    /// hands them to `out` for transmission, and on the reliable disciplines
    /// retains what a retransmission will need.
    pub fn send(&mut self, message: &[u8], now: u64, max_message_size: usize, out: &mut Vec<Datagram>) -> (r:
        Result<(), Error>)
        requires
            old(self).inv(),
            old(self)@.next_seq() < u64::MAX,
        ensures
            final(self).inv(),
            final(self).addr == old(self).addr,
            final(self).channel_id == old(self).channel_id,
            old(self)@.le_now(now) ==> final(self)@.le_now(now),
            old(self)@.fits(max_message_size as int) ==> final(self)@.fits(
                max_message_size as int,
            ),
            r is Err ==> *final(self) == *old(self) && *final(out) == *old(out),
            match old(self)@ {
                ChannelV::ReceiveUnreliable | ChannelV::ReceiveReliable { .. }
                    | ChannelV::ReceiveFecReliable { .. } => {
                    &&& r == Err::<(), Error>(Error::SendOnReceiveChannel)
                    &&& final(self)@ == old(self)@
                    &&& final(out).deep_view() == old(out).deep_view()
                },
                ChannelV::SendUnreliable => {
                    if 1 + message@.len() <= max_message_size {
                        &&& r is Ok
                        &&& final(self)@ == old(self)@
                        &&& final(out).deep_view() == old(out).deep_view().push(
                            dgram(
                                old(self).addr,
                                channel_packet_bytes(old(self).channel_id, message@),
                            ),
                        )
                    } else {
                        &&& r == Err::<(), Error>(Error::MessageTooLong)
                        &&& final(self)@ == old(self)@
                        &&& final(out).deep_view() == old(out).deep_view()
                    }
                },
                ChannelV::SendReliable { threshold_permille, base_seq, slots } => {
                    let seq = (base_seq + slots.len()) as u64;
                    if 9 + message@.len() <= max_message_size {
                        &&& r is Ok
                        &&& final(self)@ == (ChannelV::SendReliable {
                            threshold_permille,
                            base_seq,
                            slots: slots.push(
                                Some(SendSlotV { last_sent: now, payload: message@ }),
                            ),
                        })
                        &&& final(out).deep_view() == old(out).deep_view().push(
                            dgram(
                                old(self).addr,
                                channel_packet_bytes(
                                    old(self).channel_id,
                                    reliable_frame(seq, message@),
                                ),
                            ),
                        )
                    } else {
                        &&& r == Err::<(), Error>(Error::MessageTooLong)
                        &&& final(self)@ == old(self)@
                        &&& final(out).deep_view() == old(out).deep_view()
                    }
                },
                ChannelV::SendFecReliable {
                    threshold_permille,
                    max_data_symbols,
                    max_repair_symbols,
                    base_seq,
                    slots,
                } => {
                    let seq = (base_seq + slots.len()) as u64;
                    let frames = fec_frames(message@, max_data_symbols, max_repair_symbols, seq);
                    &&& (r is Ok ==> {
                        &&& message@.len() <= 65535
                        &&& frames.len() <= 255
                        &&& final(self)@ == (ChannelV::SendFecReliable {
                            threshold_permille,
                            max_data_symbols,
                            max_repair_symbols,
                            base_seq,
                            slots: slots.push(
                                Some(
                                    FecSendSlotV {
                                        last_sent: now,
                                        frames: frames.map_values(|f: Seq<u8>| Some(f)),
                                    },
                                ),
                            ),
                        })
                        &&& final(out).deep_view() == old(out).deep_view() + frames.map_values(
                            |f: Seq<u8>|
                                dgram(
                                    old(self).addr,
                                    channel_packet_bytes(old(self).channel_id, f),
                                ),
                        )
                        &&& (forall|j: int|
                            0 <= j < frames.len() ==> 1 + (#[trigger] frames[j]).len()
                                <= max_message_size)
                    })
                    &&& (r is Err ==> {
                        &&& final(self)@ == old(self)@
                        &&& final(out).deep_view() == old(out).deep_view()
                        &&& (r == Err::<(), Error>(Error::MessageTooLong) || r == Err::<(
                        ), Error>(Error::FecEncode))
                    })
                    &&& (message@.len() > 65535 ==> r == Err::<(), Error>(Error::MessageTooLong))
                },
            },
    {
        let id = self.channel_id;
        let addr = self.addr;
        match &mut self.state {
            ChannelState::ReceiveUnreliable => Err(Error::SendOnReceiveChannel),
            ChannelState::ReceiveReliable { .. } => Err(Error::SendOnReceiveChannel),
            ChannelState::ReceiveFecReliable { .. } => Err(Error::SendOnReceiveChannel),
            ChannelState::SendUnreliable => {
                if max_message_size < 1 || message.len() > max_message_size - 1 {
                    return Err(Error::MessageTooLong);
                }
                let mut p: Vec<u8> = Vec::new();
                p.push(id + 3);
                append_bytes(&mut p, message);
                proof {
                    assert(p@ =~= channel_packet_bytes(id, message@));
                }
                out.push(Datagram { addr, payload: p });
                proof {
                    assert(out.deep_view() =~~= old(out).deep_view().push(
                        dgram(addr, channel_packet_bytes(id, message@)),
                    ));
                }
                Ok(())
            },
            ChannelState::SendReliable { seq_counter, base_seq, slots, .. } => {
                if max_message_size < 9 || message.len() > max_message_size - 9 {
                    return Err(Error::MessageTooLong);
                }
                let seq: u64 = *seq_counter;
                let mut p: Vec<u8> = Vec::new();
                p.push(id + 3);
                proof {
                    lemma_pow256_small();
                }
                write_be(&mut p, seq as u128, 8);
                append_bytes(&mut p, message);
                proof {
                    assert(p@ =~= channel_packet_bytes(id, reliable_frame(seq, message@)));
                }
                out.push(Datagram { addr, payload: p });
                let payload = slice_suffix(message, 0);
                proof {
                    assert(payload@ =~= message@);
                }
                let ghost view0 = slots@.map_values(|o: Option<SendSlot>| opt_slot_view(o));
                slots.push(Some(SendSlot { last_sent: now, payload }));
                *seq_counter = *seq_counter + 1;
                proof {
                    assert(slots@.map_values(|o: Option<SendSlot>| opt_slot_view(o)) =~= view0.push(
                        Some(SendSlotV { last_sent: now, payload: message@ }),
                    ));
                    assert(out.deep_view() =~~= old(out).deep_view().push(
                        dgram(addr, channel_packet_bytes(id, reliable_frame(seq, message@))),
                    ));
                }
                Ok(())
            },
            ChannelState::SendFecReliable {
                max_data_symbols,
                max_repair_symbols,
                seq_counter,
                base_seq,
                slots,
                ..
            } => {
                if message.len() > 65535 {
                    return Err(Error::MessageTooLong);
                }
                let encoded = encode_block(message, *max_data_symbols, *max_repair_symbols);
                let (symbols, nb_source) = match encoded {
                    Some(pair) => pair,
                    None => {
                        return Err(Error::FecEncode);
                    },
                };
                let seq: u64 = *seq_counter;
                let block_len: u16 = message.len() as u16;
                let n = symbols.len();
                let ghost gframes = fec_frames(
                    message@,
                    *max_data_symbols,
                    *max_repair_symbols,
                    seq,
                );
                let mut frames: Vec<Option<Vec<u8>>> = Vec::new();
                let mut packets: Vec<Datagram> = Vec::new();
                let mut j: usize = 0;
                #[verifier::loop_isolation(false)]
                while j < n
                    invariant
                        j <= n == symbols@.len(),
                        n <= 255,
                        symbols.deep_view() == fec_symbols(
                            message@,
                            *max_data_symbols,
                            *max_repair_symbols,
                        ),
                        gframes == fec_frames(
                            message@,
                            *max_data_symbols,
                            *max_repair_symbols,
                            seq,
                        ),
                        gframes.len() == n,
                        message@.len() <= 65535,
                        block_len == message@.len(),
                        frames.deep_view() =~= gframes.take(j as int).map_values(
                            |f: Seq<u8>| Some(f),
                        ),
                        forall|q: int|
                            0 <= q < n ==> (#[trigger] symbols.deep_view()[q]).len()
                                <= message@.len(),
                        packets.deep_view() =~= gframes.take(j as int).map_values(
                            |f: Seq<u8>| dgram(addr, channel_packet_bytes(id, f)),
                        ),
                        forall|q: int|
                            0 <= q < j ==> 1 + (#[trigger] gframes[q]).len() <= max_message_size,
                        id <= 252,
                    decreases n - j,
                {
                    let symbol = &symbols[j];
                    let mut f: Vec<u8> = Vec::new();
                    proof {
                        lemma_pow256_small();
                        assert(symbol@ == symbols.deep_view()[j as int]);
                    }
                    write_be(&mut f, seq as u128, 8);
                    write_be(&mut f, nb_source as u128, 4);
                    f.push(j as u8);
                    write_be(&mut f, block_len as u128, 2);
                    append_bytes(&mut f, symbol.as_slice());
                    proof {
                        assert(f@ =~= gframes[j as int]);
                    }
                    if max_message_size < 1 || f.len() > max_message_size - 1 {
                        return Err(Error::MessageTooLong);
                    }
                    let mut p: Vec<u8> = Vec::new();
                    p.push(id + 3);
                    append_bytes(&mut p, f.as_slice());
                    proof {
                        assert(p@ =~= channel_packet_bytes(id, gframes[j as int]));
                    }
                    packets.push(Datagram { addr, payload: p });
                    frames.push(Some(f));
                    j = j + 1;
                    proof {
                        let jm = j as int;
                        assert(gframes.take(jm) =~= gframes.take(jm - 1).push(gframes[jm - 1]));
                        assert forall|t: int| 0 <= t < jm implies frames.deep_view()[t]
                            == gframes.take(jm).map_values(|f: Seq<u8>| Some(f))[t] by {
                            if t < jm - 1 {
                                assert(frames.deep_view()[t] == gframes.take(jm - 1).map_values(
                                    |f: Seq<u8>| Some(f),
                                )[t]);
                            }
                        }
                        assert(frames.deep_view() =~~= gframes.take(jm).map_values(
                            |f: Seq<u8>| Some(f),
                        ));
                        assert forall|t: int| 0 <= t < jm implies packets.deep_view()[t]
                            == gframes.take(jm).map_values(
                            |f: Seq<u8>| dgram(addr, channel_packet_bytes(id, f)),
                        )[t] by {
                            if t < jm - 1 {
                                assert(packets.deep_view()[t] == gframes.take(jm - 1).map_values(
                                    |f: Seq<u8>| dgram(addr, channel_packet_bytes(id, f)),
                                )[t]);
                            }
                        }
                        assert(packets.deep_view() =~~= gframes.take(jm).map_values(
                            |f: Seq<u8>| dgram(addr, channel_packet_bytes(id, f)),
                        ));
                    }
                }
                proof {
                    assert(gframes.take(n as int) =~= gframes);
                }
                out.append(&mut packets);
                let ghost view0 = slots@.map_values(|o: Option<FecSendSlot>| opt_fec_slot_view(o));
                slots.push(Some(FecSendSlot { last_sent: now, frames }));
                *seq_counter = *seq_counter + 1;
                proof {
                    assert(slots@.map_values(|o: Option<FecSendSlot>| opt_fec_slot_view(o))
                        =~~= view0.push(
                        Some(
                            FecSendSlotV {
                                last_sent: now,
                                frames: gframes.map_values(|f: Seq<u8>| Some(f)),
                            },
                        ),
                    ));
                    assert(out.deep_view() =~~= old(out).deep_view() + gframes.map_values(
                        |f: Seq<u8>| dgram(addr, channel_packet_bytes(id, f)),
                    ));
                }
                Ok(())
            },
        }
    }

    /// Handles one inbound frame addressed to this channel. On sending
    /// channels the frame is an acknowledgement; on receiving channels it is
    /// data, and the messages it delivers (at most one) are returned.
    #[verifier::rlimit(100)]
    pub fn receive(&mut self, frame: &[u8], max_message_size: usize, out: &mut Vec<Datagram>) -> (r:
        Result<Vec<Vec<u8>>, Error>)
        requires
            old(self).inv(),
        ensures
            final(self).inv(),
            final(self).addr == old(self).addr,
            final(self).channel_id == old(self).channel_id,
            forall|s: u64| old(self)@.delivered(s) ==> final(self)@.delivered(s),
            forall|s: u64| old(self)@.fec_delivered(s) ==> final(self)@.fec_delivered(s),
            forall|t: u64| old(self)@.le_now(t) ==> final(self)@.le_now(t),
            old(self)@.fits(max_message_size as int) ==> final(self)@.fits(
                max_message_size as int,
            ),
            match old(self)@ {
                ChannelV::SendUnreliable => {
                    &&& final(self)@ == old(self)@
                    &&& final(out).deep_view() == old(out).deep_view()
                    &&& (r matches Ok(v) && v.deep_view() =~= Seq::<Seq<u8>>::empty())
                },
                ChannelV::ReceiveUnreliable => {
                    &&& final(self)@ == old(self)@
                    &&& final(out).deep_view() == old(out).deep_view()
                    &&& (r matches Ok(v) && v.deep_view() =~= seq![frame@])
                },
                ChannelV::SendReliable { .. } => {
                    &&& final(out).deep_view() == old(out).deep_view()
                    &&& (r matches Ok(v) && v.deep_view() =~= Seq::<Seq<u8>>::empty())
                    &&& (if frame@.len() >= 8 {
                        final(self)@ == ack_apply(
                            old(self)@,
                            be_val(frame@.take(8)) as u64,
                        )
                    } else {
                        final(self)@ == old(self)@
                    })
                },
                ChannelV::ReceiveReliable { base_seq, pending_acks, seen } => {
                    &&& final(out).deep_view() == old(out).deep_view()
                    &&& (if frame@.len() < 8 {
                        final(self)@ == old(self)@ && (r matches Ok(v) && v.deep_view()
                            =~= Seq::<Seq<u8>>::empty())
                    } else {
                        let s = be_val(frame@.take(8)) as u64;
                        if s >= base_seq && (s == u64::MAX || s - base_seq >= usize::MAX) {
                            // The ring cannot reach this slot on this machine.
                            final(self)@ == (ChannelV::ReceiveReliable {
                                pending_acks: pending_acks.push(s),
                                base_seq,
                                seen,
                            }) && (r matches Ok(v) && v.deep_view()
                                =~= Seq::<Seq<u8>>::empty())
                        } else {
                            final(self)@ == reliable_recv_apply(old(self)@, s) && (r matches
                            Ok(v) && (if old(self)@.delivered(s) {
                                v.deep_view() =~= Seq::<Seq<u8>>::empty()
                            } else {
                                v.deep_view() =~= seq![frame@.skip(8)]
                            })) && final(self)@.delivered(s)
                        }
                    })
                },
                ChannelV::SendFecReliable { .. } => {
                    &&& final(out).deep_view() == old(out).deep_view()
                    &&& (r matches Ok(v) && v.deep_view() =~= Seq::<Seq<u8>>::empty())
                    &&& (if frame@.len() >= 9 && frame@[0] == 0 {
                        final(self)@ == fec_whole_ack_apply(
                            old(self)@,
                            be_val(frame@.subrange(1, 9)) as u64,
                        )
                    } else if frame@.len() >= 10 && frame@[0] == 1 {
                        final(self)@ == fec_symbol_ack_apply(
                            old(self)@,
                            be_val(frame@.subrange(1, 9)) as u64,
                            frame@[9],
                        )
                    } else {
                        final(self)@ == old(self)@
                    })
                },
                ChannelV::ReceiveFecReliable { base_seq, slots } => {
                    if frame@.len() < 15 {
                        &&& final(self)@ == old(self)@
                        &&& final(out).deep_view() == old(out).deep_view()
                        &&& (r matches Ok(v) && v.deep_view() =~= Seq::<Seq<u8>>::empty())
                    } else {
                        let s = be_val(frame@.subrange(0, 8)) as u64;
                        let k = be_val(frame@.subrange(8, 12)) as u32;
                        let index = frame@[12];
                        let blen = be_val(frame@.subrange(13, 15)) as u16;
                        let sym_ack = dgram(
                            old(self).addr,
                            channel_packet_bytes(
                                old(self).channel_id,
                                fec_symbol_ack_frame(s, index),
                            ),
                        );
                        let whole_ack = dgram(
                            old(self).addr,
                            channel_packet_bytes(old(self).channel_id, fec_whole_ack_frame(s)),
                        );
                        if s < base_seq {
                            &&& final(self)@ == old(self)@
                            &&& (if 10 <= max_message_size {
                                (r matches Ok(v) && v.deep_view()
                                    =~= Seq::<Seq<u8>>::empty()) && final(out).deep_view() == old(out).deep_view().push(whole_ack)
                            } else {
                                r == Err::<Vec<Vec<u8>>, Error>(Error::MessageTooLong) && final(out).deep_view() == old(out).deep_view()
                            })
                        } else if k == 0 || k > 255 || s == u64::MAX || s - base_seq
                            >= usize::MAX {
                            &&& final(self)@ == old(self)@
                            &&& final(out).deep_view() == old(out).deep_view()
                            &&& (r matches Ok(v) && v.deep_view() =~= Seq::<Seq<u8>>::empty())
                        } else if max_message_size < 11 {
                            &&& final(self)@ == old(self)@
                            &&& final(out).deep_view() == old(out).deep_view()
                            &&& r == Err::<Vec<Vec<u8>>, Error>(Error::MessageTooLong)
                        } else {
                            let i = (s - base_seq) as int;
                            let grown = fec_grow(slots, i);
                            if grown[i] is Received {
                                &&& final(self)@ == (ChannelV::ReceiveFecReliable {
                                    base_seq,
                                    slots: grown,
                                })
                                &&& final(out).deep_view() == old(out).deep_view().push(
                                    sym_ack,
                                ).push(whole_ack)
                                &&& (r matches Ok(v) && v.deep_view()
                                    =~= Seq::<Seq<u8>>::empty())
                            } else {
                                let k2 = if grown[i] is Receiving {
                                    grown[i]->Receiving_nb_source_symbols
                                } else {
                                    k
                                };
                                &&& (r matches Ok(v) ==> (if v@.len() == 0 {
                                    final(self)@ == (ChannelV::ReceiveFecReliable {
                                        base_seq,
                                        slots: grown.update(
                                            i,
                                            FecRecvSlotV::Receiving { nb_source_symbols: k2 },
                                        ),
                                    }) && final(out).deep_view() == old(out).deep_view().push(
                                        sym_ack,
                                    )
                                } else {
                                    let (b2, s2) = trim_fec(
                                        base_seq as int,
                                        grown.update(i, FecRecvSlotV::Received),
                                    );
                                    {
                                        &&& v@.len() == 1
                                        &&& v.deep_view()[0].len() == blen
                                        &&& final(self)@ == (ChannelV::ReceiveFecReliable {
                                            base_seq: b2 as u64,
                                            slots: s2,
                                        })
                                        &&& final(out).deep_view() == old(out).deep_view().push(sym_ack).push(whole_ack)
                                        &&& final(self)@.fec_delivered(s)
                                    }
                                }))
                                &&& r is Ok
                            }
                        }
                    }
                },
            },
    {
        let id = self.channel_id;
        let addr = self.addr;
        match &mut self.state {
            ChannelState::SendUnreliable => Ok(Vec::new()),
            ChannelState::ReceiveUnreliable => {
                let whole = slice_suffix(frame, 0);
                proof {
                    assert(frame@.skip(0) =~= frame@);
                }
                let mut v: Vec<Vec<u8>> = Vec::new();
                v.push(whole);
                proof {
                    assert(v.deep_view() =~~= seq![frame@]);
                }
                Ok(v)
            },
            ChannelState::SendReliable { base_seq, slots, .. } => {
                if frame.len() < 8 {
                    return Ok(Vec::new());
                }
                let s128 = read_be(frame, 0, 8);
                proof {
                    lemma_pow256_small();
                    lemma_be_seq_of_be_val(frame@.subrange(0, 8));
                    assert(frame@.subrange(0, 8) =~= frame@.take(8));
                }
                let s = s128 as u64;
                if s < *base_seq {
                    return Ok(Vec::new());
                }
                let i = s - *base_seq;
                if i >= slots.len() as u64 {
                    return Ok(Vec::new());
                }
                let iu = i as usize;
                let ghost view0 = slots@.map_values(|o: Option<SendSlot>| opt_slot_view(o));
                slots[iu] = None;
                let ghost cleared = slots@.map_values(|o: Option<SendSlot>| opt_slot_view(o));
                proof {
                    assert(cleared =~= view0.update(i as int, None));
                }
                let ghost b0 = *base_seq;
                while slots.len() > 0 && slots[0].is_none()
                    invariant
                        b0 <= *base_seq,
                        *base_seq + slots@.len() <= u64::MAX,
                        trim_send(b0 as int, cleared) == trim_send(
                            *base_seq as int,
                            slots@.map_values(|o: Option<SendSlot>| opt_slot_view(o)),
                        ),
                    decreases slots@.len(),
                {
                    let ghost pre = slots@.map_values(|o: Option<SendSlot>| opt_slot_view(o));
                    let _ = slots.remove(0);
                    *base_seq = *base_seq + 1;
                    proof {
                        assert(slots@.map_values(|o: Option<SendSlot>| opt_slot_view(o))
                            =~= pre.drop_first());
                    }
                }
                proof {
                    lemma_trim_send(b0 as int, cleared);
                }
                Ok(Vec::new())
            },
            ChannelState::ReceiveReliable { pending_acks, base_seq, seen } => {
                if frame.len() < 8 {
                    return Ok(Vec::new());
                }
                let s128 = read_be(frame, 0, 8);
                proof {
                    lemma_pow256_small();
                    lemma_be_seq_of_be_val(frame@.subrange(0, 8));
                    assert(frame@.subrange(0, 8) =~= frame@.take(8));
                }
                let s = s128 as u64;
                pending_acks.push(s);
                if s < *base_seq {
                    return Ok(Vec::new());
                }
                let i = s - *base_seq;
                if s == u64::MAX || i >= usize::MAX as u64 {
                    return Ok(Vec::new());
                }
                let iu = i as usize;
                let ghost seen0 = seen@;
                while seen.len() <= iu
                    invariant
                        iu < usize::MAX,
                        seen0.len() > iu ==> seen@ == seen0,
                        seen0.len() <= iu ==> seen@.len() <= iu + 1,
                        seen0.len() <= seen@.len(),
                        seen@ =~= seen0 + falses(seen@.len() - seen0.len()),
                        *base_seq + iu + 1 <= u64::MAX,
                    decreases iu + 1 - seen@.len(),
                {
                    seen.push(false);
                    proof {
                        assert(seen@ =~= seen0 + falses(seen@.len() - seen0.len()));
                    }
                }
                let ghost grown = seen@;
                proof {
                    if i < seen0.len() {
                        assert(grown =~= seen0);
                    } else {
                        assert(grown =~= seen0 + falses(i + 1 - seen0.len()));
                    }
                }
                if seen[iu] {
                    return Ok(Vec::new());
                }
                seen[iu] = true;
                let ghost set = seen@;
                proof {
                    assert(set =~= grown.update(i as int, true));
                }
                let ghost b0 = *base_seq;
                while seen.len() > 0 && seen[0]
                    invariant
                        b0 <= *base_seq,
                        *base_seq + seen@.len() <= u64::MAX,
                        trim_seen(b0 as int, set) == trim_seen(*base_seq as int, seen@),
                    decreases seen@.len(),
                {
                    let ghost pre = seen@;
                    let _ = seen.remove(0);
                    *base_seq = *base_seq + 1;
                    proof {
                        assert(seen@ =~= pre.drop_first());
                    }
                }
                proof {
                    lemma_trim_seen(b0 as int, set);
                }
                let payload = slice_suffix(frame, 8);
                let mut v: Vec<Vec<u8>> = Vec::new();
                v.push(payload);
                proof {
                    assert(v.deep_view() =~~= seq![frame@.skip(8)]);
                }
                Ok(v)
            },
            ChannelState::SendFecReliable { base_seq, slots, .. } => {
                if frame.len() == 0 {
                    return Ok(Vec::new());
                }
                let tag = frame[0];
                if tag == 0 {
                    if frame.len() < 9 {
                        return Ok(Vec::new());
                    }
                    let s128 = read_be(frame, 1, 8);
                    proof {
                        lemma_pow256_small();
                        lemma_be_seq_of_be_val(frame@.subrange(1, 9));
                    }
                    let s = s128 as u64;
                    if s < *base_seq {
                        return Ok(Vec::new());
                    }
                    let i = s - *base_seq;
                    if i >= slots.len() as u64 {
                        return Ok(Vec::new());
                    }
                    let iu = i as usize;
                    let ghost view0 = slots@.map_values(
                        |o: Option<FecSendSlot>| opt_fec_slot_view(o),
                    );
                    slots[iu] = None;
                    let ghost cleared = slots@.map_values(
                        |o: Option<FecSendSlot>| opt_fec_slot_view(o),
                    );
                    proof {
                        assert(cleared =~= view0.update(i as int, None));
                    }
                    let ghost b0 = *base_seq;
                    while slots.len() > 0 && slots[0].is_none()
                        invariant
                            b0 <= *base_seq,
                            *base_seq + slots@.len() <= u64::MAX,
                            trim_send(b0 as int, cleared) == trim_send(
                                *base_seq as int,
                                slots@.map_values(|o: Option<FecSendSlot>| opt_fec_slot_view(o)),
                            ),
                        decreases slots@.len(),
                    {
                        let ghost pre = slots@.map_values(
                            |o: Option<FecSendSlot>| opt_fec_slot_view(o),
                        );
                        let _ = slots.remove(0);
                        *base_seq = *base_seq + 1;
                        proof {
                            assert(slots@.map_values(|o: Option<FecSendSlot>| opt_fec_slot_view(o))
                                =~= pre.drop_first());
                        }
                    }
                    proof {
                        lemma_trim_send(b0 as int, cleared);
                    }
                    Ok(Vec::new())
                } else if tag == 1 {
                    if frame.len() < 10 {
                        return Ok(Vec::new());
                    }
                    let s128 = read_be(frame, 1, 8);
                    proof {
                        lemma_pow256_small();
                        lemma_be_seq_of_be_val(frame@.subrange(1, 9));
                    }
                    let s = s128 as u64;
                    let index = frame[9];
                    if s < *base_seq {
                        return Ok(Vec::new());
                    }
                    let i = s - *base_seq;
                    if i >= slots.len() as u64 {
                        return Ok(Vec::new());
                    }
                    let iu = i as usize;
                    let ghost view0 = slots@.map_values(
                        |o: Option<FecSendSlot>| opt_fec_slot_view(o),
                    );
                    let mut clear_slot = false;
                    let slot = &mut slots[iu];
                    match slot {
                        Option::None => {},
                        Option::Some(fs) => {
                            if (index as usize) < fs.frames.len() {
                                fs.frames[index as usize] = None;
                                proof {
                                    assert(fs.frames.deep_view() =~~= view0[i as int]
                                        ->Some_0.frames.update(index as int, None));
                                }
                                if !has_live_frame(&fs.frames) {
                                    clear_slot = true;
                                }
                            }
                        },
                    }
                    if clear_slot {
                        let ghost mid = slots@.map_values(
                            |o: Option<FecSendSlot>| opt_fec_slot_view(o),
                        );
                        slots[iu] = None;
                        let ghost cleared = slots@.map_values(
                            |o: Option<FecSendSlot>| opt_fec_slot_view(o),
                        );
                        proof {
                            assert(cleared =~= view0.update(i as int, None));
                        }
                        let ghost b0 = *base_seq;
                        while slots.len() > 0 && slots[0].is_none()
                            invariant
                                b0 <= *base_seq,
                                *base_seq + slots@.len() <= u64::MAX,
                                trim_send(b0 as int, cleared) == trim_send(
                                    *base_seq as int,
                                    slots@.map_values(
                                        |o: Option<FecSendSlot>| opt_fec_slot_view(o),
                                    ),
                                ),
                            decreases slots@.len(),
                        {
                            let ghost pre = slots@.map_values(
                                |o: Option<FecSendSlot>| opt_fec_slot_view(o),
                            );
                            let _ = slots.remove(0);
                            *base_seq = *base_seq + 1;
                            proof {
                                assert(slots@.map_values(
                                    |o: Option<FecSendSlot>| opt_fec_slot_view(o),
                                ) =~= pre.drop_first());
                            }
                        }
                        proof {
                            lemma_trim_send(b0 as int, cleared);
                        }
                    } else {
                        proof {
                            let cur = slots@.map_values(
                                |o: Option<FecSendSlot>| opt_fec_slot_view(o),
                            );
                            assert(cur =~~= fec_symbol_ack_apply(old(self)@, s, index)
                                ->SendFecReliable_slots);
                        }
                    }
                    Ok(Vec::new())
                } else {
                    Ok(Vec::new())
                }
            },
            ChannelState::ReceiveFecReliable { base_seq, slots } => {
                if frame.len() < 15 {
                    return Ok(Vec::new());
                }
                let s128 = read_be(frame, 0, 8);
                let k128 = read_be(frame, 8, 4);
                let index = frame[12];
                let blen128 = read_be(frame, 13, 2);
                proof {
                    lemma_pow256_small();
                    lemma_be_seq_of_be_val(frame@.subrange(0, 8));
                    lemma_be_seq_of_be_val(frame@.subrange(8, 12));
                    lemma_be_seq_of_be_val(frame@.subrange(13, 15));
                }
                let s = s128 as u64;
                let k = k128 as u32;
                let blen = blen128 as u16;
                if s < *base_seq {
                    // The message was delivered long ago: squash the
                    // sender's retries with a whole-message acknowledgement.
                    if max_message_size < 10 {
                        return Err(Error::MessageTooLong);
                    }
                    let mut p: Vec<u8> = Vec::new();
                    p.push(id + 3);
                    p.push(0u8);
                    write_be(&mut p, s as u128, 8);
                    proof {
                        assert(p@ =~= channel_packet_bytes(id, fec_whole_ack_frame(s)));
                    }
                    out.push(Datagram { addr, payload: p });
                    proof {
                        assert(out.deep_view() =~~= old(out).deep_view().push(
                            dgram(addr, channel_packet_bytes(id, fec_whole_ack_frame(s))),
                        ));
                    }
                    return Ok(Vec::new());
                }
                if k == 0 || k > 255 {
                    return Ok(Vec::new());
                }
                let i = s - *base_seq;
                if s == u64::MAX || i >= usize::MAX as u64 {
                    return Ok(Vec::new());
                }
                if max_message_size < 11 {
                    return Err(Error::MessageTooLong);
                }
                let iu = i as usize;
                let mut p: Vec<u8> = Vec::new();
                p.push(id + 3);
                p.push(1u8);
                write_be(&mut p, s as u128, 8);
                p.push(index);
                proof {
                    assert(p@ =~= channel_packet_bytes(id, fec_symbol_ack_frame(s, index)));
                }
                out.push(Datagram { addr, payload: p });
                let ghost slots0 = slots@.map_values(|t: FecRecvSlot| t@);
                while slots.len() <= iu
                    invariant
                        iu < usize::MAX,
                        slots0.len() <= slots@.len(),
                        slots0.len() > iu ==> slots@.map_values(|t: FecRecvSlot| t@) == slots0,
                        slots0.len() <= iu ==> slots@.len() <= iu + 1,
                        slots@.map_values(|t: FecRecvSlot| t@) =~= slots0 + not_seens(
                            slots@.len() - slots0.len(),
                        ),
                        *base_seq + iu + 1 <= u64::MAX,
                    decreases iu + 1 - slots@.len(),
                {
                    let ghost pre = slots@.map_values(|t: FecRecvSlot| t@);
                    slots.push(FecRecvSlot::NotSeen);
                    proof {
                        assert(slots@.map_values(|t: FecRecvSlot| t@) =~= pre.push(
                            FecRecvSlotV::NotSeen,
                        ));
                        assert(slots@.map_values(|t: FecRecvSlot| t@) =~= slots0 + not_seens(
                            slots@.len() - slots0.len(),
                        ));
                    }
                }
                let ghost grown = slots@.map_values(|t: FecRecvSlot| t@);
                proof {
                    assert(grown =~= fec_grow(slots0, i as int));
                }
                if is_received(&slots[iu]) {
                    let mut p2: Vec<u8> = Vec::new();
                    p2.push(id + 3);
                    p2.push(0u8);
                    write_be(&mut p2, s as u128, 8);
                    proof {
                        assert(p2@ =~= channel_packet_bytes(id, fec_whole_ack_frame(s)));
                    }
                    out.push(Datagram { addr, payload: p2 });
                    proof {
                        assert(out.deep_view() =~~= old(out).deep_view().push(
                            dgram(addr, channel_packet_bytes(id, fec_symbol_ack_frame(s, index))),
                        ).push(dgram(addr, channel_packet_bytes(id, fec_whole_ack_frame(s)))));
                        assert(slots@.map_values(|t: FecRecvSlot| t@) == grown);
                    }
                    return Ok(Vec::new());
                }
                let start_fresh = match &slots[iu] {
                    FecRecvSlot::NotSeen => true,
                    _ => false,
                };
                if start_fresh {
                    slots[iu] = FecRecvSlot::Receiving { decoder: FecDecoder::new(k) };
                }
                let ghost k2 = slots@.map_values(|t: FecRecvSlot| t@)[i as int]
                    ->Receiving_nb_source_symbols;
                proof {
                    assert(slots@.map_values(|t: FecRecvSlot| t@) =~= grown.update(
                        i as int,
                        FecRecvSlotV::Receiving { nb_source_symbols: k2 },
                    ));
                }
                let mut symbol = slice_suffix(frame, 15);
                let mut decoded: Option<Vec<u8>> = None;
                let slot = &mut slots[iu];
                match slot {
                    FecRecvSlot::Receiving { decoder } => {
                        proof {
                            assert(decoder.wf());
                        }
                        let kd = decoder.source_count();
                        // The longest partition piece of the claimed length:
                        // the decoder may only reconstruct what the pushed
                        // symbols can support, so short symbols are padded
                        // with zero bytes (the codec works over byte-wise
                        // XOR, where trailing zeroes change no value) and a
                        // reconstruction is attempted only once every pushed
                        // symbol covers the pieces it asks for.
                        let need: usize = ((blen as usize) + (kd as usize) - 1) / (kd as usize);
                        while symbol.len() < need
                            decreases need - symbol@.len(),
                        {
                            symbol.push(0u8);
                        }
                        decoder.push_symbol(symbol.as_slice(), index as u32);
                        if decoder.fully_specified() {
                            if decoder.min_len() >= need {
                                proof {
                                    assert(need as int == crate::fec::piece_len(
                                        blen as int,
                                        kd as int,
                                    ));
                                }
                                decoded = decoder.decode(blen);
                            }
                        }
                    },
                    _ => {},
                }
                proof {
                    assert(slots@.map_values(|t: FecRecvSlot| t@) =~= grown.update(
                        i as int,
                        FecRecvSlotV::Receiving { nb_source_symbols: k2 },
                    ));
                }
                match decoded {
                    Option::None => Ok(Vec::new()),
                    Option::Some(message) => {
                        slots[iu] = FecRecvSlot::Received;
                        let ghost marked = slots@.map_values(|t: FecRecvSlot| t@);
                        proof {
                            assert(marked =~= grown.update(i as int, FecRecvSlotV::Received));
                        }
                        let mut p2: Vec<u8> = Vec::new();
                        p2.push(id + 3);
                        p2.push(0u8);
                        write_be(&mut p2, s as u128, 8);
                        proof {
                            assert(p2@ =~= channel_packet_bytes(id, fec_whole_ack_frame(s)));
                        }
                        out.push(Datagram { addr, payload: p2 });
                        let ghost b0 = *base_seq;
                        while slots.len() > 0 && is_received(&slots[0])
                            invariant
                                b0 <= *base_seq,
                                *base_seq + slots@.len() <= u64::MAX,
                                trim_fec(b0 as int, marked) == trim_fec(
                                    *base_seq as int,
                                    slots@.map_values(|t: FecRecvSlot| t@),
                                ),
                            decreases slots@.len(),
                        {
                            let ghost pre = slots@.map_values(|t: FecRecvSlot| t@);
                            let _ = slots.remove(0);
                            *base_seq = *base_seq + 1;
                            proof {
                                assert(slots@.map_values(|t: FecRecvSlot| t@)
                                    =~= pre.drop_first());
                            }
                        }
                        proof {
                            lemma_trim_fec(b0 as int, marked);
                            assert(out.deep_view() =~~= old(out).deep_view().push(
                                dgram(
                                    addr,
                                    channel_packet_bytes(id, fec_symbol_ack_frame(s, index)),
                                ),
                            ).push(dgram(addr, channel_packet_bytes(id, fec_whole_ack_frame(s)))));
                        }
                        let mut v: Vec<Vec<u8>> = Vec::new();
                        v.push(message);
                        Ok(v)
                    },
                }
            },
        }
    }

    /// Periodic work for this channel: a reliable sender retransmits every
    /// slot older than the round-trip threshold (once a round-trip average
    /// exists), a reliable receiver flushes its queued acknowledgements.
    #[verifier::rlimit(60)]
    pub fn update(&mut self, ping: Option<u64>, now: u64, max_message_size: usize, out: &mut Vec<Datagram>) -> (r:
        Result<(), Error>)
        requires
            old(self).inv(),
            old(self)@.le_now(now),
            old(self)@.fits(max_message_size as int),
        ensures
            final(self).inv(),
            final(self)@.le_now(now),
            final(self)@.fits(max_message_size as int),
            final(self).addr == old(self).addr,
            final(self).channel_id == old(self).channel_id,
            same_kind(old(self)@, final(self)@),
            forall|s: u64| old(self)@.delivered(s) ==> final(self)@.delivered(s),
            forall|s: u64| old(self)@.fec_delivered(s) ==> final(self)@.fec_delivered(s),
            match old(self)@ {
                ChannelV::SendUnreliable | ChannelV::ReceiveUnreliable
                    | ChannelV::ReceiveFecReliable { .. } => {
                    &&& final(self)@ == old(self)@
                    &&& final(out).deep_view() == old(out).deep_view()
                    &&& r is Ok
                },
                ChannelV::SendReliable { threshold_permille, base_seq, slots } => {
                    match ping {
                        None => {
                            &&& final(self)@ == old(self)@
                            &&& final(out).deep_view() == old(out).deep_view()
                            &&& r is Ok
                        },
                        Some(p) => {
                            &&& r is Ok
                            &&& final(self)@ == (ChannelV::SendReliable {
                                threshold_permille,
                                base_seq,
                                slots: slots.map_values(
                                    |o: Option<SendSlotV>| resend_slot(
                                        o,
                                        now,
                                        p,
                                        threshold_permille,
                                    ),
                                ),
                            })
                            &&& final(out).deep_view() == old(out).deep_view() + resend_list(
                                old(self).addr,
                                old(self).channel_id,
                                base_seq,
                                slots,
                                now,
                                p,
                                threshold_permille,
                            )
                        },
                    }
                },
                ChannelV::ReceiveReliable { pending_acks, base_seq, seen } => {
                    if pending_acks.len() > 0 && max_message_size < 9 {
                        &&& r == Err::<(), Error>(Error::MessageTooLong)
                        &&& final(self)@ == (ChannelV::ReceiveReliable {
                            pending_acks: Seq::empty(),
                            base_seq,
                            seen,
                        })
                        &&& final(out).deep_view() == old(out).deep_view()
                    } else {
                        &&& r is Ok
                        &&& final(self)@ == (ChannelV::ReceiveReliable {
                            pending_acks: Seq::empty(),
                            base_seq,
                            seen,
                        })
                        &&& final(out).deep_view() == old(out).deep_view() + ack_list(
                            old(self).addr,
                            old(self).channel_id,
                            pending_acks,
                        )
                    }
                },
                ChannelV::SendFecReliable {
                    threshold_permille,
                    max_data_symbols,
                    max_repair_symbols,
                    base_seq,
                    slots,
                } => {
                    match ping {
                        None => {
                            &&& final(self)@ == old(self)@
                            &&& final(out).deep_view() == old(out).deep_view()
                            &&& r is Ok
                        },
                        Some(p) => {
                            &&& r is Ok
                            &&& final(self)@ == (ChannelV::SendFecReliable {
                                threshold_permille,
                                max_data_symbols,
                                max_repair_symbols,
                                base_seq,
                                slots: slots.map_values(
                                    |o: Option<FecSendSlotV>| fec_resend_slot(
                                        o,
                                        now,
                                        p,
                                        threshold_permille,
                                    ),
                                ),
                            })
                            &&& final(out).deep_view() == old(out).deep_view() + fec_resend_list(
                                old(self).addr,
                                old(self).channel_id,
                                slots,
                                now,
                                p,
                                threshold_permille,
                            )
                        },
                    }
                },
            },
    {
        let id = self.channel_id;
        let addr = self.addr;
        match &mut self.state {
            ChannelState::SendUnreliable => Ok(()),
            ChannelState::ReceiveUnreliable => Ok(()),
            ChannelState::ReceiveFecReliable { .. } => Ok(()),
            ChannelState::SendReliable { resend_threshold_permille, base_seq, slots, .. } => {
                let p = match ping {
                    Some(p) => p,
                    None => {
                        return Ok(());
                    },
                };
                let permille: u32 = *resend_threshold_permille;
                let base: u64 = *base_seq;
                let n = slots.len();
                let ghost gslots = slots@.map_values(|o: Option<SendSlot>| opt_slot_view(o));
                let mut j: usize = 0;
                #[verifier::loop_isolation(false)]
                while j < n
                    invariant
                        j <= n,
                        slots@.len() == n,
                        forall|q: int|
                            j <= q < n ==> slots@.map_values(
                                |o: Option<SendSlot>| opt_slot_view(o),
                            )[q] == gslots[q],
                        forall|q: int|
                            0 <= q < j ==> slots@.map_values(
                                |o: Option<SendSlot>| opt_slot_view(o),
                            )[q] == resend_slot(gslots[q], now, p, permille),
                        out.deep_view() =~= old(out).deep_view() + resend_list(
                            addr,
                            id,
                            base,
                            gslots.take(j as int),
                            now,
                            p,
                            permille,
                        ),
                    decreases n - j,
                {
                    proof {
                        assert(gslots.take(j + 1).drop_last() =~= gslots.take(j as int));
                    }
                    let mut packet: Option<Datagram> = None;
                    match &slots[j] {
                        Option::None => {},
                        Option::Some(sl) => {
                            proof {
                                assert(gslots[j as int] == opt_slot_view(slots@[j as int]));
                            }
                            let elapsed: u64 = now - sl.last_sent;
                            proof {
                                vstd::arithmetic::mul::lemma_mul_upper_bound(
                                    p as int,
                                    u64::MAX as int,
                                    permille as int,
                                    u32::MAX as int,
                                );
                            }
                            if (elapsed as u128) * 1000 > (p as u128) * (permille as u128) {
                                let seq_j: u64 = base + (j as u64);
                                let mut b: Vec<u8> = Vec::new();
                                b.push(id + 3);
                                proof {
                                    lemma_pow256_small();
                                }
                                write_be(&mut b, seq_j as u128, 8);
                                append_bytes(&mut b, sl.payload.as_slice());
                                proof {
                                    assert(b@ =~= channel_packet_bytes(
                                        id,
                                        reliable_frame(seq_j, sl.payload@),
                                    ));
                                }
                                packet = Some(Datagram { addr, payload: b });
                            }
                        },
                    }
                    match packet {
                        Option::None => {},
                        Option::Some(d) => {
                            let ghost predeep = out.deep_view();
                            let ghost dv = d.deep_view();
                            out.push(d);
                            proof {
                                assert(out.deep_view() =~~= predeep.push(dv));
                            }
                            let slot = &mut slots[j];
                            match slot {
                                Option::Some(sl) => {
                                    sl.last_sent = now;
                                },
                                Option::None => {},
                            }
                        },
                    }
                    j = j + 1;
                    proof {
                        assert(out.deep_view() =~~= old(out).deep_view() + resend_list(
                            addr,
                            id,
                            base,
                            gslots.take(j as int),
                            now,
                            p,
                            permille,
                        ));
                    }
                }
                proof {
                    assert(gslots.take(n as int) =~= gslots);
                    assert(slots@.map_values(|o: Option<SendSlot>| opt_slot_view(o))
                        =~~= gslots.map_values(
                        |o: Option<SendSlotV>| resend_slot(o, now, p, permille),
                    ));
                }
                Ok(())
            },
            ChannelState::ReceiveReliable { pending_acks, .. } => {
                let m = pending_acks.len();
                if m > 0 && max_message_size < 9 {
                    pending_acks.clear();
                    return Err(Error::MessageTooLong);
                }
                let ghost gacks = pending_acks@;
                let mut j: usize = 0;
                #[verifier::loop_isolation(false)]
                while j < m
                    invariant
                        j <= m,
                        pending_acks@ == gacks,
                        gacks.len() == m,
                        out.deep_view() =~= old(out).deep_view() + ack_list(
                            addr,
                            id,
                            gacks.take(j as int),
                        ),
                    decreases m - j,
                {
                    let s: u64 = pending_acks[j];
                    let mut b: Vec<u8> = Vec::new();
                    b.push(id + 3);
                    proof {
                        lemma_pow256_small();
                    }
                    write_be(&mut b, s as u128, 8);
                    proof {
                        assert(b@ =~= channel_packet_bytes(id, be_seq(s as int, 8)));
                    }
                    let ghost predeep = out.deep_view();
                    out.push(Datagram { addr, payload: b });
                    j = j + 1;
                    proof {
                        assert(out.deep_view() =~~= predeep.push(
                            dgram(addr, channel_packet_bytes(id, be_seq(s as int, 8))),
                        ));
                        assert(gacks.take(j as int) =~= gacks.take(j - 1).push(gacks[j - 1]));
                        assert(ack_list(addr, id, gacks.take(j as int)) =~~= ack_list(
                            addr,
                            id,
                            gacks.take(j - 1),
                        ).push(dgram(addr, channel_packet_bytes(id, be_seq(s as int, 8)))));
                        assert(out.deep_view() =~~= old(out).deep_view() + ack_list(
                            addr,
                            id,
                            gacks.take(j as int),
                        ));
                    }
                }
                pending_acks.clear();
                proof {
                    assert(gacks.take(m as int) =~= gacks);
                }
                Ok(())
            },
            ChannelState::SendFecReliable {
                resend_threshold_permille,
                base_seq,
                slots,
                ..
            } => {
                let p = match ping {
                    Some(p) => p,
                    None => {
                        return Ok(());
                    },
                };
                let permille: u32 = *resend_threshold_permille;
                let n = slots.len();
                let ghost gslots = slots@.map_values(
                    |o: Option<FecSendSlot>| opt_fec_slot_view(o),
                );
                let mut j: usize = 0;
                #[verifier::loop_isolation(false)]
                while j < n
                    invariant
                        j <= n,
                        slots@.len() == n,
                        forall|q: int|
                            j <= q < n ==> slots@.map_values(
                                |o: Option<FecSendSlot>| opt_fec_slot_view(o),
                            )[q] == gslots[q],
                        forall|q: int|
                            0 <= q < j ==> slots@.map_values(
                                |o: Option<FecSendSlot>| opt_fec_slot_view(o),
                            )[q] == fec_resend_slot(gslots[q], now, p, permille),
                        out.deep_view() =~= old(out).deep_view() + fec_resend_list(
                            addr,
                            id,
                            gslots.take(j as int),
                            now,
                            p,
                            permille,
                        ),
                    decreases n - j,
                {
                    proof {
                        assert(gslots.take(j + 1).drop_last() =~= gslots.take(j as int));
                    }
                    let mut is_due = false;
                    match &slots[j] {
                        Option::None => {},
                        Option::Some(sl) => {
                            proof {
                                assert(gslots[j as int] == opt_fec_slot_view(slots@[j as int]));
                            }
                            let elapsed: u64 = now - sl.last_sent;
                            proof {
                                vstd::arithmetic::mul::lemma_mul_upper_bound(
                                    p as int,
                                    u64::MAX as int,
                                    permille as int,
                                    u32::MAX as int,
                                );
                            }
                            if (elapsed as u128) * 1000 > (p as u128) * (permille as u128) {
                                is_due = true;
                                let nf = sl.frames.len();
                                let ghost gframes = sl.frames.deep_view();
                                let mut q: usize = 0;
                                #[verifier::loop_isolation(false)]
                                while q < nf
                                    invariant
                                        q <= nf,
                                        sl.frames@.len() == nf,
                                        sl.frames.deep_view() == gframes,
                                        out.deep_view() =~= old(out).deep_view()
                                            + fec_resend_list(
                                            addr,
                                            id,
                                            gslots.take(j as int),
                                            now,
                                            p,
                                            permille,
                                        ) + fec_slot_packets(addr, id, gframes.take(q as int)),
                                    decreases nf - q,
                                {
                                    proof {
                                        assert(gframes.take(q + 1).drop_last() =~= gframes.take(
                                            q as int,
                                        ));
                                    }
                                    match &sl.frames[q] {
                                        Option::None => {},
                                        Option::Some(f) => {
                                            proof {
                                                assert(gframes[q as int] matches Some(gf) && gf
                                                    == f@);
                                            }
                                            let mut b: Vec<u8> = Vec::new();
                                            b.push(id + 3);
                                            append_bytes(&mut b, f.as_slice());
                                            proof {
                                                assert(b@ =~= channel_packet_bytes(id, f@));
                                            }
                                            let ghost predeep = out.deep_view();
                                            out.push(Datagram { addr, payload: b });
                                            proof {
                                                assert(out.deep_view() =~~= predeep.push(
                                                    dgram(addr, channel_packet_bytes(id, f@)),
                                                ));
                                            }
                                        },
                                    }
                                    q = q + 1;
                                    proof {
                                        assert(out.deep_view() =~~= old(out).deep_view()
                                            + fec_resend_list(
                                            addr,
                                            id,
                                            gslots.take(j as int),
                                            now,
                                            p,
                                            permille,
                                        ) + fec_slot_packets(addr, id, gframes.take(q as int)));
                                    }
                                }
                                proof {
                                    assert(gframes.take(nf as int) =~= gframes);
                                }
                            }
                        },
                    }
                    if is_due {
                        let slot = &mut slots[j];
                        match slot {
                            Option::Some(sl) => {
                                sl.last_sent = now;
                            },
                            Option::None => {},
                        }
                    }
                    j = j + 1;
                    proof {
                        assert(out.deep_view() =~~= old(out).deep_view() + fec_resend_list(
                            addr,
                            id,
                            gslots.take(j as int),
                            now,
                            p,
                            permille,
                        ));
                    }
                }
                proof {
                    assert(gslots.take(n as int) =~= gslots);
                    assert(slots@.map_values(|o: Option<FecSendSlot>| opt_fec_slot_view(o))
                        =~~= gslots.map_values(
                        |o: Option<FecSendSlotV>| fec_resend_slot(o, now, p, permille),
                    ));
                }
                Ok(())
            },
        }
    }
}

} // verus!
