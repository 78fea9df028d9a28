//! Laws of the channel state machines, proved over their ghost transitions.
//!
//! The executable channel operations tie themselves to the spec transitions
//! (`ack_apply`, `reliable_recv_apply`, the trims) in their contracts; the
//! lemmas here state what those transitions guarantee across whole runs:
//! duplicate suppression, idempotent acknowledgements, and that a composed
//! data frame survives the trip back into sequence number and payload.

use vstd::prelude::*;

use crate::channel::{
    ack_apply, all_frames_gone, fec_symbol_ack_apply, fec_whole_ack_apply, lemma_trim_seen,
    lemma_trim_send, reliable_frame, reliable_recv_apply, trim_seen, trim_send, ChannelV,
    FecSendSlotV,
};
use crate::wire::{be_val, lemma_be_val_of_be_seq, lemma_pow256_small};

verus! {

/// One receive step of a reliable receiver, abstractly: delivery is never
/// forgotten, and a step that emits sequence `s` starts with `s`
/// undelivered and ends with it delivered.
pub open spec fn recv_step_ok(pre: ChannelV, post: ChannelV, emitted: Option<u64>) -> bool {
    &&& (forall|t: u64| pre.delivered(t) ==> post.delivered(t))
    &&& (emitted matches Some(s) ==> !pre.delivered(s) && post.delivered(s))
}

/// What an inbound data frame does to a reliable receiver is such a step:
/// it emits the frame's payload exactly when the sequence was undelivered,
/// and afterwards the sequence counts as delivered either way.
pub proof fn lemma_reliable_recv_step(v: ChannelV, s: u64)
    requires
        v is ReceiveReliable,
        v.wf(),
        s < u64::MAX,
    ensures
        recv_step_ok(
            v,
            reliable_recv_apply(v, s),
            if v.delivered(s) {
                None
            } else {
                Some(s)
            },
        ),
        reliable_recv_apply(v, s).delivered(s),
{
    let post = reliable_recv_apply(v, s);
    let base = v->ReceiveReliable_base_seq;
    let seen = v->ReceiveReliable_seen;
    if s >= base {
        let i = s - base;
        let grown = if i < seen.len() {
            seen
        } else {
            seen + crate::channel::falses(i + 1 - seen.len())
        };
        assert(forall|t: u64| v.delivered(t) ==> t < base || (t - base < grown.len() && grown[
            t - base
        ]));
        if !grown[i as int] {
            let set = grown.update(i as int, true);
            lemma_trim_seen(base as int, set);
            let (b2, s2) = trim_seen(base as int, set);
            assert forall|t: u64| v.delivered(t) implies post.delivered(t) by {
                if t >= base {
                    assert(t - base < seen.len() && seen[t - base]);
                    assert(grown[t - base] == seen[t - base]);
                    assert(set[t - base]);
                    if t >= b2 {
                        assert(s2[t - b2] == set.skip(b2 - base)[t - b2]);
                        assert(set.skip(b2 - base)[t - b2] == set[t - base]);
                    }
                }
            }
            assert(post.delivered(s)) by {
                if s >= b2 {
                    assert(s2[s - b2] == set.skip(b2 - base)[s - b2]);
                    assert(set.skip(b2 - base)[s - b2] == set[i as int]);
                }
            }
        }
    }
}

/// Delivery persists over any run of valid receive steps.
pub proof fn lemma_delivered_persists(states: Seq<ChannelV>, emitted: Seq<Option<u64>>, a: int, b: int, s: u64)
    requires
        states.len() == emitted.len() + 1,
        forall|k: int|
            0 <= k < emitted.len() ==> recv_step_ok(states[k], states[k + 1], #[trigger] emitted[k]),
        0 <= a <= b <= emitted.len(),
        states[a].delivered(s),
    ensures
        states[b].delivered(s),
    decreases b - a,
{
    if a < b {
        assert(recv_step_ok(states[a], states[a + 1], emitted[a]));
        lemma_delivered_persists(states, emitted, a + 1, b, s);
    }
}

/// Duplicate suppression: over any run of valid receive steps — arbitrary
/// replay and reordering of inbound datagrams included — no sequence number
/// is emitted twice.
pub proof fn lemma_duplicate_suppression(states: Seq<ChannelV>, emitted: Seq<Option<u64>>, i: int, j: int, s: u64)
    requires
        states.len() == emitted.len() + 1,
        forall|k: int|
            0 <= k < emitted.len() ==> recv_step_ok(states[k], states[k + 1], #[trigger] emitted[k]),
        0 <= i < j < emitted.len(),
        emitted[i] == Some(s),
    ensures
        emitted[j] != Some(s),
{
    assert(recv_step_ok(states[i], states[i + 1], emitted[i]));
    assert(states[i + 1].delivered(s));
    lemma_delivered_persists(states, emitted, i + 1, j, s);
    assert(recv_step_ok(states[j], states[j + 1], emitted[j]));
}

/// Acknowledgement idempotence for a reliable sender: a replayed
/// acknowledgement changes nothing.
pub proof fn lemma_ack_idempotent(v: ChannelV, s: u64)
    requires
        v.wf(),
    ensures
        ack_apply(ack_apply(v, s), s) == ack_apply(v, s),
{
    match v {
        ChannelV::SendReliable { threshold_permille, base_seq, slots } => {
            if s >= base_seq && s - base_seq < slots.len() {
                let cleared = slots.update(s - base_seq, None);
                lemma_trim_send(base_seq as int, cleared);
                let (b2, s2) = trim_send(base_seq as int, cleared);
                let mid = ack_apply(v, s);
                if s >= b2 && s - (b2 as u64) < s2.len() {
                    assert(s2[s - b2] == cleared[s - base_seq]);
                    assert(s2.update(s - b2, None) =~= s2);
                    lemma_trim_send(b2, s2.update(s - b2, None));
                    assert(trim_send(b2, s2) == (b2, s2));
                    assert(ack_apply(mid, s) == mid);
                }
            }
        },
        _ => {},
    }
}

/// Acknowledgement idempotence for the whole-message acknowledgement of a
/// forward-error-correction sender.
pub proof fn lemma_fec_whole_ack_idempotent(v: ChannelV, s: u64)
    requires
        v.wf(),
    ensures
        fec_whole_ack_apply(fec_whole_ack_apply(v, s), s) == fec_whole_ack_apply(v, s),
{
    match v {
        ChannelV::SendFecReliable { base_seq, slots, .. } => {
            if s >= base_seq && s - base_seq < slots.len() {
                let cleared = slots.update(s - base_seq, None);
                lemma_trim_send(base_seq as int, cleared);
                let (b2, s2) = trim_send(base_seq as int, cleared);
                let mid = fec_whole_ack_apply(v, s);
                if s >= b2 && s - (b2 as u64) < s2.len() {
                    assert(s2[s - b2] == cleared[s - base_seq]);
                    assert(s2.update(s - b2, None) =~= s2);
                    lemma_trim_send(b2, s2.update(s - b2, None));
                    assert(trim_send(b2, s2) == (b2, s2));
                    assert(fec_whole_ack_apply(mid, s) == mid);
                }
            }
        },
        _ => {},
    }
}

/// Acknowledgement idempotence for the single-symbol acknowledgement of a
/// forward-error-correction sender.
pub proof fn lemma_fec_symbol_ack_idempotent(v: ChannelV, s: u64, index: u8)
    requires
        v.wf(),
    ensures
        fec_symbol_ack_apply(fec_symbol_ack_apply(v, s, index), s, index) == fec_symbol_ack_apply(
            v,
            s,
            index,
        ),
{
    match v {
        ChannelV::SendFecReliable { base_seq, slots, .. } => {
            let mid = fec_symbol_ack_apply(v, s, index);
            if s >= base_seq && s - base_seq < slots.len() {
                match slots[s - base_seq] {
                    None => {},
                    Some(slot) => {
                        if index < slot.frames.len() {
                            let cleared = FecSendSlotV {
                                last_sent: slot.last_sent,
                                frames: slot.frames.update(index as int, None),
                            };
                            if all_frames_gone(cleared.frames) {
                                let removed = slots.update(s - base_seq, None);
                                lemma_trim_send(base_seq as int, removed);
                                let (b2, s2) = trim_send(base_seq as int, removed);
                                if s >= b2 && s - (b2 as u64) < s2.len() {
                                    assert(s2[s - b2] == removed[s - base_seq]);
                                    assert(s2[s - b2] is None);
                                }
                            } else {
                                let kept = slots.update(s - base_seq, Some(cleared));
                                assert(kept[s - base_seq] == Some(cleared));
                                assert(cleared.frames.update(index as int, None)
                                    =~= cleared.frames);
                                let cleared2 = FecSendSlotV {
                                    last_sent: cleared.last_sent,
                                    frames: cleared.frames.update(index as int, None),
                                };
                                assert(cleared2 == cleared);
                                assert(kept.update(s - base_seq, Some(cleared2)) =~= kept);
                                assert(fec_symbol_ack_apply(mid, s, index) == mid);
                            }
                        }
                    },
                }
            }
        },
        _ => {},
    }
}

/// Ring extent after a receive: the ring never forgets its place. The base
/// plus the ring length afterwards is the highest observed sequence plus
/// one — it grows exactly to cover a new high sequence and otherwise stays.
pub proof fn lemma_ring_extent(v: ChannelV, s: u64)
    requires
        v is ReceiveReliable,
        v.wf(),
        s < u64::MAX,
    ensures
        ({
            let post = reliable_recv_apply(v, s);
            let before = v->ReceiveReliable_base_seq + v->ReceiveReliable_seen.len();
            let after = post->ReceiveReliable_base_seq + post->ReceiveReliable_seen.len();
            after == if s + 1 > before {
                s + 1
            } else {
                before
            }
        }),
{
    let base = v->ReceiveReliable_base_seq;
    let seen = v->ReceiveReliable_seen;
    if s >= base {
        let i = s - base;
        let grown = if i < seen.len() {
            seen
        } else {
            seen + crate::channel::falses(i + 1 - seen.len())
        };
        if !grown[i as int] {
            let set = grown.update(i as int, true);
            lemma_trim_seen(base as int, set);
        }
    }
}

/// Exactly-once delivery of one reliable message, as far as safety can say
/// it: over a run in which every step hands the receiver a copy of the data
/// frame for sequence `s` — the retransmissions of one send — the first
/// copy is emitted and every later copy is suppressed.
pub proof fn lemma_reliable_exactly_once(states: Seq<ChannelV>, emitted: Seq<Option<u64>>, s: u64)
    requires
        states.len() == emitted.len() + 1,
        emitted.len() >= 1,
        s < u64::MAX,
        forall|k: int| 0 <= k < states.len() ==> (#[trigger] states[k]) is ReceiveReliable,
        forall|k: int| 0 <= k < states.len() ==> (#[trigger] states[k]).wf(),
        forall|k: int|
            0 <= k < emitted.len() ==> states[k + 1] == reliable_recv_apply(
                #[trigger] states[k],
                s,
            ),
        forall|k: int|
            0 <= k < emitted.len() ==> #[trigger] emitted[k] == (if states[k].delivered(s) {
                None
            } else {
                Some(s)
            }),
        !states[0].delivered(s),
    ensures
        emitted[0] == Some(s),
        forall|j: int| 1 <= j < emitted.len() ==> #[trigger] emitted[j] != Some(s),
{
    assert forall|k: int| 0 <= k < emitted.len() implies recv_step_ok(
        states[k],
        states[k + 1],
        #[trigger] emitted[k],
    ) by {
        lemma_reliable_recv_step(states[k], s);
    }
    assert forall|j: int| 1 <= j < emitted.len() implies #[trigger] emitted[j] != Some(s) by {
        lemma_duplicate_suppression(states, emitted, 0, j, s);
    }
}

/// A composed reliable data frame survives the trip: parsed back, it gives
/// exactly the sequence number and payload the sender put in. Together with
/// `lemma_reliable_recv_step` this is the safety core of reliable delivery:
/// whenever the network hands any copy of the frame to the receiver, the
/// payload is delivered, and exactly once.
pub proof fn lemma_reliable_frame_round_trip(seq: u64, payload: Seq<u8>)
    ensures
        reliable_frame(seq, payload).len() == 8 + payload.len(),
        be_val(reliable_frame(seq, payload).take(8)) == seq,
        reliable_frame(seq, payload).skip(8) == payload,
{
    let frame = reliable_frame(seq, payload);
    lemma_pow256_small();
    assert(frame.take(8) =~= crate::wire::be_seq(seq as int, 8));
    lemma_be_val_of_be_seq(seq as int, 8);
    assert(frame.skip(8) =~= payload);
}

} // verus!
