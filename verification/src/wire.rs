//! Big-endian integer coding and the packet grammar.
//!
//! Every packet is a UDP payload that begins with a one-byte type tag:
//! heartbeat (0), close (1), heartbeat echo (2), or a channel frame
//! (tag `channel_id + CHANNEL_OFFSET`). All multi-byte integers are
//! big-endian.

use vstd::prelude::*;
use vstd::arithmetic::div_mod::{lemma_div_denominator, lemma_fundamental_div_mod};

use crate::Error;

verus! {

/// Tags below this value are control packets; a tag `t >= CHANNEL_OFFSET`
/// carries a frame for channel `t - CHANNEL_OFFSET`.
pub const CHANNEL_OFFSET: u8 = 3;

/// 256 to the power `n`: the number of values `n` bytes can hold.
pub open spec fn pow256(n: nat) -> int
    decreases n,
{
    if n == 0 {
        1
    } else {
        256 * pow256((n - 1) as nat)
    }
}

/// The big-endian `n`-byte encoding of `x` (low byte last).
pub open spec fn be_seq(x: int, n: nat) -> Seq<u8> {
    Seq::new(n, |j: int| ((x / pow256((n - 1 - j) as nat)) % 256) as u8)
}

/// The integer a big-endian byte string denotes.
pub open spec fn be_val(s: Seq<u8>) -> int
    decreases s.len(),
{
    if s.len() == 0 {
        0
    } else {
        be_val(s.drop_last()) * 256 + s.last()
    }
}

pub proof fn lemma_pow256_pos(n: nat)
    ensures
        pow256(n) >= 1,
    decreases n,
{
    if n > 0 {
        lemma_pow256_pos((n - 1) as nat);
    }
}

pub proof fn lemma_pow256_monotone(m: nat, n: nat)
    requires
        m <= n,
    ensures
        pow256(m) <= pow256(n),
    decreases n,
{
    if m < n {
        lemma_pow256_monotone(m, (n - 1) as nat);
        lemma_pow256_pos((n - 1) as nat);
    }
}

/// Dropping the last byte of an encoding encodes the value shifted by a byte.
proof fn lemma_be_seq_drop_last(x: int, n: nat)
    requires
        n >= 1,
        x >= 0,
    ensures
        be_seq(x, n).drop_last() =~= be_seq(x / 256, (n - 1) as nat),
{
    let l = be_seq(x, n).drop_last();
    let r = be_seq(x / 256, (n - 1) as nat);
    assert forall|j: int| 0 <= j < n - 1 implies l[j] == r[j] by {
        let k = (n - 1 - j - 1) as nat;
        lemma_pow256_pos(k);
        lemma_div_denominator(x, 256, pow256(k));
        assert(x / 256 / pow256(k) == x / (256 * pow256(k)));
        assert(256 * pow256(k) == pow256((k + 1) as nat));
    }
}

/// Decoding inverts encoding for values that fit in `n` bytes.
pub proof fn lemma_be_val_of_be_seq(x: int, n: nat)
    requires
        0 <= x < pow256(n),
    ensures
        be_val(be_seq(x, n)) == x,
    decreases n,
{
    if n == 0 {
    } else {
        let s = be_seq(x, n);
        assert(s.last() == ((x / pow256(0)) % 256) as u8);
        assert(x / pow256(0) == x) by {
            assert(pow256(0) == 1);
        }
        lemma_be_seq_drop_last(x, n);
        assert(0 <= x / 256 < pow256((n - 1) as nat)) by {
            lemma_pow256_pos((n - 1) as nat);
            lemma_div_denominator(x, 256, pow256((n - 1) as nat));
        }
        lemma_be_val_of_be_seq(x / 256, (n - 1) as nat);
        assert(be_val(s) == be_val(s.drop_last()) * 256 + s.last());
        lemma_fundamental_div_mod(x, 256);
    }
}

/// Encoding inverts decoding: a byte string is the encoding of its value.
pub proof fn lemma_be_seq_of_be_val(s: Seq<u8>)
    ensures
        0 <= be_val(s) < pow256(s.len()),
        be_seq(be_val(s), s.len()) =~= s,
    decreases s.len(),
{
    if s.len() == 0 {
    } else {
        let n = s.len();
        lemma_be_seq_of_be_val(s.drop_last());
        let h = be_val(s.drop_last());
        let x = be_val(s);
        assert(x == h * 256 + s.last());
        assert(0 <= x < pow256(n)) by {
            assert(pow256(n) == 256 * pow256((n - 1) as nat));
            assert(h <= pow256((n - 1) as nat) - 1);
            assert(h * 256 <= (pow256((n - 1) as nat) - 1) * 256) by (nonlinear_arith)
                requires h <= pow256((n - 1) as nat) - 1;
        }
        assert(x / 256 == h && x % 256 == s.last()) by {
            vstd::arithmetic::div_mod::lemma_fundamental_div_mod_converse(x, 256, h, s.last() as int);
        }
        lemma_be_seq_drop_last(x, n);
        assert(be_seq(x, n).drop_last() =~= be_seq(h, (n - 1) as nat));
        assert(be_seq(x, n).last() == ((x / pow256(0)) % 256) as u8);
        assert(pow256(0) == 1);
        assert forall|j: int| 0 <= j < n implies be_seq(x, n)[j] == s[j] by {
            if j < n - 1 {
                assert(be_seq(x, n).drop_last()[j] == be_seq(h, (n - 1) as nat)[j]);
            }
        }
    }
}

/// Writes the low `n` bytes of `x` big-endian onto the end of `out`.
pub fn write_be(out: &mut Vec<u8>, x: u128, n: usize)
    requires
        n <= 16,
        x < pow256(n as nat),
        old(out)@.len() + n <= usize::MAX,
    ensures
        final(out)@ =~= old(out)@ + be_seq(x as int, n as nat),
{
    let ghost base = out@.len() as int;
    // Fill a scratch buffer with the low byte first.
    let mut buf: Vec<u8> = Vec::new();
    let mut v: u128 = x;
    let mut i: usize = 0;
    while i < n
        invariant
            i <= n <= 16,
            buf@.len() == i,
            v == x as int / pow256(i as nat),
            forall|j: int| 0 <= j < i ==> buf@[j] == ((x as int / pow256(j as nat)) % 256) as u8,
        decreases n - i,
    {
        proof {
            lemma_pow256_pos(i as nat);
            lemma_div_denominator(x as int, pow256(i as nat), 256);
            assert(pow256(i as nat) * 256 == 256 * pow256(i as nat));
            assert(pow256((i + 1) as nat) == 256 * pow256(i as nat));
        }
        let b: u8 = (v % 256) as u8;
        buf.push(b);
        v = v / 256;
        i = i + 1;
    }
    // Copy it out reversed: the result is high byte first.
    let ghost target = be_seq(x as int, n as nat);
    let mut k: usize = 0;
    while k < n
        invariant
            k <= n,
            buf@.len() == n,
            target == be_seq(x as int, n as nat),
            forall|j: int| 0 <= j < n ==> buf@[j] == ((x as int / pow256(j as nat)) % 256) as u8,
            out@ =~= old(out)@ + target.take(k as int),
            base + n <= usize::MAX,
            base == old(out)@.len(),
        decreases n - k,
    {
        let b = buf[n - 1 - k];
        proof {
            assert(target[k as int] == b);
            assert(target.take(k + 1) =~= target.take(k as int).push(b));
        }
        out.push(b);
        k = k + 1;
    }
    proof {
        assert(target.take(n as int) =~= target);
    }
}

/// Reads `s` as a big-endian integer; at most 16 bytes, so it fits a u128.
pub fn read_be(s: &[u8], start: usize, n: usize) -> (r: u128)
    requires
        n <= 16,
        start + n <= s@.len(),
    ensures
        r as int == be_val(s@.subrange(start as int, start as int + n as int)),
{
    let ghost whole = s@.subrange(start as int, start as int + n as int);
    let slen = s.len();
    let mut acc: u128 = 0;
    let mut i: usize = 0;
    while i < n
        invariant
            i <= n <= 16,
            start + n <= slen == s@.len(),
            whole == s@.subrange(start as int, start as int + n as int),
            acc as int == be_val(whole.take(i as int)),
            acc < pow256(i as nat),
        decreases n - i,
    {
        proof {
            lemma_pow256_monotone(i as nat, 15);
            assert(pow256(16) == 0x1_0000_0000_0000_0000_0000_0000_0000_0000) by {
                reveal_with_fuel(pow256, 17);
            }
            lemma_pow256_monotone((i + 1) as nat, 16);
        }
        let b = s[start + i];
        let ghost prev = whole.take(i as int);
        acc = acc * 256 + (b as u128);
        i = i + 1;
        proof {
            assert(whole.take(i as int).drop_last() =~= prev);
            assert(whole.take(i as int).last() == b);
        }
    }
    proof {
        assert(whole.take(n as int) =~= whole);
    }
    acc
}

/// A decoded packet. Channel frames keep their raw body; the per-channel
/// state machines interpret it.
pub enum Packet {
    Heartbeat { instance: u128, timestamp: u128 },
    Close,
    Echo { timestamp: u128 },
    ChannelFrame { channel_id: u8, frame: Vec<u8> },
}

/// Ghost image of a [`Packet`].
pub ghost enum PacketV {
    Heartbeat { instance: u128, timestamp: u128 },
    Close,
    Echo { timestamp: u128 },
    ChannelFrame { channel_id: u8, frame: Seq<u8> },
}

impl View for Packet {
    type V = PacketV;

    open spec fn view(&self) -> PacketV {
        match *self {
            Packet::Heartbeat { instance, timestamp } => PacketV::Heartbeat { instance, timestamp },
            Packet::Close => PacketV::Close,
            Packet::Echo { timestamp } => PacketV::Echo { timestamp },
            Packet::ChannelFrame { channel_id, ref frame } => PacketV::ChannelFrame {
                channel_id,
                frame: frame@,
            },
        }
    }
}

/// The packet grammar: what a byte string denotes, or nothing when it is
/// malformed. Trailing bytes after a fixed-size body are ignored, as are
/// bodies that are too short.
pub open spec fn parse_packet_spec(b: Seq<u8>) -> Option<PacketV> {
    if b.len() == 0 {
        None
    } else if b[0] == 0 {
        if b.len() >= 33 {
            Some(PacketV::Heartbeat {
                instance: be_val(b.subrange(1, 17)) as u128,
                timestamp: be_val(b.subrange(17, 33)) as u128,
            })
        } else {
            None
        }
    } else if b[0] == 1 {
        Some(PacketV::Close)
    } else if b[0] == 2 {
        if b.len() >= 17 {
            Some(PacketV::Echo { timestamp: be_val(b.subrange(1, 17)) as u128 })
        } else {
            None
        }
    } else {
        Some(PacketV::ChannelFrame {
            channel_id: (b[0] - CHANNEL_OFFSET) as u8,
            frame: b.skip(1),
        })
    }
}

/// The bytes of a heartbeat: tag 0, the sender's instance tag, then the
/// sender's elapsed milliseconds since the connection was created.
pub open spec fn heartbeat_bytes(instance: u128, timestamp: u128) -> Seq<u8> {
    seq![0u8] + be_seq(instance as int, 16) + be_seq(timestamp as int, 16)
}

/// The bytes of a close notice: just tag 1.
pub open spec fn close_bytes() -> Seq<u8> {
    seq![1u8]
}

/// The bytes of a heartbeat echo: tag 2, then the echoed timestamp.
pub open spec fn echo_bytes(timestamp: u128) -> Seq<u8> {
    seq![2u8] + be_seq(timestamp as int, 16)
}

/// The bytes of a channel packet: the channel's tag, then the frame.
pub open spec fn channel_packet_bytes(channel_id: u8, frame: Seq<u8>) -> Seq<u8> {
    seq![(channel_id + CHANNEL_OFFSET) as u8] + frame
}

/// The byte counts the headers use, as powers of 256.
pub proof fn lemma_pow256_small()
    ensures
        pow256(1) == 0x100,
        pow256(2) == 0x1_0000,
        pow256(4) == 0x1_0000_0000,
        pow256(8) == 0x1_0000_0000_0000_0000,
{
    reveal_with_fuel(pow256, 9);
}

/// Copies the bytes of `bytes` from `from` on into a fresh vector.
pub fn slice_suffix(bytes: &[u8], from: usize) -> (r: Vec<u8>)
    requires
        from <= bytes@.len(),
    ensures
        r@ == bytes@.skip(from as int),
{
    let n = bytes.len();
    let mut r: Vec<u8> = Vec::new();
    let mut i: usize = from;
    while i < n
        invariant
            from <= i <= n == bytes@.len(),
            r@ =~= bytes@.subrange(from as int, i as int),
        decreases n - i,
    {
        let b = bytes[i];
        r.push(b);
        i = i + 1;
        proof {
            assert(r@ =~= bytes@.subrange(from as int, i as int));
        }
    }
    proof {
        assert(bytes@.subrange(from as int, n as int) =~= bytes@.skip(from as int));
    }
    r
}

/// Appends all of `bytes` onto the end of `out`.
pub fn append_bytes(out: &mut Vec<u8>, bytes: &[u8])
    requires
        old(out)@.len() + bytes@.len() <= usize::MAX,
    ensures
        final(out)@ == old(out)@ + bytes@,
{
    let n = bytes.len();
    let mut i: usize = 0;
    while i < n
        invariant
            i <= n == bytes@.len(),
            out@ =~= old(out)@ + bytes@.take(i as int),
            old(out)@.len() + n <= usize::MAX,
        decreases n - i,
    {
        let b = bytes[i];
        out.push(b);
        i = i + 1;
        proof {
            assert(out@ =~= old(out)@ + bytes@.take(i as int));
        }
    }
    proof {
        assert(old(out)@ + bytes@.take(n as int) =~= old(out)@ + bytes@);
    }
}

/// Every u128 fits in sixteen bytes.
pub proof fn lemma_u128_fits(x: u128)
    ensures
        0 <= x < pow256(16),
{
    assert(pow256(16) == 0x1_0000_0000_0000_0000_0000_0000_0000_0000) by {
        reveal_with_fuel(pow256, 17);
    }
}

/// Parsing a built heartbeat gives back its fields.
pub proof fn lemma_parse_heartbeat(instance: u128, timestamp: u128)
    ensures
        parse_packet_spec(heartbeat_bytes(instance, timestamp)) == Some(
            PacketV::Heartbeat { instance, timestamp },
        ),
{
    let b = heartbeat_bytes(instance, timestamp);
    lemma_u128_fits(instance);
    lemma_u128_fits(timestamp);
    assert(b.subrange(1, 17) =~= be_seq(instance as int, 16));
    assert(b.subrange(17, 33) =~= be_seq(timestamp as int, 16));
    lemma_be_val_of_be_seq(instance as int, 16);
    lemma_be_val_of_be_seq(timestamp as int, 16);
}

/// Parsing a built echo gives back its timestamp.
pub proof fn lemma_parse_echo(timestamp: u128)
    ensures
        parse_packet_spec(echo_bytes(timestamp)) == Some(PacketV::Echo { timestamp }),
{
    let b = echo_bytes(timestamp);
    lemma_u128_fits(timestamp);
    assert(b.subrange(1, 17) =~= be_seq(timestamp as int, 16));
    lemma_be_val_of_be_seq(timestamp as int, 16);
}

/// Parsing a built channel packet gives back the channel id and the frame;
/// the tag byte of a channel packet is always at least `CHANNEL_OFFSET`.
pub proof fn lemma_parse_channel_packet(channel_id: u8, frame: Seq<u8>)
    requires
        channel_id <= 252,
    ensures
        channel_packet_bytes(channel_id, frame)[0] >= CHANNEL_OFFSET,
        parse_packet_spec(channel_packet_bytes(channel_id, frame)) == Some(
            PacketV::ChannelFrame { channel_id, frame },
        ),
{
    let b = channel_packet_bytes(channel_id, frame);
    assert(b.skip(1) =~= frame);
}

/// Parses one received datagram. Returns nothing exactly when the bytes are
/// not a packet of the grammar.
pub fn parse_packet(bytes: &[u8]) -> (r: Option<Packet>)
    ensures
        match r {
            Some(p) => parse_packet_spec(bytes@) == Some(p@),
            None => parse_packet_spec(bytes@) is None,
        },
{
    let n = bytes.len();
    if n == 0 {
        return None;
    }
    let tag = bytes[0];
    if tag == 0 {
        if n >= 33 {
            let instance = read_be(bytes, 1, 16);
            let timestamp = read_be(bytes, 17, 16);
            Some(Packet::Heartbeat { instance, timestamp })
        } else {
            None
        }
    } else if tag == 1 {
        Some(Packet::Close)
    } else if tag == 2 {
        if n >= 17 {
            let timestamp = read_be(bytes, 1, 16);
            Some(Packet::Echo { timestamp })
        } else {
            None
        }
    } else {
        let channel_id = tag - CHANNEL_OFFSET;
        let mut frame: Vec<u8> = Vec::new();
        let mut i: usize = 1;
        while i < n
            invariant
                1 <= i <= n == bytes@.len(),
                frame@ =~= bytes@.subrange(1, i as int),
            decreases n - i,
        {
            let b = bytes[i];
            frame.push(b);
            i = i + 1;
            proof {
                assert(frame@ =~= bytes@.subrange(1, i as int));
            }
        }
        proof {
            assert(bytes@.subrange(1, n as int) =~= bytes@.skip(1));
        }
        Some(Packet::ChannelFrame { channel_id, frame })
    }
}

/// Composes a heartbeat, refusing it when it would not fit in a datagram of
/// `max` bytes.
pub fn build_heartbeat(instance: u128, timestamp: u128, max: usize) -> (r: Result<Vec<u8>, Error>)
    ensures
        r is Ok <==> 33 <= max,
        r matches Ok(v) ==> v@ == heartbeat_bytes(instance, timestamp),
        r is Err ==> r == Err::<Vec<u8>, Error>(Error::MessageTooLong),
{
    if max < 33 {
        return Err(Error::MessageTooLong);
    }
    let mut out: Vec<u8> = Vec::new();
    out.push(0u8);
    proof {
        lemma_u128_fits(instance);
        lemma_u128_fits(timestamp);
    }
    write_be(&mut out, instance, 16);
    write_be(&mut out, timestamp, 16);
    proof {
        assert(out@ =~= heartbeat_bytes(instance, timestamp));
    }
    Ok(out)
}

/// Composes a close notice; it always fits, a datagram holds at least a tag.
pub fn build_close() -> (r: Vec<u8>)
    ensures
        r@ == close_bytes(),
{
    let mut out: Vec<u8> = Vec::new();
    out.push(1u8);
    proof {
        assert(out@ =~= close_bytes());
    }
    out
}

/// Composes a heartbeat echo, refusing it when it would not fit.
pub fn build_echo(timestamp: u128, max: usize) -> (r: Result<Vec<u8>, Error>)
    ensures
        r is Ok <==> 17 <= max,
        r matches Ok(v) ==> v@ == echo_bytes(timestamp),
        r is Err ==> r == Err::<Vec<u8>, Error>(Error::MessageTooLong),
{
    if max < 17 {
        return Err(Error::MessageTooLong);
    }
    let mut out: Vec<u8> = Vec::new();
    out.push(2u8);
    proof {
        lemma_u128_fits(timestamp);
    }
    write_be(&mut out, timestamp, 16);
    proof {
        assert(out@ =~= echo_bytes(timestamp));
    }
    Ok(out)
}

} // verus!
