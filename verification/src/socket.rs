//! The uTP endpoint state machine: handshake, reliable data transfer with
//! selective acknowledgements and fast retransmit, LEDBAT congestion control,
//! and graceful teardown.
//!
//! The endpoint is pure state: the caller receives datagrams, decodes them
//! with [`crate::packet::Packet::from_bytes`], hands each packet to
//! [`UtpSocket::handle_packet`] together with the current microsecond clock
//! reading, and transmits whatever reply and retransmissions come back.

use vstd::prelude::*;

use crate::delays::{
    spec_ewma, spec_evict, spec_min_base, spec_update_base, tdiv, tdiv_i64, DelayDifferenceSample,
    MINUTE_IN_MICROSECONDS,
};
use crate::packet::{
    sack_bit, spec_wire_len, Extension, ExtensionType, ExtensionView, Packet, PacketType,
    PacketView, HEADER_SIZE, SELECTIVE_ACK,
};
use crate::SocketError;

verus! {

/// Assume no packet ever exceeds the Ethernet maximum transfer unit.
pub const BUF_SIZE: usize = 1500;

/// Allowed congestion-window increase, in segments, above the flight size.
pub const ALLOWED_INCREASE: u32 = 1;

/// The LEDBAT target queueing delay, in microseconds.
pub const TARGET: i64 = 100_000;

/// Maximum segment size in bytes, header included.
pub const MSS: u32 = 1400;

/// Minimum congestion window, in segments.
pub const MIN_CWND: u32 = 2;

/// Initial congestion window, in segments.
pub const INIT_CWND: u32 = 2;

/// Initial congestion timeout (one second), in milliseconds.
pub const INITIAL_CONGESTION_TIMEOUT: u64 = 1000;

/// Smallest allowed congestion timeout, in milliseconds.
pub const MIN_CONGESTION_TIMEOUT: u64 = 500;

/// Largest allowed congestion timeout (one minute), in milliseconds.
pub const MAX_CONGESTION_TIMEOUT: u64 = 60_000;

/// Number of per-minute base-delay buckets kept.
pub const BASE_HISTORY: usize = 10;

/// The lifecycle states of a connection.
#[derive(Clone, Copy, Debug, PartialEq, Eq, Structural)]
pub enum SocketState {
    New,
    Connected,
    SynSent,
    FinReceived,
    FinSent,
    ResetReceived,
    Closed,
}

/// Relies on `rand::random`: a uniformly random identifier. Nothing can be
/// promised of the value.
#[verifier::external_body]
fn random_u16() -> u16 {
    rand::random::<u16>()
}

/// `x + 1` wrapping around the 16-bit sequence-number space.
pub fn wrap_inc16(x: u16) -> (r: u16)
    ensures
        r == (x + 1) % 0x10000,
{
    if x == 0xFFFF {
        0
    } else {
        x + 1
    }
}

/// Total wire length, in bytes, of the packets of `w`.
pub open spec fn win_bytes(w: Seq<Packet>) -> int
    decreases w.len(),
{
    if w.len() == 0 {
        0
    } else {
        win_bytes(w.drop_last()) + spec_wire_len(w.last()@)
    }
}

/// `win_bytes` splits over any cut of the sequence.
pub proof fn lemma_win_bytes_split(w: Seq<Packet>, i: int)
    requires
        0 <= i <= w.len(),
    ensures
        win_bytes(w) == win_bytes(w.take(i)) + win_bytes(w.skip(i)),
    decreases w.len() - i,
{
    if i == w.len() {
        assert(w.take(i) =~= w);
        assert(win_bytes(w.skip(i)) == 0);
    } else {
        lemma_win_bytes_split(w, i + 1);
        assert(w.take(i + 1).drop_last() =~= w.take(i));
        assert(w.take(i + 1).last() == w[i]);
        assert(w.skip(i).drop_last() =~= w.skip(i).take(w.skip(i).len() - 1));
        lemma_win_bytes_first(w.skip(i));
        assert(w.skip(i)[0] == w[i]);
        assert(w.skip(i).skip(1) =~= w.skip(i + 1));
    }
}

/// `win_bytes` of a nonempty sequence is the first packet plus the rest.
pub proof fn lemma_win_bytes_first(w: Seq<Packet>)
    requires
        w.len() > 0,
    ensures
        win_bytes(w) == spec_wire_len(w[0]@) + win_bytes(w.skip(1)),
    decreases w.len(),
{
    if w.len() == 1 {
        assert(w.drop_last() =~= w.skip(1));
    } else {
        lemma_win_bytes_first(w.drop_last());
        assert(w.drop_last()[0] == w[0]);
        assert(w.drop_last().skip(1) =~= w.skip(1).drop_last());
        assert(w.skip(1).last() == w.last());
    }
}

/// Every packet of `w` counts at least 0 and `win_bytes` is non-negative.
pub proof fn lemma_win_bytes_nonneg(w: Seq<Packet>)
    ensures
        win_bytes(w) >= 0,
    decreases w.len(),
{
    if w.len() > 0 {
        lemma_win_bytes_nonneg(w.drop_last());
        reveal(crate::packet::spec_wire_len);
        assert(spec_wire_len(w.last()@) >= 0);
    }
}

/// The first index at or after `i` whose packet carries sequence number `a`.
pub open spec fn find_seq_from(w: Seq<Packet>, a: u16, i: int) -> Option<int>
    decreases w.len() - i,
{
    if i < 0 || i >= w.len() {
        None
    } else if w[i]@.seq_nr == a {
        Some(i)
    } else {
        find_seq_from(w, a, i + 1)
    }
}

/// The first index of `w` whose packet carries sequence number `a`.
pub open spec fn spec_position(w: Seq<Packet>, a: u16) -> Option<int> {
    find_seq_from(w, a, 0)
}

/// What `spec_position` finds: an in-range index carrying `a`.
pub proof fn lemma_find_seq_from(w: Seq<Packet>, a: u16, i: int)
    requires
        0 <= i <= w.len(),
    ensures
        match find_seq_from(w, a, i) {
            Some(j) => i <= j < w.len() && w[j]@.seq_nr == a,
            None => forall|j: int| i <= j < w.len() ==> (#[trigger] w[j])@.seq_nr != a,
        },
    decreases w.len() - i,
{
    if i < w.len() && w[i]@.seq_nr != a {
        lemma_find_seq_from(w, a, i + 1);
    }
}

/// A reassembly buffer sorted strictly ascending by sequence number.
pub open spec fn buffer_sorted(b: Seq<Packet>) -> bool {
    forall|i: int, j: int|
        0 <= i < j < b.len() ==> (#[trigger] b[i])@.seq_nr < (#[trigger] b[j])@.seq_nr
}

/// A uTP connection endpoint: all protocol state of one connection. Datagram
/// I/O is the caller's: the endpoint only decides.
pub struct UtpSocket {
    /// Sender connection identifier (used in outgoing packets).
    pub sender_connection_id: u16,
    /// Receiver connection identifier.
    pub receiver_connection_id: u16,
    /// Sequence number for the next packet.
    pub seq_nr: u16,
    /// Sequence number of the latest acknowledged packet sent by the remote peer.
    pub ack_nr: u16,
    /// Connection state.
    pub state: SocketState,
    /// Received but not yet released packets, sorted by sequence number.
    pub incoming_buffer: Vec<Packet>,
    /// Sent but not yet acknowledged packets, in transmission order.
    pub send_window: Vec<Packet>,
    /// Packets awaiting first transmission.
    pub unsent_queue: Vec<Packet>,
    /// How many ACKs were received for the packet with sequence number `last_acked`.
    pub duplicate_ack_count: u32,
    /// Sequence number of the latest packet the remote peer acknowledged.
    pub last_acked: u16,
    /// Timestamp of the latest packet the remote peer acknowledged.
    pub last_acked_timestamp: u32,
    /// Sequence number of the last packet removed from the incoming buffer.
    pub last_dropped: u16,
    /// Round-trip time estimate, in milliseconds.
    pub rtt: i32,
    /// Round-trip time variance, in milliseconds.
    pub rtt_variance: i32,
    /// Residual payload of a partially released packet.
    pub pending_data: Vec<u8>,
    /// Bytes in flight.
    pub curr_window: u32,
    /// Advertised receive window of the remote peer.
    pub remote_wnd_size: u32,
    /// Rolling window of per-minute minimum one-way delays, in microseconds.
    pub base_delays: Vec<i64>,
    /// One-way-delay samples younger than one round trip.
    pub current_delays: Vec<DelayDifferenceSample>,
    /// Magnitude of the delay between the peer sending and us receiving.
    pub their_delay: u32,
    /// Microsecond timestamp when the current base-delay bucket began.
    pub last_rollover: i64,
    /// Current congestion timeout, in milliseconds.
    pub congestion_timeout: u64,
    /// Congestion window, in bytes.
    pub cwnd: u32,
}

impl UtpSocket {
    /// The internal invariant of an endpoint: the flight-size accounting is
    /// exact, the reassembly buffer is sorted, queued packets are well formed
    /// and within the segment size, delay samples are within clock range, and
    /// the controller variables are within their documented ranges.
    pub open spec fn wf(&self) -> bool {
        &&& self.curr_window as int == win_bytes(self.send_window@)
        &&& forall|i: int|
            0 <= i < self.send_window@.len() ==> (#[trigger] self.send_window@[i])@.wf()
                && spec_wire_len(self.send_window@[i]@) <= MSS as int
        &&& forall|i: int|
            0 <= i < self.unsent_queue@.len() ==> (#[trigger] self.unsent_queue@[i])@.wf()
                && spec_wire_len(self.unsent_queue@[i]@) <= MSS as int
        &&& buffer_sorted(self.incoming_buffer@)
        &&& self.base_delays@.len() <= BASE_HISTORY as int
        &&& forall|i: int|
            0 <= i < self.base_delays@.len() ==> -0xFFFF_FFFF <= #[trigger] self.base_delays@[i]
                <= 0xFFFF_FFFF
        &&& 0 <= self.last_rollover <= 0xFFFF_FFFF
        &&& forall|i: int|
            0 <= i < self.current_delays@.len() ==> {
                &&& -0xFFFF_FFFF <= (#[trigger] self.current_delays@[i]).difference <= 0xFFFF_FFFF
                &&& 0 <= self.current_delays@[i].received_at <= 0xFFFF_FFFF
            }
        &&& MSS <= self.cwnd
        &&& 0 <= self.rtt <= 100_000
        &&& 0 <= self.rtt_variance <= 100_000
        &&& MIN_CONGESTION_TIMEOUT <= self.congestion_timeout <= MAX_CONGESTION_TIMEOUT
    }

    /// A fresh endpoint: a random receiver connection identifier, the sender
    /// identifier one above it (wrapping), sequence number 1, state `New`,
    /// empty buffers, and the initial congestion parameters.
    pub fn new() -> (s: UtpSocket)
        ensures
            s.wf(),
            s.sender_connection_id == (s.receiver_connection_id + 1) % 0x10000,
            s.seq_nr == 1,
            s.ack_nr == 0,
            s.state == SocketState::New,
            s.incoming_buffer@.len() == 0,
            s.send_window@.len() == 0,
            s.unsent_queue@.len() == 0,
            s.pending_data@.len() == 0,
            s.duplicate_ack_count == 0,
            s.last_acked == 0,
            s.last_acked_timestamp == 0,
            s.last_dropped == 0,
            s.rtt == 0,
            s.rtt_variance == 0,
            s.curr_window == 0,
            s.remote_wnd_size == 0,
            s.base_delays@.len() == 0,
            s.current_delays@.len() == 0,
            s.their_delay == 0,
            s.last_rollover == 0,
            s.congestion_timeout == INITIAL_CONGESTION_TIMEOUT,
            s.cwnd == INIT_CWND * MSS,
    {
        let connection_id = random_u16();
        UtpSocket {
            sender_connection_id: wrap_inc16(connection_id),
            receiver_connection_id: connection_id,
            seq_nr: 1,
            ack_nr: 0,
            state: SocketState::New,
            incoming_buffer: Vec::new(),
            send_window: Vec::new(),
            unsent_queue: Vec::new(),
            duplicate_ack_count: 0,
            last_acked: 0,
            last_acked_timestamp: 0,
            last_dropped: 0,
            rtt: 0,
            rtt_variance: 0,
            pending_data: Vec::new(),
            curr_window: 0,
            remote_wnd_size: 0,
            base_delays: Vec::new(),
            current_delays: Vec::new(),
            their_delay: 0,
            last_rollover: 0,
            congestion_timeout: INITIAL_CONGESTION_TIMEOUT,
            cwnd: INIT_CWND * MSS,
        }
    }
}

} // verus!

verus! {

/// `a - b` wrapping around the 16-bit sequence-number space: the distance
/// from `b` forward to `a`.
pub open spec fn wrap_sub16(a: u16, b: u16) -> int {
    if a >= b {
        a - b
    } else {
        a - b + 0x10000
    }
}

/// `a - b` wrapping around the 32-bit timestamp space.
pub open spec fn wrap_sub32(a: u32, b: u32) -> u32 {
    if a >= b {
        (a - b) as u32
    } else {
        (a - b + 0x1_0000_0000) as u32
    }
}

/// Number of packets of `b` with sequence number strictly below `s`.
pub open spec fn count_less(b: Seq<Packet>, s: u16) -> int
    decreases b.len(),
{
    if b.len() == 0 {
        0
    } else {
        count_less(b.drop_last(), s) + if b.last()@.seq_nr < s {
            1int
        } else {
            0int
        }
    }
}

/// In a sorted buffer, `count_less` is the cut point: everything before it is
/// below `s` and everything at or after it is at least `s`.
pub proof fn lemma_count_less_bounds(b: Seq<Packet>, s: u16)
    requires
        buffer_sorted(b),
    ensures
        0 <= count_less(b, s) <= b.len(),
        forall|j: int| 0 <= j < count_less(b, s) ==> (#[trigger] b[j])@.seq_nr < s,
        forall|j: int| count_less(b, s) <= j < b.len() ==> (#[trigger] b[j])@.seq_nr >= s,
    decreases b.len(),
{
    if b.len() > 0 {
        assert(forall|j: int| 0 <= j < b.len() - 1 ==> b.drop_last()[j] == #[trigger] b[j]);
        assert(buffer_sorted(b.drop_last()));
        lemma_count_less_bounds(b.drop_last(), s);
        let c = count_less(b.drop_last(), s);
        if b.last()@.seq_nr < s {
            // Everything before the last is below the last, hence below `s`.
            assert(forall|j: int|
                0 <= j < b.len() - 1 ==> (#[trigger] b[j])@.seq_nr < b[b.len() - 1]@.seq_nr);
            if c < b.len() - 1 {
                assert(b.drop_last()[c]@.seq_nr >= s);
                assert(b[c]@.seq_nr < s);
                assert(false);
            }
            assert(count_less(b, s) == b.len());
            assert forall|j: int| 0 <= j < count_less(b, s) implies (#[trigger] b[j])@.seq_nr
                < s by {
                if j < b.len() - 1 {
                    assert(b.drop_last()[j] == b[j]);
                }
            }
        } else {
            assert(count_less(b, s) == c);
            assert forall|j: int| 0 <= j < c implies (#[trigger] b[j])@.seq_nr < s by {
                assert(b.drop_last()[j] == b[j]);
                assert(b.drop_last()[j]@.seq_nr < s);
            }
            assert forall|j: int| c <= j < b.len() implies (#[trigger] b[j])@.seq_nr >= s by {
                if j < b.len() - 1 {
                    assert(b.drop_last()[j] == b[j]);
                    assert(b.drop_last()[j]@.seq_nr >= s);
                }
            }
        }
    }
}

/// Where a new packet lands in the reassembly buffer: appended when it is
/// beyond the tail, replacing an equal sequence number, or inserted at its
/// sorted position.
pub open spec fn spec_insert_buffer(b: Seq<Packet>, p: Packet) -> Seq<Packet> {
    if b.len() > 0 && p@.seq_nr > b.last()@.seq_nr {
        b.push(p)
    } else {
        let i = count_less(b, p@.seq_nr);
        if i < b.len() && b[i]@.seq_nr == p@.seq_nr {
            b.update(i, p)
        } else {
            b.insert(i, p)
        }
    }
}

/// Insertion keeps the buffer sorted, and a duplicate replaces the existing
/// entry without growing the buffer.
pub proof fn lemma_insert_buffer_sorted(b: Seq<Packet>, p: Packet)
    requires
        buffer_sorted(b),
    ensures
        buffer_sorted(spec_insert_buffer(b, p)),
        spec_insert_buffer(b, p).len() == b.len() + (if exists|j: int|
            0 <= j < b.len() && (#[trigger] b[j])@.seq_nr == p@.seq_nr {
            0int
        } else {
            1int
        }),
        exists|j: int|
            0 <= j < spec_insert_buffer(b, p).len() && (#[trigger] spec_insert_buffer(b, p)[j])
                == p,
{
    let r = spec_insert_buffer(b, p);
    if b.len() > 0 && p@.seq_nr > b.last()@.seq_nr {
        assert(forall|j: int|
            0 <= j < b.len() ==> (#[trigger] b[j])@.seq_nr <= b[b.len() - 1]@.seq_nr);
        assert(forall|j: int| 0 <= j < b.len() ==> (#[trigger] b[j])@.seq_nr != p@.seq_nr);
        assert(r[b.len() as int] == p);
    } else {
        lemma_count_less_bounds(b, p@.seq_nr);
        let i = count_less(b, p@.seq_nr);
        if i < b.len() && b[i]@.seq_nr == p@.seq_nr {
            assert(r == b.update(i, p));
            assert(r[i] == p);
        } else {
            assert(forall|j: int| 0 <= j < b.len() ==> (#[trigger] b[j])@.seq_nr != p@.seq_nr)
                by {
                assert(forall|j: int| 0 <= j < i ==> (#[trigger] b[j])@.seq_nr < p@.seq_nr);
                assert(forall|j: int| i <= j < b.len() ==> (#[trigger] b[j])@.seq_nr >= p@.seq_nr);
                if i < b.len() {
                    assert(b[i]@.seq_nr != p@.seq_nr);
                    assert(forall|j: int|
                        i < j < b.len() ==> b[i]@.seq_nr < (#[trigger] b[j])@.seq_nr);
                }
            }
            assert(r == b.insert(i, p));
            assert(r[i] == p);
            assert forall|x: int, y: int| 0 <= x < y < r.len() implies (#[trigger] r[x])@.seq_nr
                < (#[trigger] r[y])@.seq_nr by {
                if x < i && y < i {
                } else if x < i && y == i {
                } else if x < i && y > i {
                    assert(r[y] == b[y - 1]);
                } else if x == i {
                    assert(r[y] == b[y - 1]);
                    assert(b[y - 1]@.seq_nr >= p@.seq_nr);
                    assert(b[y - 1]@.seq_nr != p@.seq_nr);
                } else {
                    assert(r[x] == b[x - 1]);
                    assert(r[y] == b[y - 1]);
                }
            }
        }
    }
}

impl UtpSocket {
    /// Builds the reply to `original` of type `t`: the sender connection id,
    /// the current sequence and acknowledgement numbers, the clock reading
    /// `now`, and the (wrapping) difference between `now` and the peer's
    /// send timestamp.
    pub fn prepare_reply(&self, original: &Packet, t: PacketType, now: u32) -> (r: Packet)
        ensures
            r@ == (PacketView {
                ty: t,
                connection_id: self.sender_connection_id,
                timestamp_microseconds: now,
                timestamp_difference_microseconds: wrap_sub32(
                    now,
                    original@.timestamp_microseconds,
                ),
                wnd_size: 0,
                seq_nr: self.seq_nr,
                ack_nr: self.ack_nr,
                extensions: Seq::<crate::packet::ExtensionView>::empty(),
                payload: Seq::<u8>::empty(),
            }),
            r@.wf(),
            spec_wire_len(r@) == HEADER_SIZE,
    {
        let mut resp = Packet::new();
        resp.set_type(t);
        resp.set_timestamp_microseconds(now);
        resp.set_timestamp_difference_microseconds(now.wrapping_sub(original.timestamp_microseconds()));
        resp.set_connection_id(self.sender_connection_id);
        resp.set_seq_nr(self.seq_nr);
        resp.set_ack_nr(self.ack_nr);
        proof {
            reveal(crate::packet::spec_wire_len);
            assert(crate::packet::ext_chain(resp@.extensions, 0) =~= Seq::<u8>::empty());
            assert(spec_wire_len(resp@) == crate::packet::spec_header(resp@).len());
        }
        resp
    }

    /// Removes the head of the incoming buffer and acknowledges it: `ack_nr`
    /// and `last_dropped` become its sequence number.
    pub fn advance_incoming_buffer(&mut self) -> (r: Option<Packet>)
        requires
            old(self).wf(),
        ensures
            final(self).wf(),
            *final(self) == (UtpSocket {
                incoming_buffer: final(self).incoming_buffer,
                ack_nr: final(self).ack_nr,
                last_dropped: final(self).last_dropped,
                ..*old(self)
            }),
            old(self).incoming_buffer@.len() == 0 ==> r is None && *final(self) == *old(self),
            old(self).incoming_buffer@.len() > 0 ==> {
                &&& r == Some(old(self).incoming_buffer@[0])
                &&& final(self).incoming_buffer@ == old(self).incoming_buffer@.skip(1)
                &&& final(self).ack_nr == old(self).incoming_buffer@[0]@.seq_nr
                &&& final(self).last_dropped == old(self).incoming_buffer@[0]@.seq_nr
            },
    {
        if self.incoming_buffer.len() > 0 {
            let packet = self.incoming_buffer.remove(0);
            self.ack_nr = packet.seq_nr();
            self.last_dropped = self.ack_nr;
            Some(packet)
        } else {
            None
        }
    }

    /// Inserts a data packet into the reassembly buffer, keeping it sorted
    /// strictly ascending by sequence number; a packet with an already
    /// buffered sequence number replaces the buffered one.
    pub fn insert_into_buffer(&mut self, packet: Packet)
        requires
            old(self).wf(),
        ensures
            final(self).wf(),
            *final(self) == (UtpSocket {
                incoming_buffer: final(self).incoming_buffer,
                ..*old(self)
            }),
            final(self).incoming_buffer@ == spec_insert_buffer(
                old(self).incoming_buffer@,
                packet,
            ),
            final(self).incoming_buffer@.len() == old(self).incoming_buffer@.len() + (
            if exists|j: int|
                0 <= j < old(self).incoming_buffer@.len() && (#[trigger] old(
                    self,
                ).incoming_buffer@[j])@.seq_nr == packet@.seq_nr {
                0int
            } else {
                1int
            }),
    {
        proof {
            lemma_insert_buffer_sorted(self.incoming_buffer@, packet);
        }
        let s = packet.seq_nr();
        let n = self.incoming_buffer.len();
        if n > 0 && s > self.incoming_buffer[n - 1].seq_nr() {
            self.incoming_buffer.push(packet);
        } else {
            proof {
                lemma_count_less_bounds(self.incoming_buffer@, packet@.seq_nr);
            }
            let ghost b = self.incoming_buffer@;
            let mut i: usize = 0;
            while i < self.incoming_buffer.len() && self.incoming_buffer[i].seq_nr() < s
                invariant
                    0 <= i <= b.len(),
                    b == self.incoming_buffer@,
                    s == packet@.seq_nr,
                    forall|j: int| 0 <= j < i ==> (#[trigger] b[j])@.seq_nr < s,
                decreases b.len() - i,
            {
                i = i + 1;
            }
            proof {
                let c = count_less(b, s);
                if i < c {
                    assert(b[i as int]@.seq_nr < s);
                    assert(false);
                }
                if c < i {
                    assert(b[c]@.seq_nr < s);
                    assert(false);
                }
            }
            if i < self.incoming_buffer.len() && self.incoming_buffer[i].seq_nr() == s {
                self.incoming_buffer.remove(i);
                self.incoming_buffer.insert(i, packet);
                proof {
                    assert(self.incoming_buffer@ =~= b.update(i as int, packet));
                }
            } else {
                self.incoming_buffer.insert(i, packet);
            }
        }
    }
}

} // verus!

verus! {

/// Copies as much of `src` as fits into the front of `dst`, keeping `dst`'s
/// length; returns how many bytes were copied.
fn copy_prefix(dst: &mut Vec<u8>, src: &Vec<u8>) -> (n: usize)
    ensures
        n == if src@.len() <= old(dst)@.len() {
            src@.len()
        } else {
            old(dst)@.len()
        },
        final(dst)@ == src@.take(n as int) + old(dst)@.skip(n as int),
        final(dst)@.len() == old(dst)@.len(),
{
    let n = if src.len() <= dst.len() {
        src.len()
    } else {
        dst.len()
    };
    let mut out: Vec<u8> = Vec::new();
    let mut i: usize = 0;
    while i < n
        invariant
            i <= n,
            n <= src@.len(),
            out@ == src@.take(i as int),
        decreases n - i,
    {
        out.push(src[i]);
        proof {
            assert(out@ =~= src@.take(i + 1));
        }
        i = i + 1;
    }
    let mut j: usize = n;
    while j < dst.len()
        invariant
            n <= j <= dst@.len(),
            n <= src@.len(),
            out@ == src@.take(n as int) + dst@.skip(n as int).take(j - n),
        decreases dst@.len() - j,
    {
        out.push(dst[j]);
        proof {
            assert(out@ =~= src@.take(n as int) + dst@.skip(n as int).take(j + 1 - n));
        }
        j = j + 1;
    }
    proof {
        assert(dst@.skip(n as int).take(dst@.len() - n) =~= dst@.skip(n as int));
    }
    *dst = out;
    n
}

impl UtpSocket {
    /// Releases buffered bytes to the consumer, in sequence order: first any
    /// residue of a partially read packet, otherwise the head packet when it
    /// is in order (`ack_nr` or `ack_nr + 1`); a fully consumed packet leaves
    /// the buffer and is acknowledged, a partially consumed one leaves its
    /// unread suffix in `pending_data`. Returns the number of bytes written
    /// to the front of `buf`, whose length does not change.
    pub fn flush_incoming_buffer(&mut self, buf: &mut Vec<u8>) -> (read: usize)
        requires
            old(self).wf(),
        ensures
            final(self).wf(),
            final(buf)@.len() == old(buf)@.len(),
            *final(self) == (UtpSocket {
                pending_data: final(self).pending_data,
                incoming_buffer: final(self).incoming_buffer,
                ack_nr: final(self).ack_nr,
                last_dropped: final(self).last_dropped,
                ..*old(self)
            }),
            ({
                let pd = old(self).pending_data@;
                let ib = old(self).incoming_buffer@;
                let cap = old(buf)@.len();
                if pd.len() > 0 {
                    &&& read == if pd.len() <= cap {
                        pd.len() as int
                    } else {
                        cap as int
                    }
                    &&& final(buf)@ == pd.take(read as int) + old(buf)@.skip(read as int)
                    &&& if read == pd.len() {
                        &&& final(self).pending_data@.len() == 0
                        &&& (ib.len() > 0 ==> final(self).incoming_buffer@ == ib.skip(1)
                            && final(self).ack_nr == ib[0]@.seq_nr && final(self).last_dropped
                            == ib[0]@.seq_nr)
                        &&& (ib.len() == 0 ==> final(self).incoming_buffer@ == ib
                            && final(self).ack_nr == old(self).ack_nr
                            && final(self).last_dropped == old(self).last_dropped)
                    } else {
                        &&& final(self).pending_data@ == pd.skip(read as int)
                        &&& final(self).incoming_buffer@ == ib
                        &&& final(self).ack_nr == old(self).ack_nr
                        &&& final(self).last_dropped == old(self).last_dropped
                    }
                } else if ib.len() > 0 && (old(self).ack_nr == ib[0]@.seq_nr || (old(self).ack_nr
                    + 1) % 0x10000 == ib[0]@.seq_nr) {
                    let pl = ib[0]@.payload;
                    &&& read == if pl.len() <= cap {
                        pl.len() as int
                    } else {
                        cap as int
                    }
                    &&& final(buf)@ == pl.take(read as int) + old(buf)@.skip(read as int)
                    &&& if read == pl.len() {
                        &&& final(self).incoming_buffer@ == ib.skip(1)
                        &&& final(self).ack_nr == ib[0]@.seq_nr
                        &&& final(self).last_dropped == ib[0]@.seq_nr
                        &&& final(self).pending_data@.len() == 0
                    } else {
                        &&& final(self).incoming_buffer@ == ib
                        &&& final(self).pending_data@ == pl.skip(read as int)
                        &&& final(self).ack_nr == old(self).ack_nr
                        &&& final(self).last_dropped == old(self).last_dropped
                    }
                } else {
                    read == 0 && *final(self) == *old(self) && final(buf)@ == old(buf)@
                }
            }),
    {
        // Return pending data from a partially read packet first.
        if self.pending_data.len() > 0 {
            let flushed = copy_prefix(buf, &self.pending_data);
            if flushed == self.pending_data.len() {
                self.pending_data.clear();
                self.advance_incoming_buffer();
            } else {
                let rest = copy_suffix(&self.pending_data, flushed);
                self.pending_data = rest;
            }
            return flushed;
        }
        if self.incoming_buffer.len() > 0 && (self.ack_nr
            == self.incoming_buffer[0].seq_nr() || wrap_inc16(self.ack_nr)
            == self.incoming_buffer[0].seq_nr()) {
            let flushed = copy_prefix(buf, &self.incoming_buffer[0].payload);
            if flushed == self.incoming_buffer[0].payload.len() {
                self.advance_incoming_buffer();
            } else {
                let rest = copy_suffix(&self.incoming_buffer[0].payload, flushed);
                self.pending_data = rest;
            }
            return flushed;
        }
        0
    }

    /// Buffers an inbound Data packet when its sequence number lies ahead of
    /// the last one released to the consumer, in the wrapping half-space
    /// interpretation; packets at or behind the release point are duplicates
    /// of delivered data and are dropped.
    pub fn insert_if_fresh(&mut self, packet: Packet)
        requires
            old(self).wf(),
        ensures
            final(self).wf(),
            *final(self) == (UtpSocket {
                incoming_buffer: final(self).incoming_buffer,
                ..*old(self)
            }),
            final(self).incoming_buffer@ == if packet@.ty == PacketType::Data && 0 < wrap_sub16(
                packet@.seq_nr,
                old(self).last_dropped,
            ) < 0x8000 {
                spec_insert_buffer(old(self).incoming_buffer@, packet)
            } else {
                old(self).incoming_buffer@
            },
    {
        let d = packet.seq_nr().wrapping_sub(self.last_dropped);
        if packet.get_type() == PacketType::Data && d > 0 && d < 0x8000 {
            self.insert_into_buffer(packet);
        }
    }
}

/// Copies `src[from..]` into a fresh vector.
fn copy_suffix(src: &Vec<u8>, from: usize) -> (r: Vec<u8>)
    requires
        from <= src@.len(),
    ensures
        r@ == src@.skip(from as int),
{
    let mut r: Vec<u8> = Vec::new();
    let mut i: usize = from;
    while i < src.len()
        invariant
            from <= i <= src@.len(),
            r@ == src@.subrange(from as int, i as int),
        decreases src@.len() - i,
    {
        r.push(src[i]);
        proof {
            assert(r@ =~= src@.subrange(from as int, i + 1));
        }
        i = i + 1;
    }
    proof {
        assert(r@ =~= src@.skip(from as int));
    }
    r
}

} // verus!

verus! {

/// Payload bytes a write is split into per Data packet.
pub const CHUNK_SIZE: usize = 1380;

/// How many Data packets a write of `len` bytes is split into.
pub open spec fn num_chunks(len: int) -> int
    decreases len,
{
    if len <= 0 {
        0
    } else if len <= CHUNK_SIZE as int {
        1
    } else {
        1 + num_chunks(len - CHUNK_SIZE as int)
    }
}

/// A write is split into no chunks exactly when it is empty.
pub proof fn lemma_num_chunks_zero(len: int)
    ensures
        num_chunks(len) >= 0,
        num_chunks(len) == 0 <==> len <= 0,
    decreases len,
{
    if len > CHUNK_SIZE as int {
        lemma_num_chunks_zero(len - CHUNK_SIZE as int);
    }
}

/// The payloads of the packets of `q`, concatenated in order.
pub open spec fn concat_payloads(q: Seq<Packet>) -> Seq<u8>
    decreases q.len(),
{
    if q.len() == 0 {
        Seq::empty()
    } else {
        concat_payloads(q.drop_last()) + q.last()@.payload
    }
}

/// The first index of `w` carrying sequence number `a`, by linear scan.
fn position_of(w: &Vec<Packet>, a: u16) -> (r: Option<usize>)
    ensures
        match r {
            Some(i) => spec_position(w@, a) == Some(i as int),
            None => spec_position(w@, a) is None,
        },
{
    let mut i: usize = 0;
    while i < w.len()
        invariant
            0 <= i <= w@.len(),
            find_seq_from(w@, a, 0) == find_seq_from(w@, a, i as int),
        decreases w@.len() - i,
    {
        if w[i].seq_nr() == a {
            return Some(i);
        }
        i = i + 1;
    }
    None
}

/// The number of bytes allowed in flight: the smaller of the congestion
/// window and the peer's advertised window, floored at two segments.
pub open spec fn spec_max_inflight(cwnd: u32, remote: u32) -> int {
    let m = if cwnd <= remote {
        cwnd as int
    } else {
        remote as int
    };
    if m >= MIN_CWND as int * MSS as int {
        m
    } else {
        MIN_CWND as int * MSS as int
    }
}

impl UtpSocket {
    /// The number of bytes allowed in flight: the smaller of the congestion
    /// window and the peer's advertised window, but never below the floor of
    /// two segments.
    pub fn max_inflight(&self) -> (r: u32)
        ensures
            r == spec_max_inflight(self.cwnd, self.remote_wnd_size),
    {
        let m = if self.cwnd <= self.remote_wnd_size {
            self.cwnd
        } else {
            self.remote_wnd_size
        };
        if m >= MIN_CWND * MSS {
            m
        } else {
            MIN_CWND * MSS
        }
    }

    /// Whether a packet may be transmitted now: the flight size is below the
    /// allowed window, or three duplicate ACKs call for a fast resend.
    pub fn can_transmit(&self) -> (b: bool)
        ensures
            b == (self.curr_window < spec_max_inflight(self.cwnd, self.remote_wnd_size)
                || self.duplicate_ack_count >= 3),
    {
        self.curr_window < self.max_inflight() || self.duplicate_ack_count >= 3
    }

    /// Splits `buf` into Data packets of at most [`CHUNK_SIZE`] payload bytes
    /// and appends them to the unsent queue with consecutive (wrapping)
    /// sequence numbers; fails with `ConnectionClosed` on a closed endpoint.
    /// The queued payloads concatenate back to exactly `buf`.
    pub fn queue_outgoing(&mut self, buf: &[u8]) -> (r: Result<usize, SocketError>)
        requires
            old(self).wf(),
        ensures
            final(self).wf(),
            old(self).state == SocketState::Closed ==> r == Err::<usize, SocketError>(
                SocketError::ConnectionClosed,
            ) && *final(self) == *old(self),
            old(self).state != SocketState::Closed ==> {
                let n0 = old(self).unsent_queue@.len() as int;
                let k = num_chunks(buf@.len() as int);
                &&& r == Ok::<usize, SocketError>(buf@.len() as usize)
                &&& *final(self) == (UtpSocket {
                    unsent_queue: final(self).unsent_queue,
                    seq_nr: final(self).seq_nr,
                    ..*old(self)
                })
                &&& final(self).unsent_queue@.len() == n0 + k
                &&& final(self).unsent_queue@.take(n0) == old(self).unsent_queue@
                &&& final(self).seq_nr == (old(self).seq_nr + k) % 0x10000
                &&& forall|c: int|
                    0 <= c < k ==> (#[trigger] final(self).unsent_queue@[n0 + c])@ == (PacketView {
                        ty: PacketType::Data,
                        connection_id: old(self).sender_connection_id,
                        timestamp_microseconds: 0,
                        timestamp_difference_microseconds: 0,
                        wnd_size: 0,
                        seq_nr: ((old(self).seq_nr + c) % 0x10000) as u16,
                        ack_nr: old(self).ack_nr,
                        extensions: Seq::<crate::packet::ExtensionView>::empty(),
                        payload: buf@.subrange(
                            CHUNK_SIZE as int * c,
                            if CHUNK_SIZE as int * (c + 1) <= buf@.len() {
                                CHUNK_SIZE as int * (c + 1)
                            } else {
                                buf@.len() as int
                            },
                        ),
                    })
                &&& concat_payloads(final(self).unsent_queue@.skip(n0)) == buf@
            },
    {
        if self.state == SocketState::Closed {
            return Err(SocketError::ConnectionClosed);
        }
        let ghost n0 = self.unsent_queue@.len() as int;
        let ghost k = num_chunks(buf@.len() as int);
        let ghost seq0 = self.seq_nr;
        let len = buf.len();
        proof {
            lemma_num_chunks_zero(len as int);
            assert(self.unsent_queue@.take(n0) =~= self.unsent_queue@);
            vstd::arithmetic::div_mod::lemma_small_mod(seq0 as nat, 0x10000);
        }
        let mut i: usize = 0;
        let ghost mut c: int = 0;
        while i < len
            invariant
                len == buf@.len(),
                0 <= i <= len,
                0 <= c,
                n0 == old(self).unsent_queue@.len(),
                k == num_chunks(len as int),
                seq0 == old(self).seq_nr,
                c + num_chunks(len - i) == k,
                c < k ==> i == CHUNK_SIZE as int * c,
                c == k ==> i == len,
                self.unsent_queue@.len() == n0 + c,
                self.unsent_queue@.take(n0) == old(self).unsent_queue@,
                self.seq_nr == (seq0 + c) % 0x10000,
                *self == (UtpSocket {
                    unsent_queue: self.unsent_queue,
                    seq_nr: self.seq_nr,
                    ..*old(self)
                }),
                self.wf(),
                forall|j: int|
                    0 <= j < c ==> (#[trigger] self.unsent_queue@[n0 + j])@ == (PacketView {
                        ty: PacketType::Data,
                        connection_id: old(self).sender_connection_id,
                        timestamp_microseconds: 0,
                        timestamp_difference_microseconds: 0,
                        wnd_size: 0,
                        seq_nr: ((seq0 + j) % 0x10000) as u16,
                        ack_nr: old(self).ack_nr,
                        extensions: Seq::<crate::packet::ExtensionView>::empty(),
                        payload: buf@.subrange(
                            CHUNK_SIZE as int * j,
                            if CHUNK_SIZE as int * (j + 1) <= len {
                                CHUNK_SIZE as int * (j + 1)
                            } else {
                                len as int
                            },
                        ),
                    }),
                concat_payloads(self.unsent_queue@.skip(n0)) == buf@.take(i as int),
            decreases len - i,
        {
            let end = if len - i > CHUNK_SIZE {
                i + CHUNK_SIZE
            } else {
                len
            };
            let mut packet = Packet::with_payload(&buf[i..end]);
            packet.set_seq_nr(self.seq_nr);
            packet.set_ack_nr(self.ack_nr);
            packet.set_connection_id(self.sender_connection_id);
            let ghost q0 = self.unsent_queue@;
            proof {
                reveal(crate::packet::spec_wire_len);
                assert(packet@.wf());
                assert(crate::packet::ext_chain(packet@.extensions, 0) =~= Seq::<u8>::empty());
                assert(spec_wire_len(packet@) == 20 + (end - i));
                lemma_num_chunks_zero(len - end);
            }
            self.unsent_queue.push(packet);
            proof {
                assert(self.unsent_queue@.skip(n0) =~= q0.skip(n0).push(packet));
                assert(q0.skip(n0).push(packet).drop_last() =~= q0.skip(n0));
                assert(self.unsent_queue@.take(n0) =~= q0.take(n0));
                assert(concat_payloads(self.unsent_queue@.skip(n0)) == buf@.take(i as int)
                    + buf@.subrange(i as int, end as int));
                assert(buf@.take(i as int) + buf@.subrange(i as int, end as int) =~= buf@.take(
                    end as int,
                ));
                assert(((seq0 + c) % 0x10000 + 1) % 0x10000 == (seq0 + c + 1) % 0x10000) by {
                    let m = 0x10000int;
                    let x = (seq0 + c) % m;
                    vstd::arithmetic::div_mod::lemma_mod_bound(seq0 + c, m);
                    vstd::arithmetic::div_mod::lemma_add_mod_noop(x, 1, m);
                    vstd::arithmetic::div_mod::lemma_mod_twice(seq0 + c, m);
                    vstd::arithmetic::div_mod::lemma_add_mod_noop(seq0 + c, 1, m);
                    vstd::arithmetic::div_mod::lemma_small_mod(1nat, m as nat);
                };
            }
            self.seq_nr = wrap_inc16(self.seq_nr);
            i = end;
            proof {
                c = c + 1;
            }
        }
        proof {
            assert(num_chunks(0) == 0);
            assert(buf@.take(len as int) =~= buf@);
        }
        Ok(len)
    }

    /// Takes the next packet awaiting first transmission.
    pub fn pop_unsent(&mut self) -> (r: Option<Packet>)
        requires
            old(self).wf(),
        ensures
            final(self).wf(),
            *final(self) == (UtpSocket { unsent_queue: final(self).unsent_queue, ..*old(self) }),
            old(self).unsent_queue@.len() == 0 ==> r is None && *final(self) == *old(self),
            old(self).unsent_queue@.len() > 0 ==> r == Some(old(self).unsent_queue@[0])
                && final(self).unsent_queue@ == old(self).unsent_queue@.skip(1),
    {
        if self.unsent_queue.len() > 0 {
            Some(self.unsent_queue.remove(0))
        } else {
            None
        }
    }

    /// Stamps an outgoing packet with the clock reading and the latest
    /// measured peer delay, just before transmission.
    pub fn prepare_for_send(&self, packet: &mut Packet, now: u32)
        ensures
            final(packet)@ == (PacketView {
                timestamp_microseconds: now,
                timestamp_difference_microseconds: self.their_delay,
                ..old(packet)@
            }),
    {
        packet.set_timestamp_microseconds(now);
        packet.set_timestamp_difference_microseconds(self.their_delay);
    }

    /// Accounts for a first transmission: the packet joins the send window
    /// and its wire length joins the flight size.
    pub fn record_transmit(&mut self, packet: Packet)
        requires
            old(self).wf(),
            packet@.wf(),
            spec_wire_len(packet@) <= MSS as int,
            old(self).curr_window + spec_wire_len(packet@) <= u32::MAX,
        ensures
            final(self).wf(),
            *final(self) == (UtpSocket {
                send_window: final(self).send_window,
                curr_window: final(self).curr_window,
                ..*old(self)
            }),
            final(self).send_window@ == old(self).send_window@.push(packet),
            final(self).curr_window == old(self).curr_window + spec_wire_len(packet@),
    {
        let l = packet.len();
        self.curr_window = self.curr_window + (l as u32);
        self.send_window.push(packet);
        proof {
            assert(self.send_window@.drop_last() =~= old(self).send_window@);
        }
    }

    /// Drops from the send window the packet acknowledged by `last_acked` and
    /// every packet before it, reducing the flight size by their wire length;
    /// does nothing when no window packet carries that sequence number.
    #[verifier::rlimit(50)]
    pub fn advance_send_window(&mut self)
        requires
            old(self).wf(),
        ensures
            final(self).wf(),
            *final(self) == (UtpSocket {
                send_window: final(self).send_window,
                curr_window: final(self).curr_window,
                ..*old(self)
            }),
            match spec_position(old(self).send_window@, old(self).last_acked) {
                Some(i) => final(self).send_window@ == old(self).send_window@.skip(i + 1)
                    && final(self).curr_window == old(self).curr_window - win_bytes(
                    old(self).send_window@.take(i + 1),
                ),
                None => *final(self) == *old(self),
            },
    {
        let ghost w = self.send_window@;
        let total = self.send_window.len();
        if let Some(position) = position_of(&self.send_window, self.last_acked) {
            proof {
                lemma_find_seq_from(w, self.last_acked, 0);
                lemma_win_bytes_split(w, position + 1);
                lemma_win_bytes_nonneg(w.take(position + 1));
                lemma_win_bytes_nonneg(w.skip(position + 1));
                assert(w.skip(0) =~= w);
            }
            let mut j: usize = 0;
            while j <= position
                invariant
                    0 <= j <= position + 1,
                    position < w.len(),
                    w.len() == total,
                    self.send_window@ == w.skip(j as int),
                    self.curr_window as int == win_bytes(w.skip(j as int)),
                    *self == (UtpSocket {
                        send_window: self.send_window,
                        curr_window: self.curr_window,
                        ..*old(self)
                    }),
                    forall|x: int|
                        0 <= x < w.len() ==> (#[trigger] w[x])@.wf() && spec_wire_len(w[x]@)
                            <= MSS as int,
                decreases position + 1 - j,
            {
                proof {
                    lemma_win_bytes_first(w.skip(j as int));
                    assert(w.skip(j as int)[0] == w[j as int]);
                    assert(w.skip(j as int).skip(1) =~= w.skip(j as int + 1));
                    lemma_win_bytes_nonneg(w.skip(j as int + 1));
                }
                let packet = self.send_window.remove(0);
                let l = packet.len();
                self.curr_window = self.curr_window - (l as u32);
                proof {
                    assert(self.send_window@ =~= w.skip(j as int + 1));
                }
                j = j + 1;
            }
            proof {
                lemma_win_bytes_split(w, position + 1);
            }
        }
    }
}

} // verus!

verus! {

impl UtpSocket {
    /// Builds the Syn packet that opens a connection and moves to `SynSent`.
    /// The caller stamps the timestamp and transmits (repeatedly, on a receive
    /// timeout) until the peer's State reply arrives.
    pub fn connect_syn(&mut self) -> (p: Packet)
        requires
            old(self).wf(),
            old(self).state == SocketState::New,
        ensures
            final(self).wf(),
            *final(self) == (UtpSocket { state: SocketState::SynSent, ..*old(self) }),
            p@ == (PacketView {
                ty: PacketType::Syn,
                connection_id: old(self).receiver_connection_id,
                timestamp_microseconds: 0,
                timestamp_difference_microseconds: 0,
                wnd_size: 0,
                seq_nr: old(self).seq_nr,
                ack_nr: 0,
                extensions: Seq::<crate::packet::ExtensionView>::empty(),
                payload: Seq::<u8>::empty(),
            }),
            p@.wf(),
    {
        let mut packet = Packet::new();
        packet.set_type(PacketType::Syn);
        packet.set_connection_id(self.receiver_connection_id);
        packet.set_seq_nr(self.seq_nr);
        self.state = SocketState::SynSent;
        packet
    }

    /// Starts a graceful close: nothing to do in a terminal or unconnected
    /// state; otherwise returns the Fin packet to transmit and moves to
    /// `FinSent`. The caller then keeps receiving until the state is `Closed`.
    pub fn close_request(&mut self) -> (r: Option<Packet>)
        requires
            old(self).wf(),
        ensures
            final(self).wf(),
            (old(self).state == SocketState::Closed || old(self).state == SocketState::New || old(
                self,
            ).state == SocketState::SynSent) ==> r is None && *final(self) == *old(self),
            !(old(self).state == SocketState::Closed || old(self).state == SocketState::New || old(
                self,
            ).state == SocketState::SynSent) ==> {
                &&& *final(self) == (UtpSocket { state: SocketState::FinSent, ..*old(self) })
                &&& r matches Some(p) && p@ == (PacketView {
                    ty: PacketType::Fin,
                    connection_id: old(self).sender_connection_id,
                    timestamp_microseconds: 0,
                    timestamp_difference_microseconds: 0,
                    wnd_size: 0,
                    seq_nr: old(self).seq_nr,
                    ack_nr: old(self).ack_nr,
                    extensions: Seq::<crate::packet::ExtensionView>::empty(),
                    payload: Seq::<u8>::empty(),
                })
            },
    {
        if self.state == SocketState::Closed || self.state == SocketState::New || self.state
            == SocketState::SynSent {
            return None;
        }
        let mut packet = Packet::new();
        packet.set_connection_id(self.sender_connection_id);
        packet.set_seq_nr(self.seq_nr);
        packet.set_ack_nr(self.ack_nr);
        packet.set_type(PacketType::Fin);
        self.state = SocketState::FinSent;
        Some(packet)
    }

    /// Reacts to a receive timeout: the congestion timeout doubles (capped at
    /// one minute), the congestion window collapses to one segment, and the
    /// oldest in-flight packet, if any, is returned for retransmission.
    pub fn on_timeout(&mut self) -> (r: Option<Packet>)
        requires
            old(self).wf(),
        ensures
            final(self).wf(),
            *final(self) == (UtpSocket {
                congestion_timeout: final(self).congestion_timeout,
                cwnd: MSS,
                ..*old(self)
            }),
            final(self).congestion_timeout == if 2 * old(self).congestion_timeout
                <= MAX_CONGESTION_TIMEOUT {
                2 * old(self).congestion_timeout
            } else {
                MAX_CONGESTION_TIMEOUT as int
            },
            old(self).send_window@.len() == 0 ==> r is None,
            old(self).send_window@.len() > 0 ==> (r matches Some(p) && p@ == old(
                self,
            ).send_window@[0]@),
    {
        let doubled = self.congestion_timeout * 2;
        self.congestion_timeout = if doubled <= MAX_CONGESTION_TIMEOUT {
            doubled
        } else {
            MAX_CONGESTION_TIMEOUT
        };
        self.cwnd = MSS;
        if self.send_window.len() > 0 {
            Some(self.send_window[0].clone())
        } else {
            None
        }
    }

    /// Records a one-way-delay sample in the base-delay history: a new
    /// per-minute bucket on rollover (keeping at most ten), otherwise the
    /// current bucket's minimum.
    pub fn update_base_delay(&mut self, base_delay: i64, now: i64)
        requires
            old(self).wf(),
            -0xFFFF_FFFF <= base_delay <= 0xFFFF_FFFF,
            0 <= now <= 0xFFFF_FFFF,
        ensures
            final(self).wf(),
            *final(self) == (UtpSocket {
                base_delays: final(self).base_delays,
                last_rollover: final(self).last_rollover,
                ..*old(self)
            }),
            (final(self).base_delays@, final(self).last_rollover) == spec_update_base(
                old(self).base_delays@,
                old(self).last_rollover,
                base_delay,
                now,
            ),
    {
        if self.base_delays.len() == 0 || now - self.last_rollover > MINUTE_IN_MICROSECONDS {
            self.last_rollover = now;
            if self.base_delays.len() == BASE_HISTORY {
                self.base_delays.remove(0);
            }
            self.base_delays.push(base_delay);
            proof {
                if old(self).base_delays@.len() == BASE_HISTORY as int {
                    assert(self.base_delays@ =~= old(self).base_delays@.skip(1).push(base_delay));
                }
            }
        } else {
            let last_idx = self.base_delays.len() - 1;
            if base_delay < self.base_delays[last_idx] {
                let ghost before = self.base_delays@;
                let taken = self.base_delays.remove(last_idx);
                self.base_delays.push(base_delay);
                proof {
                    assert(self.base_delays@ =~= before.update(
                        before.len() - 1,
                        base_delay,
                    ));
                }
            } else {
                proof {
                    assert(self.base_delays@ =~= old(self).base_delays@.update(
                        old(self).base_delays@.len() - 1,
                        old(self).base_delays@[old(self).base_delays@.len() - 1],
                    ));
                }
            }
        }
    }

    /// Inserts a current-delay sample after evicting samples older than one
    /// round trip. RFC 6817 calls for an eviction window of one RTT; the
    /// window used here is the RTT estimate, held in milliseconds, expressed
    /// in microseconds.
    pub fn update_current_delay(&mut self, v: i64, now: i64)
        requires
            old(self).wf(),
            -0xFFFF_FFFF <= v <= 0xFFFF_FFFF,
            0 <= now <= 0xFFFF_FFFF,
        ensures
            final(self).wf(),
            *final(self) == (UtpSocket {
                current_delays: final(self).current_delays,
                ..*old(self)
            }),
            final(self).current_delays@ == spec_evict(
                old(self).current_delays@,
                now,
                (old(self).rtt * 1000) as i64,
            ).push(DelayDifferenceSample { received_at: now, difference: v }),
    {
        let window: i64 = (self.rtt as i64) * 1000;
        let ghost cd0 = self.current_delays@;
        while self.current_delays.len() > 0 && now - self.current_delays[0].received_at > window
            invariant
                self.wf(),
                -0xFFFF_FFFF <= v <= 0xFFFF_FFFF,
                0 <= now <= 0xFFFF_FFFF,
                window == old(self).rtt as i64 * 1000,
                spec_evict(cd0, now, window) == spec_evict(self.current_delays@, now, window),
                *self == (UtpSocket { current_delays: self.current_delays, ..*old(self) }),
                cd0 == old(self).current_delays@,
            decreases self.current_delays@.len(),
        {
            self.current_delays.remove(0);
        }
        proof {
            assert(spec_evict(self.current_delays@, now, window) == self.current_delays@);
        }
        self.current_delays.push(DelayDifferenceSample { received_at: now, difference: v });
    }

    /// The smallest base delay on record, in microseconds; 0 with no samples.
    pub fn min_base_delay(&self) -> (r: i64)
        requires
            self.wf(),
        ensures
            r == spec_min_base(self.base_delays@),
    {
        let mut r: i64 = 0;
        let mut i: usize = 0;
        if self.base_delays.len() == 0 {
            return 0;
        }
        r = self.base_delays[0];
        i = 1;
        while i < self.base_delays.len()
            invariant
                self.wf(),
                1 <= i <= self.base_delays@.len(),
                r == crate::delays::min_prefix(self.base_delays@, i as int),
            decreases self.base_delays@.len() - i,
        {
            if self.base_delays[i] < r {
                r = self.base_delays[i];
            }
            i = i + 1;
        }
        r
    }
}

} // verus!

verus! {

/// The new round-trip estimate, variance, and congestion timeout after a
/// delay measurement, per the Jacobson-style update: the variance moves a
/// quarter of the way toward the deviation, the estimate an eighth of the way
/// toward the measurement, and the timeout is `rtt + 4 * variance` clamped to
/// the allowed range.
pub open spec fn spec_rtt_step(rtt: int, rtt_variance: int, current_delay: int) -> (int, int, int) {
    let delta = rtt - current_delay;
    let dabs = if delta >= 0 {
        delta
    } else {
        -delta
    };
    let var2 = rtt_variance + tdiv(dabs - rtt_variance, 4);
    let rtt2 = rtt + tdiv(current_delay - rtt, 8);
    let t = rtt2 + var2 * 4;
    let t2 = if t < MIN_CONGESTION_TIMEOUT as int {
        MIN_CONGESTION_TIMEOUT as int
    } else {
        t
    };
    (rtt2, var2, if t2 > MAX_CONGESTION_TIMEOUT as int {
        MAX_CONGESTION_TIMEOUT as int
    } else {
        t2
    })
}

/// The congestion window after `bytes_newly_acked` bytes were acknowledged
/// while the queueing delay was `qd`: the window moves by
/// `off_target * bytes_newly_acked * MSS / (TARGET * cwnd)` where
/// `off_target = TARGET - qd` is clamped to one target either way, and the
/// result is capped at the flight size plus one allowed segment and floored
/// at two segments.
pub open spec fn spec_cwnd_update(cwnd: u32, qd: int, bytes_newly_acked: u32, flightsize: u32) -> int {
    let off = spec_off_target(qd);
    let inc = tdiv(off * bytes_newly_acked * MSS, TARGET * cwnd);
    let c2 = cwnd + inc;
    let maxw = flightsize + ALLOWED_INCREASE * MSS;
    let c3 = if c2 > maxw {
        maxw
    } else {
        c2
    };
    if c3 < MIN_CWND * MSS {
        MIN_CWND as int * MSS as int
    } else {
        c3
    }
}

/// The queueing-delay estimate: the smoothed current delay minus the smallest
/// base delay on record.
pub open spec fn spec_queuing_delay(cd: Seq<DelayDifferenceSample>, bd: Seq<i64>) -> int {
    spec_ewma(cd.map_values(|s: DelayDifferenceSample| s.difference)) - spec_min_base(bd)
}

impl UtpSocket {
    /// The current delay, smoothed by an EWMA with factor 0.333 over the
    /// samples younger than one round trip.
    pub fn filtered_current_delay(&self) -> (r: i64)
        requires
            self.wf(),
        ensures
            r == spec_ewma(self.current_delays@.map_values(|s: DelayDifferenceSample| s.difference)),
            -0xFFFF_FFFF <= r <= 0xFFFF_FFFF,
    {
        let ghost diffs = self.current_delays@.map_values(|s: DelayDifferenceSample| s.difference);
        proof {
            crate::delays::lemma_ewma_prefix_bound(diffs, diffs.len() as int, 0xFFFF_FFFF);
        }
        let mut e: i64 = 0;
        let mut i: usize = 0;
        while i < self.current_delays.len()
            invariant
                self.wf(),
                0 <= i <= self.current_delays@.len(),
                diffs == self.current_delays@.map_values(|s: DelayDifferenceSample| s.difference),
                e == crate::delays::ewma_prefix(diffs, i as int),
                -0xFFFF_FFFF <= e <= 0xFFFF_FFFF,
            decreases self.current_delays@.len() - i,
        {
            let v = self.current_delays[i].difference;
            proof {
                assert(diffs[i as int] == self.current_delays@[i as int].difference);
                crate::delays::lemma_ewma_prefix_bound(diffs, i + 1, 0xFFFF_FFFF);
            }
            e = tdiv_i64(333 * v + 667 * e, 1000);
            i = i + 1;
        }
        e
    }

    /// The queueing-delay estimate used as the LEDBAT control signal.
    pub fn queuing_delay(&self) -> (r: i64)
        requires
            self.wf(),
        ensures
            r == spec_queuing_delay(self.current_delays@, self.base_delays@),
            -0x2_0000_0000 <= r <= 0x2_0000_0000,
    {
        let filtered_current_delay = self.filtered_current_delay();
        let min_base_delay = self.min_base_delay();
        proof {
            if self.base_delays@.len() > 0 {
                crate::delays::lemma_min_prefix(self.base_delays@, self.base_delays@.len() as int);
            }
        }
        filtered_current_delay - min_base_delay
    }

    /// Feeds a delay measurement (milliseconds) into the round-trip estimator
    /// and recomputes the congestion timeout.
    pub fn update_congestion_timeout(&mut self, current_delay: i32)
        requires
            old(self).wf(),
            0 <= current_delay <= 100_000,
        ensures
            final(self).wf(),
            *final(self) == (UtpSocket {
                rtt: final(self).rtt,
                rtt_variance: final(self).rtt_variance,
                congestion_timeout: final(self).congestion_timeout,
                ..*old(self)
            }),
            (final(self).rtt as int, final(self).rtt_variance as int,
            final(self).congestion_timeout as int) == spec_rtt_step(
                old(self).rtt as int,
                old(self).rtt_variance as int,
                current_delay as int,
            ),
    {
        let delta: i32 = self.rtt - current_delay;
        let dabs: i32 = if delta >= 0 {
            delta
        } else {
            -delta
        };
        let dv = tdiv_i64(dabs as i64 - self.rtt_variance as i64, 4);
        self.rtt_variance = self.rtt_variance + (dv as i32);
        let dr = tdiv_i64(current_delay as i64 - self.rtt as i64, 8);
        self.rtt = self.rtt + (dr as i32);
        let t: i64 = self.rtt as i64 + self.rtt_variance as i64 * 4;
        let t2: u64 = if t < MIN_CONGESTION_TIMEOUT as i64 {
            MIN_CONGESTION_TIMEOUT
        } else {
            t as u64
        };
        self.congestion_timeout = if t2 > MAX_CONGESTION_TIMEOUT {
            MAX_CONGESTION_TIMEOUT
        } else {
            t2
        };
    }

    /// Applies the LEDBAT window update for `bytes_newly_acked` acknowledged
    /// bytes under queueing delay `qd`.
    pub fn update_congestion_window(&mut self, qd: i64, bytes_newly_acked: u32)
        requires
            old(self).wf(),
            -0x2_0000_0000 <= qd <= 0x2_0000_0000,
            old(self).curr_window <= u32::MAX - ALLOWED_INCREASE * MSS,
        ensures
            final(self).wf(),
            *final(self) == (UtpSocket { cwnd: final(self).cwnd, ..*old(self) }),
            final(self).cwnd as int == spec_cwnd_update(
                old(self).cwnd,
                qd as int,
                bytes_newly_acked,
                old(self).curr_window,
            ),
    {
        let flightsize = self.curr_window;
        let off: i64 = if TARGET - qd > TARGET {
            TARGET
        } else if TARGET - qd < -TARGET {
            -TARGET
        } else {
            TARGET - qd
        };
        let ghost offi = off as int;
        let ghost cw = self.cwnd as int;
        proof {
            assert(offi * bytes_newly_acked * MSS <= 100_000i64 * 0xFFFF_FFFFi64 * 1400i64
                && offi * bytes_newly_acked * MSS >= -(100_000i64 * 0xFFFF_FFFFi64 * 1400i64))
                by (nonlinear_arith)
                requires
                    -100_000 <= offi <= 100_000,
                    0 <= bytes_newly_acked <= 0xFFFF_FFFFu32,
            ;
            assert(TARGET as int * cw <= 100_000i64 * 0xFFFF_FFFFi64 && TARGET as int * cw
                >= 100_000int * 1400int) by (nonlinear_arith)
                requires
                    1400 <= cw <= 0xFFFF_FFFFu32,
            ;
        }
        let num: i64 = off * (bytes_newly_acked as i64) * (MSS as i64);
        let den: i64 = TARGET * (self.cwnd as i64);
        let inc: i64 = tdiv_i64(num, den);
        proof {
            crate::delays::lemma_tdiv_bound(num as int, den as int, 100_000i64 * 0xFFFF_FFFFi64
                * 1400i64 as int);
        }
        let c2: i64 = self.cwnd as i64 + inc;
        let maxw: i64 = flightsize as i64 + (ALLOWED_INCREASE * MSS) as i64;
        let c3: i64 = if c2 > maxw {
            maxw
        } else {
            c2
        };
        let c4: i64 = if c3 < (MIN_CWND * MSS) as i64 {
            (MIN_CWND * MSS) as i64
        } else {
            c3
        };
        self.cwnd = c4 as u32;
    }
}

} // verus!

verus! {

/// Whether the reassembly buffer holds a packet whose sequence number the
/// bitmap represents at offset `k`, that is, `ack + 2 + k`.
pub open spec fn sack_wanted(b: Seq<Packet>, ack: u16, k: int) -> bool {
    exists|j: int|
        0 <= j < b.len() && (#[trigger] b[j])@.seq_nr >= ack + 2 && k == b[j]@.seq_nr - ack - 2
}

/// Appending a zero byte to a bitmap sets no bit.
proof fn lemma_sack_bit_push_zero(p: Seq<u8>, k: int)
    ensures
        sack_bit(p.push(0), k) == sack_bit(p, k),
{
    let q = p.push(0);
    if 0 <= k < q.len() * 8 {
        assert(k / 8 < q.len() && k / 8 >= 0 && 0 <= k % 8 < 8) by (nonlinear_arith)
            requires
                0 <= k < q.len() * 8,
        ;
        if k / 8 < p.len() {
            assert(k < p.len() * 8) by (nonlinear_arith)
                requires
                    k / 8 < p.len(),
                    0 <= k,
            ;
            assert(q[k / 8] == p[k / 8]);
        } else {
            assert(k >= p.len() * 8) by (nonlinear_arith)
                requires
                    k / 8 >= p.len(),
                    0 <= k,
            ;
            assert(q[k / 8] == 0);
            let j = (k % 8) as u8;
            assert((0u8 >> j) & 1 == 0) by (bit_vector);
        }
    }
}

/// Setting bit `bit` of byte `byte` sets exactly the bitmap bit
/// `byte * 8 + bit` and leaves every other bit alone.
proof fn lemma_sack_bit_set(p: Seq<u8>, byte: int, bit: u8, k: int)
    requires
        0 <= byte < p.len(),
        bit < 8,
    ensures
        sack_bit(p.update(byte, p[byte] | (1u8 << bit)), k) == (sack_bit(p, k) || k == byte * 8
            + bit),
{
    let q = p.update(byte, p[byte] | (1u8 << bit));
    assert(q.len() == p.len());
    if 0 <= k < p.len() * 8 {
        assert(0 <= k / 8 < p.len() && 0 <= k % 8 < 8 && k == (k / 8) * 8 + (k % 8))
            by (nonlinear_arith)
            requires
                0 <= k < p.len() * 8,
        ;
        if k / 8 == byte {
            let x = p[byte];
            let j = (k % 8) as u8;
            assert(((x | (1u8 << bit)) >> j) & 1 == if j == bit {
                1u8
            } else {
                (x >> j) & 1
            }) by (bit_vector)
                requires
                    bit < 8,
                    j < 8,
            ;
            assert((x >> j) & 1 == 0 || (x >> j) & 1 == 1) by (bit_vector);
            assert(k == byte * 8 + bit <==> k % 8 == bit);
        } else {
            assert(q[k / 8] == p[k / 8]);
            assert(k != byte * 8 + bit) by (nonlinear_arith)
                requires
                    k / 8 != byte,
                    0 <= k,
                    bit < 8,
                    k == (k / 8) * 8 + (k % 8),
                    0 <= k % 8 < 8,
            ;
        }
    } else {
        assert(k != byte * 8 + bit) by (nonlinear_arith)
            requires
                !(0 <= k < p.len() * 8),
                0 <= byte < p.len(),
                bit < 8,
        ;
    }
}

impl UtpSocket {
    /// Builds the selective-ACK bitmap over the reassembly buffer: bit `k` is
    /// set exactly when a packet with sequence number `ack_nr + 2 + k` is
    /// buffered. The bitmap's length is a multiple of four bytes, just large
    /// enough for the highest set bit; it is empty when nothing is buffered
    /// beyond `ack_nr + 1`.
    #[verifier::rlimit(100)]
    pub fn build_selective_ack(&self) -> (r: Vec<u8>)
        requires
            self.wf(),
        ensures
            r@.len() % 4 == 0,
            r@.len() <= 8192,
            forall|k: int| #[trigger]
                sack_bit(r@, k) == sack_wanted(self.incoming_buffer@, self.ack_nr, k),
            (r@.len() > 0) == exists|k: int|
                sack_wanted(self.incoming_buffer@, self.ack_nr, k),
            r@.len() > 0 ==> exists|k: int|
                #[trigger] sack_wanted(self.incoming_buffer@, self.ack_nr, k) && r@.len() <= k / 8
                    + 4,
    {
        let ghost b = self.incoming_buffer@;
        let ack = self.ack_nr;
        let mut sack: Vec<u8> = Vec::new();
        let mut i: usize = 0;
        proof {
            assert(b.take(0) =~= Seq::<Packet>::empty());
        }
        while i < self.incoming_buffer.len()
            invariant
                self.wf(),
                b == self.incoming_buffer@,
                ack == self.ack_nr,
                0 <= i <= b.len(),
                sack@.len() % 4 == 0,
                sack@.len() <= 8192,
                forall|k: int| #[trigger]
                    sack_bit(sack@, k) == sack_wanted(b.take(i as int), ack, k),
                (sack@.len() > 0) == exists|k: int| sack_wanted(b.take(i as int), ack, k),
                sack@.len() > 0 ==> exists|k: int|
                    #[trigger] sack_wanted(b.take(i as int), ack, k) && sack@.len() <= k / 8 + 4,
            decreases b.len() - i,
        {
            let s = self.incoming_buffer[i].seq_nr();
            let ghost prev = b.take(i as int);
            proof {
                assert(b.take(i + 1) =~= b.take(i as int).push(b[i as int]));
            }
            if s > ack && s - ack >= 2 {
                let diff: u16 = s - ack - 2;
                let byte: usize = (diff / 8) as usize;
                let bit: u8 = (diff % 8) as u8;
                proof {
                    assert(byte <= 8191 && bit < 8 && diff == byte * 8 + bit);
                }
                let needed: usize = (byte / 4 + 1) * 4;
                proof {
                    assert(byte < needed <= byte + 4 && needed % 4 == 0 && needed <= 8192)
                        by (nonlinear_arith)
                        requires
                            needed == (byte / 4 + 1) * 4,
                            0 <= byte <= 8191,
                    ;
                }
                let ghost len0 = sack@.len();
                while sack.len() < needed
                    invariant
                        needed <= 8192,
                        needed % 4 == 0,
                        sack@.len() <= 8192,
                        len0 <= sack@.len(),
                        sack@.len() == len0 || sack@.len() <= needed,
                        sack@.len() % 4 == 0 || sack@.len() <= needed,
                        forall|k: int| #[trigger]
                            sack_bit(sack@, k) == sack_wanted(prev, ack, k),
                    decreases needed - sack@.len(),
                {
                    let ghost sp = sack@;
                    sack.push(0);
                    proof {
                        assert forall|k: int| #[trigger]
                            sack_bit(sack@, k) == sack_wanted(prev, ack, k) by {
                            lemma_sack_bit_push_zero(sp, k);
                        }
                    }
                }
                proof {
                    assert(sack@.len() == if len0 >= needed {
                        len0 as int
                    } else {
                        needed as int
                    });
                }
                if byte < sack.len() {
                    let ghost sp = sack@;
                    let cur = sack[byte];
                    let updated = cur | (1u8 << bit);
                    sack.remove(byte);
                    sack.insert(byte, updated);
                    proof {
                        assert(sack@ =~= sp.update(byte as int, sp[byte as int] | (1u8 << bit)));
                        assert forall|k: int| #[trigger]
                            sack_bit(sack@, k) == (sack_wanted(prev, ack, k) || k
                                == byte * 8 + bit) by {
                            lemma_sack_bit_set(sp, byte as int, bit, k);
                        }
                        assert forall|k: int|
                            sack_wanted(b.take(i + 1), ack, k) == (sack_wanted(prev, ack, k) || k
                                == diff as int) by {
                            if sack_wanted(prev, ack, k) {
                                let j = choose|j: int|
                                    0 <= j < prev.len() && (#[trigger] prev[j])@.seq_nr >= ack + 2
                                        && k == prev[j]@.seq_nr - ack - 2;
                                assert(b.take(i + 1)[j] == prev[j]);
                            }
                            if k == diff as int {
                                assert(b.take(i + 1)[i as int] == b[i as int]);
                                assert(b.take(i + 1)[i as int]@.seq_nr >= ack + 2);
                            }
                            if sack_wanted(b.take(i + 1), ack, k) {
                                let j = choose|j: int|
                                    0 <= j < b.take(i + 1).len() && (#[trigger] b.take(
                                        i + 1,
                                    )[j])@.seq_nr >= ack + 2 && k == b.take(i + 1)[j]@.seq_nr - ack
                                        - 2;
                                if j < i {
                                    assert(prev[j] == b.take(i + 1)[j]);
                                }
                            }
                        }
                        assert(sack_wanted(b.take(i + 1), ack, diff as int));
                        assert(sack@.len() > 0);
                        if len0 >= needed {
                            let k0 = choose|k: int|
                                #[trigger] sack_wanted(prev, ack, k) && len0 <= k / 8 + 4;
                            assert(sack_wanted(b.take(i + 1), ack, k0));
                            assert(sack@.len() <= k0 / 8 + 4);
                        } else {
                            assert(sack@.len() <= diff as int / 8 + 4);
                        }
                    }
                }
            } else {
                proof {
                    assert forall|k: int|
                        sack_wanted(b.take(i + 1), ack, k) == sack_wanted(prev, ack, k) by {
                        if sack_wanted(prev, ack, k) {
                            let j = choose|j: int|
                                0 <= j < prev.len() && (#[trigger] prev[j])@.seq_nr >= ack + 2 && k
                                    == prev[j]@.seq_nr - ack - 2;
                            assert(b.take(i + 1)[j] == prev[j]);
                        }
                        if sack_wanted(b.take(i + 1), ack, k) {
                            let j = choose|j: int|
                                0 <= j < b.take(i + 1).len() && (#[trigger] b.take(
                                    i + 1,
                                )[j])@.seq_nr >= ack + 2 && k == b.take(i + 1)[j]@.seq_nr - ack
                                    - 2;
                            if j < i {
                                assert(prev[j] == b.take(i + 1)[j]);
                            } else {
                                assert(b.take(i + 1)[j] == b[i as int]);
                            }
                        }
                    }
                    if sack@.len() > 0 {
                        let k0 = choose|k: int|
                            #[trigger] sack_wanted(prev, ack, k) && sack@.len() <= k / 8 + 4;
                        assert(sack_wanted(b.take(i + 1), ack, k0));
                    }
                    if exists|k: int| #[trigger] sack_wanted(b.take(i + 1), ack, k) {
                        let k1 = choose|k: int| #[trigger] sack_wanted(b.take(i + 1), ack, k);
                        assert(sack_wanted(prev, ack, k1));
                        assert(sack@.len() > 0);
                    }
                }
            }
            i = i + 1;
        }
        proof {
            assert(b.take(b.len() as int) =~= b);
        }
        sack
    }
}

} // verus!

verus! {

impl UtpSocket {
    /// The reply to an in-order Data packet is a plain State
    /// acknowledgement; when the packet arrived ahead of a gap, the reply
    /// carries a selective-ACK extension describing the reassembly buffer.
    pub fn handle_data_packet(&self, packet: &Packet, now: u32) -> (r: Packet)
        requires
            self.wf(),
        ensures
            r@.wf(),
            r@ == (PacketView {
                extensions: r@.extensions,
                ..(PacketView {
                    ty: PacketType::State,
                    connection_id: self.sender_connection_id,
                    timestamp_microseconds: now,
                    timestamp_difference_microseconds: wrap_sub32(
                        now,
                        packet@.timestamp_microseconds,
                    ),
                    wnd_size: 0,
                    seq_nr: self.seq_nr,
                    ack_nr: self.ack_nr,
                    extensions: Seq::<ExtensionView>::empty(),
                    payload: Seq::<u8>::empty(),
                })
            }),
            r@.extensions.len() <= 1,
            wrap_sub16(packet@.seq_nr, self.ack_nr) <= 1 ==> r@.extensions.len() == 0,
            r@.extensions.len() == 1 ==> {
                &&& r@.extensions[0].ext_type == SELECTIVE_ACK
                &&& r@.extensions[0].payload.len() % 4 == 0
                &&& r@.extensions[0].payload.len() <= 252
                &&& forall|k: int| #[trigger]
                    sack_bit(r@.extensions[0].payload, k) == sack_wanted(
                        self.incoming_buffer@,
                        self.ack_nr,
                        k,
                    )
            },
            (wrap_sub16(packet@.seq_nr, self.ack_nr) > 1 && (exists|k: int|
                sack_wanted(self.incoming_buffer@, self.ack_nr, k)) && (forall|k: int|
                sack_wanted(self.incoming_buffer@, self.ack_nr, k) ==> k < 1985)) ==> r@.extensions.len()
                == 1,
    {
        let mut reply = self.prepare_reply(packet, PacketType::State, now);
        if packet.seq_nr().wrapping_sub(self.ack_nr) > 1 {
            let sack = self.build_selective_ack();
            if sack.len() > 0 && sack.len() <= 252 {
                reply.set_sack(sack);
                proof {
                    assert(reply@.extensions =~= seq![reply@.extensions[0]]);
                }
            } else {
                proof {
                    if sack@.len() > 252 {
                        let k0 = choose|k: int|
                            #[trigger] sack_wanted(self.incoming_buffer@, self.ack_nr, k)
                                && sack@.len() <= k / 8 + 4;
                        if forall|k: int|
                            sack_wanted(self.incoming_buffer@, self.ack_nr, k) ==> k < 1985 {
                            assert(k0 < 1985);
                            assert(k0 / 8 + 4 <= 252);
                        }
                    }
                }
            }
        }
        reply
    }
}

} // verus!

verus! {

/// The (at most one) window packet a retransmission request for `seq`
/// produces: the first window packet carrying `seq`, or nothing.
pub open spec fn resend_of(w: Seq<Packet>, seq: u16) -> Seq<PacketView> {
    match spec_position(w, seq) {
        Some(i) => seq![w[i]@],
        None => Seq::empty(),
    }
}

/// The retransmissions a triple duplicate ACK triggers: every window packet
/// (from index `i` on) whose sequence number is above the acknowledged one.
pub open spec fn triple_resends(w: Seq<Packet>, ack: u16, i: int) -> Seq<PacketView>
    decreases w.len() - i,
{
    if i < 0 || i >= w.len() {
        Seq::empty()
    } else if w[i]@.seq_nr <= ack {
        triple_resends(w, ack, i + 1)
    } else {
        resend_of(w, w[i]@.seq_nr) + triple_resends(w, ack, i + 1)
    }
}

/// The retransmissions the cleared bits of a selective-ACK bitmap trigger,
/// scanning from bit `idx`: each cleared bit names the window packet at
/// `ack + 2 + idx`, until the first cleared bit at or beyond the end of the
/// send window stops the scan.
pub open spec fn sack_resends(w: Seq<Packet>, ack: u16, p: Seq<u8>, idx: int) -> Seq<PacketView>
    decreases p.len() * 8 - idx,
{
    if idx < 0 || idx >= p.len() * 8 {
        Seq::empty()
    } else if sack_bit(p, idx) {
        sack_resends(w, ack, p, idx + 1)
    } else {
        let seqn = ((ack + 2 + idx) % 0x10000) as u16;
        if w.len() > 0 && seqn < w.last()@.seq_nr {
            resend_of(w, seqn) + sack_resends(w, ack, p, idx + 1)
        } else {
            Seq::empty()
        }
    }
}

/// Whether the bitmap's cleared bits report a loss: its first cleared bit
/// falls inside the send window.
pub open spec fn sack_loss(w: Seq<Packet>, ack: u16, p: Seq<u8>, idx: int) -> bool
    decreases p.len() * 8 - idx,
{
    if idx < 0 || idx >= p.len() * 8 {
        false
    } else if sack_bit(p, idx) {
        sack_loss(w, ack, p, idx + 1)
    } else {
        let seqn = ((ack + 2 + idx) % 0x10000) as u16;
        w.len() > 0 && seqn < w.last()@.seq_nr
    }
}

/// The number of set bits of an extension's bitmap.
pub open spec fn ext_ones(e: ExtensionView) -> int {
    e.ones_below(e.payload.len() * 8int)
}

/// The retransmissions one extension triggers: with three or more bits set,
/// the packet right after the cumulative ACK is presumed lost and retransmitted
/// first, then the cleared bits are scanned; other extension types are ignored.
pub open spec fn ext_resends(w: Seq<Packet>, ack: u16, e: ExtensionView) -> Seq<PacketView> {
    if e.ext_type == SELECTIVE_ACK {
        (if ext_ones(e) >= 3 {
            resend_of(w, ((ack + 1) % 0x10000) as u16)
        } else {
            Seq::empty()
        }) + sack_resends(w, ack, e.payload, 0)
    } else {
        Seq::empty()
    }
}

/// Whether one extension reports a loss.
pub open spec fn ext_loss(w: Seq<Packet>, ack: u16, e: ExtensionView) -> bool {
    e.ext_type == SELECTIVE_ACK && (ext_ones(e) >= 3 || sack_loss(w, ack, e.payload, 0))
}

/// The retransmissions of all extensions from index `i` on, concatenated.
pub open spec fn all_ext_resends(w: Seq<Packet>, ack: u16, exts: Seq<ExtensionView>, i: int) -> Seq<
    PacketView,
>
    decreases exts.len() - i,
{
    if i < 0 || i >= exts.len() {
        Seq::empty()
    } else {
        ext_resends(w, ack, exts[i]) + all_ext_resends(w, ack, exts, i + 1)
    }
}

/// Whether any extension from index `i` on reports a loss.
pub open spec fn all_ext_loss(w: Seq<Packet>, ack: u16, exts: Seq<ExtensionView>, i: int) -> bool
    decreases exts.len() - i,
{
    if i < 0 || i >= exts.len() {
        false
    } else {
        ext_loss(w, ack, exts[i]) || all_ext_loss(w, ack, exts, i + 1)
    }
}

/// `off_target`, the LEDBAT control signal normalized to the target delay,
/// kept as a clamped numerator over `TARGET`.
pub open spec fn spec_off_target(qd: int) -> int {
    if TARGET - qd > TARGET as int {
        TARGET as int
    } else if TARGET - qd < -(TARGET as int) {
        -(TARGET as int)
    } else {
        TARGET - qd
    }
}

/// The delay measurement, in milliseconds, fed to the round-trip estimator:
/// the target minus the integer part of `off_target`, scaled to milliseconds.
pub open spec fn spec_measured_rtt_ms(qd: int) -> int {
    tdiv(TARGET - tdiv(spec_off_target(qd), TARGET as int), 1000)
}

/// How an endpoint processes an acknowledgement (a State packet, or a Fin
/// handled as one): duplicate-ACK bookkeeping; when the cumulative ACK names
/// a window packet, a delay sample and the LEDBAT window, round-trip and
/// timeout updates; the retransmissions asked for by selective-ACK extensions
/// and by a third duplicate ACK; a halved window on loss; and the send window
/// advanced past the acknowledged packet.
pub open spec fn state_packet_step(
    pre: UtpSocket,
    post: UtpSocket,
    p: PacketView,
    now: u32,
    resends: Seq<PacketView>,
) -> bool {
    let w = pre.send_window@;
    let dup_same = p.ack_nr == pre.last_acked;
    let la = if dup_same {
        pre.last_acked
    } else {
        p.ack_nr
    };
    let dup: int = if dup_same {
        if pre.duplicate_ack_count == u32::MAX {
            u32::MAX as int
        } else {
            pre.duplicate_ack_count + 1
        }
    } else {
        1
    };
    let triple = w.len() > 0 && dup == 3;
    let loss = triple || all_ext_loss(w, p.ack_nr, p.extensions, 0);
    let cwnd1: int = if spec_position(w, p.ack_nr) is Some {
        spec_cwnd_update(
            pre.cwnd,
            spec_queuing_delay(post.current_delays@, post.base_delays@),
            win_bytes(w.take(spec_position(w, p.ack_nr).unwrap() + 1)) as u32,
            pre.curr_window,
        )
    } else {
        pre.cwnd as int
    };
    &&& post.last_acked == la
    &&& post.last_acked_timestamp == if dup_same {
        pre.last_acked_timestamp
    } else {
        now
    }
    &&& post.duplicate_ack_count as int == dup
    &&& match spec_position(w, p.ack_nr) {
        Some(i) => {
            let our_delay = (now as int - w[i]@.timestamp_microseconds as int) as i64;
            let ub = spec_update_base(pre.base_delays@, pre.last_rollover, our_delay, now as i64);
            &&& post.base_delays@ == ub.0
            &&& post.last_rollover == ub.1
            &&& post.current_delays@ == spec_evict(
                pre.current_delays@,
                now as i64,
                (pre.rtt * 1000) as i64,
            ).push(DelayDifferenceSample { received_at: now as i64, difference: our_delay })
            &&& {
                let qd = spec_queuing_delay(post.current_delays@, post.base_delays@);
                let st = spec_rtt_step(
                    pre.rtt as int,
                    pre.rtt_variance as int,
                    spec_measured_rtt_ms(qd),
                );
                post.rtt as int == st.0 && post.rtt_variance as int == st.1
                    && post.congestion_timeout as int == st.2
            }
        },
        None => {
            &&& post.base_delays@ == pre.base_delays@
            &&& post.last_rollover == pre.last_rollover
            &&& post.current_delays@ == pre.current_delays@
            &&& post.rtt == pre.rtt
            &&& post.rtt_variance == pre.rtt_variance
            &&& post.congestion_timeout == pre.congestion_timeout
        },
    }
    &&& post.cwnd as int == if loss {
        if cwnd1 / 2 >= MIN_CWND as int * MSS as int {
            cwnd1 / 2
        } else {
            MIN_CWND as int * MSS as int
        }
    } else {
        cwnd1
    }
    &&& resends == all_ext_resends(w, p.ack_nr, p.extensions, 0) + (if triple {
        triple_resends(w, p.ack_nr, 0)
    } else {
        Seq::<PacketView>::empty()
    })
    &&& match spec_position(w, la) {
        Some(j) => post.send_window@ == w.skip(j + 1) && post.curr_window == pre.curr_window
            - win_bytes(w.take(j + 1)),
        None => post.send_window@ == w && post.curr_window == pre.curr_window,
    }
    &&& post == (UtpSocket {
        last_acked: post.last_acked,
        last_acked_timestamp: post.last_acked_timestamp,
        duplicate_ack_count: post.duplicate_ack_count,
        base_delays: post.base_delays,
        current_delays: post.current_delays,
        last_rollover: post.last_rollover,
        rtt: post.rtt,
        rtt_variance: post.rtt_variance,
        congestion_timeout: post.congestion_timeout,
        cwnd: post.cwnd,
        send_window: post.send_window,
        curr_window: post.curr_window,
        ..pre
    })
}

/// Sum of the wire lengths of the window packets up to and including `index`.
fn acked_bytes(w: &Vec<Packet>, index: usize) -> (r: u32)
    requires
        index < w@.len(),
        forall|i: int|
            0 <= i < w@.len() ==> (#[trigger] w@[i])@.wf() && spec_wire_len(w@[i]@) <= MSS as int,
        win_bytes(w@) <= u32::MAX,
    ensures
        r == win_bytes(w@.take(index + 1)),
{
    proof {
        assert(w@.take(0) =~= Seq::<Packet>::empty());
    }
    let n = w.len();
    let mut bytes: u32 = 0;
    let mut j: usize = 0;
    while j <= index
        invariant
            0 <= j <= index + 1,
            index < n,
            n == w@.len(),
            forall|i: int|
                0 <= i < w@.len() ==> (#[trigger] w@[i])@.wf() && spec_wire_len(w@[i]@)
                    <= MSS as int,
            win_bytes(w@) <= u32::MAX,
            bytes == win_bytes(w@.take(j as int)),
        decreases index + 1 - j,
    {
        proof {
            lemma_win_bytes_split(w@, j + 1);
            lemma_win_bytes_nonneg(w@.skip(j + 1));
            lemma_win_bytes_nonneg(w@.take(j as int));
            assert(w@.take(j + 1).drop_last() =~= w@.take(j as int));
            assert(w@.take(j + 1).last() == w@[j as int]);
        }
        let l = w[j].len();
        bytes = bytes + (l as u32);
        j = j + 1;
    }
    bytes
}

impl UtpSocket {
    /// Scans a selective-ACK bitmap's cleared bits, collecting the window
    /// packets to retransmit and noting whether a loss was reported.
    fn sack_scan(&self, ack: u16, ext: &Extension, resends: &mut Vec<Packet>, loss: &mut bool)
        requires
            ext@.wf(),
        ensures
            final(resends)@.map_values(|q: Packet| q@) == old(resends)@.map_values(
                |q: Packet| q@,
            ) + sack_resends(self.send_window@, ack, ext@.payload, 0),
            *final(loss) == (*old(loss) || sack_loss(self.send_window@, ack, ext@.payload, 0)),
    {
        let ghost w = self.send_window@;
        let ghost pl = ext@.payload;
        let ghost rv0 = old(resends)@.map_values(|q: Packet| q@);
        let total_bits = ext.len() * 8;
        let mut idx: usize = 0;
        let mut done = false;
        while idx < total_bits && !done
            invariant
                w == self.send_window@,
                pl == ext@.payload,
                ext@.wf(),
                total_bits == pl.len() * 8,
                0 <= idx <= total_bits,
                !done ==> resends@.map_values(|q: Packet| q@) + sack_resends(w, ack, pl, idx as int)
                    == rv0 + sack_resends(w, ack, pl, 0),
                !done ==> (*loss || sack_loss(w, ack, pl, idx as int)) == (*old(loss) || sack_loss(
                    w,
                    ack,
                    pl,
                    0,
                )),
                done ==> resends@.map_values(|q: Packet| q@) == rv0 + sack_resends(w, ack, pl, 0),
                done ==> *loss == (*old(loss) || sack_loss(w, ack, pl, 0)),
            decreases total_bits - idx, (if done {
                0int
            } else {
                1int
            }),
        {
            if ext.bit(idx) {
                idx = idx + 1;
            } else {
                let seqn: u16 = (((ack as u32) + 2 + (idx as u32)) % 0x10000) as u16;
                let n = self.send_window.len();
                let in_window = n > 0 && seqn < self.send_window[n - 1].seq_nr();
                if in_window {
                    let ghost rvc = resends@.map_values(|q: Packet| q@);
                    if let Some(p) = self.find_in_window(seqn) {
                        let ghost pv = p@;
                        resends.push(p);
                        proof {
                            assert(resends@.map_values(|q: Packet| q@) =~= rvc + seq![pv]);
                        }
                    }
                    *loss = true;
                    idx = idx + 1;
                } else {
                    done = true;
                }
            }
        }
        proof {
            if !done {
                assert(sack_resends(w, ack, pl, idx as int) == Seq::<PacketView>::empty());
                assert(!sack_loss(w, ack, pl, idx as int));
            }
        }
    }

    /// The first window packet carrying sequence number `seq`, as a copy
    /// ready for retransmission.
    fn find_in_window(&self, seq: u16) -> (r: Option<Packet>)
        ensures
            match r {
                Some(p) => resend_of(self.send_window@, seq) == seq![p@],
                None => resend_of(self.send_window@, seq) == Seq::<PacketView>::empty(),
            },
    {
        match position_of(&self.send_window, seq) {
            Some(i) => {
                proof {
                    lemma_find_seq_from(self.send_window@, seq, 0);
                }
                Some(self.send_window[i].clone())
            },
            None => None,
        }
    }
}

} // verus!

verus! {

impl UtpSocket {
    /// Processes an acknowledgement: duplicate-ACK bookkeeping, the LEDBAT
    /// delay/window/timeout updates when the cumulative ACK names an in-flight
    /// packet, loss handling for selective ACKs and triple duplicate ACKs,
    /// and advancing the send window. Returns the packets to retransmit, in
    /// order.
    #[verifier::rlimit(100)]
    pub fn handle_state_packet(&mut self, packet: &Packet, now: u32) -> (resends: Vec<Packet>)
        requires
            old(self).wf(),
            packet@.wf(),
            old(self).curr_window <= u32::MAX - ALLOWED_INCREASE * MSS,
        ensures
            final(self).wf(),
            state_packet_step(
                *old(self),
                *final(self),
                packet@,
                now,
                resends@.map_values(|q: Packet| q@),
            ),
    {
        let ghost w = old(self).send_window@;
        let ghost ack16 = packet@.ack_nr;
        // Duplicate-ACK bookkeeping.
        if packet.ack_nr() == self.last_acked {
            if self.duplicate_ack_count < u32::MAX {
                self.duplicate_ack_count = self.duplicate_ack_count + 1;
            }
        } else {
            self.last_acked = packet.ack_nr();
            self.last_acked_timestamp = now;
            self.duplicate_ack_count = 1;
        }
        // When the cumulative ACK names an in-flight packet, take a delay
        // sample and update the congestion window and timeout.
        if let Some(index) = position_of(&self.send_window, packet.ack_nr()) {
            proof {
                lemma_find_seq_from(w, ack16, 0);
            }
            let bytes = acked_bytes(&self.send_window, index);
            proof {
                lemma_win_bytes_split(w, index + 1);
                lemma_win_bytes_nonneg(w.skip(index + 1));
                lemma_win_bytes_nonneg(w.take(index + 1));
            }
            let ts = self.send_window[index].timestamp_microseconds();
            let our_delay: i64 = (now as i64) - (ts as i64);
            self.update_base_delay(our_delay, now as i64);
            self.update_current_delay(our_delay, now as i64);
            let qd = self.queuing_delay();
            self.update_congestion_window(qd, bytes);
            let off: i64 = if TARGET - qd > TARGET {
                TARGET
            } else if TARGET - qd < -TARGET {
                -TARGET
            } else {
                TARGET - qd
            };
            let off_sign: i64 = tdiv_i64(off, TARGET);
            let measured: i64 = tdiv_i64(TARGET - off_sign, 1000);
            proof {
                assert(off == spec_off_target(qd as int));
                assert(-1 <= off_sign <= 1);
                assert(99 <= measured <= 100);
            }
            self.update_congestion_timeout(measured as i32);
        }
        // Retransmissions asked for by extensions and by a third duplicate ACK.
        let ghost s2 = *self;
        let ghost exts = packet@.extensions;
        let mut resends: Vec<Packet> = Vec::new();
        let mut packet_loss_detected: bool = self.send_window.len() > 0 && self.duplicate_ack_count
            == 3;
        let ghost loss0 = packet_loss_detected;
        let mut e: usize = 0;
        while e < packet.extensions.len()
            invariant
                *self == s2,
                s2.wf(),
                w == s2.send_window@,
                exts == packet@.extensions,
                ack16 == packet@.ack_nr,
                packet@.wf(),
                exts.len() == packet.extensions@.len(),
                forall|x: int| 0 <= x < exts.len() ==> exts[x] == (#[trigger] packet.extensions@[x])@,
                0 <= e <= exts.len(),
                resends@.map_values(|q: Packet| q@) + all_ext_resends(w, ack16, exts, e as int)
                    == all_ext_resends(w, ack16, exts, 0),
                (packet_loss_detected || all_ext_loss(w, ack16, exts, e as int)) == (loss0
                    || all_ext_loss(w, ack16, exts, 0)),
            decreases exts.len() - e,
        {
            let ext = &packet.extensions[e];
            proof {
                assert(exts[e as int].wf());
            }
            if ext.get_type() == ExtensionType::SelectiveAck {
                let ghost pl = exts[e as int].payload;
                let ones = ext.count_ones();
                if ones >= 3 {
                    let target = wrap_inc16(packet.ack_nr());
                    let ghost rv0 = resends@.map_values(|q: Packet| q@);
                    if let Some(p) = self.find_in_window(target) {
                        let ghost pv = p@;
                        resends.push(p);
                        proof {
                            assert(resends@.map_values(|q: Packet| q@) =~= rv0 + seq![pv]);
                        }
                    }
                    packet_loss_detected = true;
                }
                proof {
                    assert(all_ext_resends(w, ack16, exts, e as int) == ext_resends(
                        w,
                        ack16,
                        exts[e as int],
                    ) + all_ext_resends(w, ack16, exts, e + 1));
                }
                self.sack_scan(packet.ack_nr(), ext, &mut resends, &mut packet_loss_detected);
            } else {
                proof {
                    assert(all_ext_resends(w, ack16, exts, e as int) == ext_resends(
                        w,
                        ack16,
                        exts[e as int],
                    ) + all_ext_resends(w, ack16, exts, e + 1));
                    assert(ext_resends(w, ack16, exts[e as int]) == Seq::<PacketView>::empty());
                }
            }
            e = e + 1;
        }
        // A third duplicate ACK: retransmit everything past the acknowledged
        // sequence number.
        if self.send_window.len() > 0 && self.duplicate_ack_count == 3 {
            let mut i: usize = 0;
            while i < self.send_window.len()
                invariant
                    *self == s2,
                    s2.wf(),
                    w == s2.send_window@,
                    ack16 == packet@.ack_nr,
                    0 <= i <= w.len(),
                    resends@.map_values(|q: Packet| q@) + triple_resends(w, ack16, i as int)
                        == all_ext_resends(w, ack16, exts, 0) + triple_resends(w, ack16, 0),
                decreases w.len() - i,
            {
                let s = self.send_window[i].seq_nr();
                if s > packet.ack_nr() {
                    let ghost rv0 = resends@.map_values(|q: Packet| q@);
                    if let Some(p) = self.find_in_window(s) {
                        let ghost pv = p@;
                        resends.push(p);
                        proof {
                            assert(resends@.map_values(|q: Packet| q@) =~= rv0 + seq![pv]);
                        }
                    }
                }
                i = i + 1;
            }
            proof {
                assert(triple_resends(w, ack16, w.len() as int) == Seq::<PacketView>::empty());
            }
        }
        // Loss halves the congestion window.
        if packet_loss_detected {
            let halved = self.cwnd / 2;
            self.cwnd = if halved >= MIN_CWND * MSS {
                halved
            } else {
                MIN_CWND * MSS
            };
        }
        // Forget what the peer has acknowledged.
        self.advance_send_window();
        resends
    }
}

} // verus!

verus! {

/// The magnitude of the difference between the local clock and the peer's
/// send timestamp.
pub open spec fn spec_their_delay(now: u32, ts: u32) -> u32 {
    if now > ts {
        (now - ts) as u32
    } else {
        (ts - now) as u32
    }
}

/// The acknowledgement number advances only when the inbound packet strictly
/// follows the previous one in the wrapping sequence space.
pub open spec fn spec_ack_advance(ack: u16, pseq: u16) -> u16 {
    if wrap_sub16(pseq, ack) == 1 {
        pseq
    } else {
        ack
    }
}

/// Whether an inbound packet's connection id matches neither of the
/// endpoint's identifiers (a Syn, or an endpoint still awaiting its handshake
/// reply, is exempt); such a packet is answered with a Reset.
pub open spec fn conn_id_mismatch(s: UtpSocket, p: PacketView) -> bool {
    &&& p.ty != PacketType::Syn
    &&& s.state != SocketState::SynSent
    &&& p.connection_id != s.sender_connection_id
    &&& p.connection_id != s.receiver_connection_id
}

/// The reply `s` builds to packet `p`: type `t`, the sender connection id,
/// the current sequence and acknowledgement numbers, and the clock fields.
pub open spec fn spec_reply_view(s: UtpSocket, p: PacketView, t: PacketType, now: u32) -> PacketView {
    PacketView {
        ty: t,
        connection_id: s.sender_connection_id,
        timestamp_microseconds: now,
        timestamp_difference_microseconds: wrap_sub32(now, p.timestamp_microseconds),
        wnd_size: 0,
        seq_nr: s.seq_nr,
        ack_nr: s.ack_nr,
        extensions: Seq::<ExtensionView>::empty(),
        payload: Seq::<u8>::empty(),
    }
}

impl UtpSocket {
    /// Dispatches one inbound packet by connection state and packet type, per
    /// the transition table of the protocol: handshake on Syn, acknowledgement
    /// processing on State, a State reply (with a selective ACK after a gap)
    /// on Data, teardown on Fin, and errors on Reset or unexpected packets.
    /// Returns the reply to transmit, if any, and the packets to retransmit.
    ///
    /// Inserting an inbound Data packet into the reassembly buffer is the
    /// caller's next step; see [`UtpSocket::insert_if_fresh`].
    #[verifier::rlimit(100)]
    pub fn handle_packet(&mut self, packet: &Packet, now: u32) -> (r: Result<
        (Option<Packet>, Vec<Packet>),
        SocketError,
    >)
        requires
            old(self).wf(),
            packet@.wf(),
            old(self).curr_window <= u32::MAX - ALLOWED_INCREASE * MSS,
        ensures
            final(self).wf(),
            ({
                let pre = *old(self);
                let post = *final(self);
                let p = packet@;
                let a1 = spec_ack_advance(pre.ack_nr, p.seq_nr);
                if conn_id_mismatch(pre, p) {
                    &&& post == (UtpSocket { ack_nr: a1, ..pre })
                    &&& r matches Ok(o) && o.1@.len() == 0 && (o.0 matches Some(rp) && rp@
                        == spec_reply_view(post, p, PacketType::Reset, now))
                } else {
                    let s1 = UtpSocket {
                        ack_nr: a1,
                        remote_wnd_size: p.wnd_size,
                        their_delay: spec_their_delay(now, p.timestamp_microseconds),
                        ..pre
                    };
                    match (pre.state, p.ty) {
                        (SocketState::New, PacketType::Syn) => {
                            &&& post == (UtpSocket {
                                seq_nr: post.seq_nr,
                                ack_nr: p.seq_nr,
                                receiver_connection_id: ((p.connection_id + 1) % 0x10000) as u16,
                                sender_connection_id: p.connection_id,
                                state: SocketState::Connected,
                                last_dropped: p.seq_nr,
                                ..s1
                            })
                            &&& r matches Ok(o) && o.1@.len() == 0 && (o.0 matches Some(rp)
                                && rp@ == spec_reply_view(post, p, PacketType::State, now))
                        },
                        (_, PacketType::Syn) => {
                            &&& post == s1
                            &&& r matches Ok(o) && o.1@.len() == 0 && (o.0 matches Some(rp)
                                && rp@ == spec_reply_view(post, p, PacketType::Reset, now))
                        },
                        (SocketState::SynSent, PacketType::State) => {
                            &&& post == (UtpSocket {
                                ack_nr: p.seq_nr,
                                seq_nr: ((pre.seq_nr + 1) % 0x10000) as u16,
                                state: SocketState::Connected,
                                last_acked: p.ack_nr,
                                last_acked_timestamp: now,
                                ..s1
                            })
                            &&& r matches Ok(o) && o.1@.len() == 0 && o.0 is None
                        },
                        (SocketState::SynSent, _) => {
                            &&& post == s1
                            &&& r == Err::<(Option<Packet>, Vec<Packet>), SocketError>(
                                SocketError::InvalidReply,
                            )
                        },
                        (SocketState::Connected, PacketType::Data) => {
                            &&& post == s1
                            &&& r matches Ok(o) && o.1@.len() == 0 && (o.0 matches Some(rp) && {
                                &&& rp@.wf()
                                &&& rp@ == (PacketView {
                                    extensions: rp@.extensions,
                                    ..spec_reply_view(post, p, PacketType::State, now)
                                })
                                &&& rp@.extensions.len() <= 1
                                &&& wrap_sub16(p.seq_nr, post.ack_nr) <= 1 ==> rp@.extensions.len()
                                    == 0
                                &&& rp@.extensions.len() == 1 ==> {
                                    &&& rp@.extensions[0].ext_type == SELECTIVE_ACK
                                    &&& rp@.extensions[0].payload.len() % 4 == 0
                                    &&& forall|k: int| #[trigger]
                                        sack_bit(rp@.extensions[0].payload, k) == sack_wanted(
                                            post.incoming_buffer@,
                                            post.ack_nr,
                                            k,
                                        )
                                }
                                &&& (wrap_sub16(p.seq_nr, post.ack_nr) > 1 && (exists|k: int|
                                    sack_wanted(post.incoming_buffer@, post.ack_nr, k)) && (
                                forall|k: int|
                                    sack_wanted(post.incoming_buffer@, post.ack_nr, k) ==> k
                                        < 1985)) ==> rp@.extensions.len() == 1
                            })
                        },
                        (SocketState::Connected, PacketType::State) => {
                            r matches Ok(o) && o.0 is None && state_packet_step(
                                s1,
                                post,
                                p,
                                now,
                                o.1@.map_values(|q: Packet| q@),
                            )
                        },
                        (SocketState::Connected, PacketType::Fin) | (
                            SocketState::FinSent,
                            PacketType::Fin,
                        ) => {
                            if p.ack_nr == pre.seq_nr {
                                &&& post == (UtpSocket { state: SocketState::Closed, ..s1 })
                                &&& r matches Ok(o) && o.1@.len() == 0 && (o.0 matches Some(rp)
                                    && rp@ == spec_reply_view(post, p, PacketType::State, now))
                            } else {
                                r matches Ok(o) && o.0 is None && state_packet_step(
                                    s1,
                                    post,
                                    p,
                                    now,
                                    o.1@.map_values(|q: Packet| q@),
                                )
                            }
                        },
                        (SocketState::FinSent, PacketType::State) => {
                            if p.ack_nr == pre.seq_nr {
                                &&& post == (UtpSocket { state: SocketState::Closed, ..s1 })
                                &&& r matches Ok(o) && o.1@.len() == 0 && o.0 is None
                            } else {
                                r matches Ok(o) && o.0 is None && state_packet_step(
                                    s1,
                                    post,
                                    p,
                                    now,
                                    o.1@.map_values(|q: Packet| q@),
                                )
                            }
                        },
                        (_, PacketType::Reset) => {
                            &&& post == (UtpSocket { state: SocketState::ResetReceived, ..s1 })
                            &&& r == Err::<(Option<Packet>, Vec<Packet>), SocketError>(
                                SocketError::ConnectionReset,
                            )
                        },
                        (_, _) => {
                            &&& post == s1
                            &&& r == Err::<(Option<Packet>, Vec<Packet>), SocketError>(
                                SocketError::Other,
                            )
                        },
                    }
                }
            }),
    {
        // Acknowledge only a packet that strictly follows the previous one.
        if packet.seq_nr().wrapping_sub(self.ack_nr) == 1 {
            self.ack_nr = packet.seq_nr();
        }
        // Reset the connection when the connection id matches neither end.
        if packet.get_type() != PacketType::Syn && self.state != SocketState::SynSent && !(
        packet.connection_id() == self.sender_connection_id || packet.connection_id()
            == self.receiver_connection_id) {
            let reply = self.prepare_reply(packet, PacketType::Reset, now);
            return Ok((Some(reply), Vec::new()));
        }
        // Every accepted packet updates the advertised window and the
        // measured peer delay.
        self.remote_wnd_size = packet.wnd_size();
        let pts = packet.timestamp_microseconds();
        self.their_delay = if now > pts {
            now - pts
        } else {
            pts - now
        };
        match (self.state, packet.get_type()) {
            (SocketState::New, PacketType::Syn) => {
                self.ack_nr = packet.seq_nr();
                self.seq_nr = random_u16();
                self.receiver_connection_id = wrap_inc16(packet.connection_id());
                self.sender_connection_id = packet.connection_id();
                self.state = SocketState::Connected;
                self.last_dropped = self.ack_nr;
                let reply = self.prepare_reply(packet, PacketType::State, now);
                Ok((Some(reply), Vec::new()))
            },
            (_, PacketType::Syn) => {
                let reply = self.prepare_reply(packet, PacketType::Reset, now);
                Ok((Some(reply), Vec::new()))
            },
            (SocketState::SynSent, PacketType::State) => {
                self.ack_nr = packet.seq_nr();
                self.seq_nr = wrap_inc16(self.seq_nr);
                self.state = SocketState::Connected;
                self.last_acked = packet.ack_nr();
                self.last_acked_timestamp = now;
                Ok((None, Vec::new()))
            },
            (SocketState::SynSent, _) => Err(SocketError::InvalidReply),
            (SocketState::Connected, PacketType::Data) => {
                let reply = self.handle_data_packet(packet, now);
                Ok((Some(reply), Vec::new()))
            },
            (SocketState::Connected, PacketType::State) => {
                let resends = self.handle_state_packet(packet, now);
                Ok((None, resends))
            },
            (SocketState::Connected, PacketType::Fin) | (SocketState::FinSent, PacketType::Fin) => {
                if packet.ack_nr() == self.seq_nr {
                    self.state = SocketState::Closed;
                    let reply = self.prepare_reply(packet, PacketType::State, now);
                    Ok((Some(reply), Vec::new()))
                } else {
                    let resends = self.handle_state_packet(packet, now);
                    Ok((None, resends))
                }
            },
            (SocketState::FinSent, PacketType::State) => {
                if packet.ack_nr() == self.seq_nr {
                    self.state = SocketState::Closed;
                    Ok((None, Vec::new()))
                } else {
                    let resends = self.handle_state_packet(packet, now);
                    Ok((None, resends))
                }
            },
            (_, PacketType::Reset) => {
                self.state = SocketState::ResetReceived;
                Err(SocketError::ConnectionReset)
            },
            (_, _) => Err(SocketError::Other),
        }
    }
}

} // verus!

verus! {

/// Law: a connection's two identifiers differ by one, and after the handshake
/// the acceptor holds the initiator's pair swapped. The premises are exactly
/// what [`UtpSocket::new`], [`UtpSocket::connect_syn`] and
/// [`UtpSocket::handle_packet`] (on a Syn in state `New`) guarantee.
pub proof fn lemma_handshake_id_mirror(initiator: UtpSocket, acceptor: UtpSocket, syn: PacketView)
    requires
        initiator.sender_connection_id == (initiator.receiver_connection_id + 1) % 0x10000,
        syn.connection_id == initiator.receiver_connection_id,
        acceptor.receiver_connection_id == (syn.connection_id + 1) % 0x10000,
        acceptor.sender_connection_id == syn.connection_id,
    ensures
        acceptor.receiver_connection_id == initiator.sender_connection_id,
        acceptor.sender_connection_id == initiator.receiver_connection_id,
        acceptor.receiver_connection_id == (acceptor.sender_connection_id + 1) % 0x10000,
{
}

} // verus!

verus! {

/// Every listed view is the view of some packet of `w`.
pub open spec fn all_from_window(w: Seq<Packet>, rs: Seq<PacketView>) -> bool {
    forall|k: int|
        0 <= k < rs.len() ==> w.map_values(|p: Packet| p@).contains(#[trigger] rs[k])
}

/// Concatenation preserves window membership.
proof fn lemma_from_window_concat(w: Seq<Packet>, a: Seq<PacketView>, b: Seq<PacketView>)
    requires
        all_from_window(w, a),
        all_from_window(w, b),
    ensures
        all_from_window(w, a + b),
{
    assert forall|k: int| 0 <= k < (a + b).len() implies w.map_values(|p: Packet| p@).contains(
        #[trigger] (a + b)[k],
    ) by {
        if k < a.len() {
            assert((a + b)[k] == a[k]);
        } else {
            assert((a + b)[k] == b[k - a.len()]);
        }
    }
}

/// A retransmission request yields only window packets.
proof fn lemma_resend_of_from_window(w: Seq<Packet>, seq: u16)
    ensures
        all_from_window(w, resend_of(w, seq)),
{
    lemma_find_seq_from(w, seq, 0);
    if spec_position(w, seq) is Some {
        let i = spec_position(w, seq).unwrap();
        assert(w.map_values(|p: Packet| p@)[i] == w[i]@);
        assert(w.map_values(|p: Packet| p@).contains(w[i]@));
    }
}

/// The selective-ACK scan yields only window packets.
proof fn lemma_sack_resends_from_window(w: Seq<Packet>, ack: u16, p: Seq<u8>, idx: int)
    ensures
        all_from_window(w, sack_resends(w, ack, p, idx)),
    decreases p.len() * 8 - idx,
{
    if idx < 0 || idx >= p.len() * 8 {
    } else if sack_bit(p, idx) {
        lemma_sack_resends_from_window(w, ack, p, idx + 1);
    } else {
        let seqn = ((ack + 2 + idx) % 0x10000) as u16;
        if w.len() > 0 && seqn < w.last()@.seq_nr {
            lemma_resend_of_from_window(w, seqn);
            lemma_sack_resends_from_window(w, ack, p, idx + 1);
            lemma_from_window_concat(w, resend_of(w, seqn), sack_resends(w, ack, p, idx + 1));
        }
    }
}

/// Law: the retransmissions the extensions of an acknowledgement ask for are
/// all copies of in-flight window packets.
pub proof fn lemma_ext_resends_from_window(w: Seq<Packet>, ack: u16, exts: Seq<ExtensionView>, i: int)
    ensures
        all_from_window(w, all_ext_resends(w, ack, exts, i)),
    decreases exts.len() - i,
{
    if i < 0 || i >= exts.len() {
    } else {
        let e = exts[i];
        if e.ext_type == SELECTIVE_ACK {
            if ext_ones(e) >= 3 {
                lemma_resend_of_from_window(w, ((ack + 1) % 0x10000) as u16);
            }
            lemma_sack_resends_from_window(w, ack, e.payload, 0);
            if ext_ones(e) >= 3 {
                lemma_from_window_concat(
                    w,
                    resend_of(w, ((ack + 1) % 0x10000) as u16),
                    sack_resends(w, ack, e.payload, 0),
                );
            } else {
                assert(ext_resends(w, ack, e) =~= Seq::<PacketView>::empty() + sack_resends(
                    w,
                    ack,
                    e.payload,
                    0,
                ));
            }
        }
        lemma_ext_resends_from_window(w, ack, exts, i + 1);
        lemma_from_window_concat(w, ext_resends(w, ack, e), all_ext_resends(w, ack, exts, i + 1));
    }
}

/// Law: the retransmissions a triple duplicate ACK asks for are all copies of
/// in-flight window packets.
pub proof fn lemma_triple_resends_from_window(w: Seq<Packet>, ack: u16, i: int)
    ensures
        all_from_window(w, triple_resends(w, ack, i)),
    decreases w.len() - i,
{
    if i < 0 || i >= w.len() {
    } else {
        lemma_triple_resends_from_window(w, ack, i + 1);
        if w[i]@.seq_nr > ack {
            lemma_resend_of_from_window(w, w[i]@.seq_nr);
            lemma_from_window_concat(w, resend_of(w, w[i]@.seq_nr), triple_resends(w, ack, i + 1));
        }
    }
}

} // verus!
