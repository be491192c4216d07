//! The communicator's state and its transmit coalescer, which gathers
//! packets into datagrams of at most one UDP payload.
use vstd::prelude::*;

use std::collections::VecDeque;

use crate::packet::{BurstState, NOC_PACKET_LEN};

verus! {

/// Largest UDP payload sent to the fabric: 81 packets.
pub const UDP_PAYLOAD_LEN: usize = 1472;

/// Largest number of flits in one burst group.
pub const MAX_BURST_FLITS: usize = 2047;

/// Whether a datagram queued for sending is well formed: a non-empty run of
/// whole packets that fits one UDP payload.
pub open spec fn datagram_ok(d: Seq<u8>) -> bool {
    0 < d.len() <= UDP_PAYLOAD_LEN && d.len() % (NOC_PACKET_LEN as nat) == 0
}

/// What a communicator holds, as values.
pub struct CommState {
    /// The identifier that the next read request gets.
    pub next_req_id: u32,
    /// Datagrams ready to be sent, oldest first.
    pub outgoing: Seq<Seq<u8>>,
    /// Packets appended since the last flush.
    pub send_buf: Seq<u8>,
    /// The burst decode state.
    pub burst: BurstState,
    /// Received payloads kept for a later receive, oldest first.
    pub pending: Seq<Seq<u8>>,
}

/// All bytes handed to the transmit side and not yet taken, in order.
pub open spec fn queued(s: CommState) -> Seq<u8> {
    s.outgoing.flatten_alt() + s.send_buf
}

/// The transmit side after one packet `p` is appended to outgoing
/// datagrams `out` and buffer `buf`: the buffer is closed into a datagram
/// first when `p` would not fit into it.
pub open spec fn append_step(out: Seq<Seq<u8>>, buf: Seq<u8>, p: Seq<u8>) -> (Seq<Seq<u8>>, Seq<u8>) {
    if buf.len() + NOC_PACKET_LEN > UDP_PAYLOAD_LEN {
        (out.push(buf), p)
    } else {
        (out, buf + p)
    }
}

/// The transmit side after the packets of `bytes` are appended, one after
/// the other.
pub open spec fn coalesce(out: Seq<Seq<u8>>, buf: Seq<u8>, bytes: Seq<u8>) -> (Seq<Seq<u8>>, Seq<u8>)
    decreases bytes.len(),
{
    if bytes.len() < 18 {
        (out, buf)
    } else {
        let front = coalesce(out, buf, bytes.take(bytes.len() - 18));
        append_step(front.0, front.1, bytes.skip(bytes.len() - 18))
    }
}

/// The datagrams ready to send once the buffer is flushed.
pub open spec fn flushed(t: (Seq<Seq<u8>>, Seq<u8>)) -> Seq<Seq<u8>> {
    if t.1.len() == 0 { t.0 } else { t.0.push(t.1) }
}

/// The datagrams ready to send after the packets of `bytes` are appended to
/// the transmit side of `s` and then flushed.
pub open spec fn sent_after(s: CommState, bytes: Seq<u8>) -> Seq<Seq<u8>> {
    flushed(coalesce(s.outgoing, s.send_buf, bytes))
}

proof fn lemma_coalesce_one(out: Seq<Seq<u8>>, buf: Seq<u8>, p: Seq<u8>)
    requires
        p.len() == 18,
    ensures
        coalesce(out, buf, p) == append_step(out, buf, p),
{
    assert(p.take(0).len() == 0);
    assert(coalesce(out, buf, p.take(0)) == (out, buf));
    assert(p.skip(0) =~= p);
}

/// Appending two runs of packets one after the other is appending both.
pub proof fn lemma_coalesce_concat(out: Seq<Seq<u8>>, buf: Seq<u8>, x: Seq<u8>, y: Seq<u8>)
    requires
        x.len() % 18 == 0,
        y.len() % 18 == 0,
    ensures
        coalesce(out, buf, x + y) == ({
            let t = coalesce(out, buf, x);
            coalesce(t.0, t.1, y)
        }),
    decreases y.len(),
{
    if y.len() < 18 {
        assert(y.len() == 0);
        assert(x + y =~= x);
    } else {
        let xy = x + y;
        assert(xy.take(xy.len() - 18) =~= x + y.take(y.len() - 18));
        assert(xy.skip(xy.len() - 18) =~= y.skip(y.len() - 18));
        lemma_coalesce_concat(out, buf, x, y.take(y.len() - 18));
    }
}

pub open spec fn state_wf(s: CommState) -> bool {
    &&& s.send_buf.len() <= UDP_PAYLOAD_LEN
    &&& s.send_buf.len() % (NOC_PACKET_LEN as nat) == 0
    &&& forall|i: int| 0 <= i < s.outgoing.len() ==> datagram_ok(#[trigger] s.outgoing[i])
}

/// The protocol side of a connection to the fabric. It owns the transmit
/// buffer, the burst decode state, the pending-packet queue and the read
/// request counter; the caller owns the socket.
pub struct Communicator {
    pub(crate) next_req_id: u32,
    pub(crate) send_buf: Vec<u8>,
    pub(crate) outgoing: Vec<Vec<u8>>,
    pub(crate) burst: BurstState,
    pub(crate) received_pkts: VecDeque<Vec<u8>>,
}

impl View for Communicator {
    type V = CommState;

    open(crate) spec fn view(&self) -> CommState {
        CommState {
            next_req_id: self.next_req_id,
            outgoing: self.outgoing@.map_values(|d: Vec<u8>| d@),
            send_buf: self.send_buf@,
            burst: self.burst,
            pending: self.received_pkts@.map_values(|d: Vec<u8>| d@),
        }
    }
}

impl Communicator {
    pub open spec fn wf(&self) -> bool {
        state_wf(self@)
    }

    pub fn new() -> (r: Self)
        ensures
            r.wf(),
            r@.next_req_id == 0,
            r@.outgoing.len() == 0,
            r@.send_buf.len() == 0,
            r@.burst is None,
            r@.pending.len() == 0,
    {
        let r = Communicator {
            next_req_id: 0,
            send_buf: Vec::with_capacity(UDP_PAYLOAD_LEN),
            outgoing: Vec::new(),
            burst: None,
            received_pkts: VecDeque::new(),
        };
        assert(r@.outgoing =~= Seq::<Seq<u8>>::empty());
        assert(r@.pending =~= Seq::<Seq<u8>>::empty());
        r
    }

    /// Sends the buffered packets as one datagram; nothing if none are buffered.
    pub fn flush_packets(&mut self)
        requires
            old(self).wf(),
        ensures
            final(self).wf(),
            queued(final(self)@) == queued(old(self)@),
            final(self)@.send_buf.len() == 0,
            final(self)@.outgoing == if old(self)@.send_buf.len() == 0 {
                old(self)@.outgoing
            } else {
                old(self)@.outgoing.push(old(self)@.send_buf)
            },
            final(self)@.next_req_id == old(self)@.next_req_id,
            final(self)@.burst == old(self)@.burst,
            final(self)@.pending == old(self)@.pending,
    {
        if self.send_buf.len() > 0 {
            let ghost old_out = self@.outgoing;
            let mut buf: Vec<u8> = Vec::with_capacity(UDP_PAYLOAD_LEN);
            std::mem::swap(&mut buf, &mut self.send_buf);
            self.outgoing.push(buf);
            assert(self@.outgoing =~= old_out.push(buf@));
            assert(self@.outgoing.drop_last() =~= old_out);
            assert(self@.send_buf =~= Seq::<u8>::empty());
            assert(queued(self@) =~= queued(old(self)@));
        }
    }

    /// Adds one packet to the transmit buffer, first flushing the buffer if
    /// the packet would not fit into the same datagram.
    pub fn append_packet(&mut self, packet: &[u8; 18])
        requires
            old(self).wf(),
        ensures
            final(self).wf(),
            queued(final(self)@) == queued(old(self)@) + packet@,
            (final(self)@.outgoing, final(self)@.send_buf)
                == coalesce(old(self)@.outgoing, old(self)@.send_buf, packet@),
            old(self)@.send_buf.len() + NOC_PACKET_LEN <= UDP_PAYLOAD_LEN ==> {
                &&& final(self)@.outgoing == old(self)@.outgoing
                &&& final(self)@.send_buf == old(self)@.send_buf + packet@
            },
            old(self)@.send_buf.len() + NOC_PACKET_LEN > UDP_PAYLOAD_LEN ==> {
                &&& final(self)@.outgoing == old(self)@.outgoing.push(old(self)@.send_buf)
                &&& final(self)@.send_buf == packet@
            },
            final(self)@.next_req_id == old(self)@.next_req_id,
            final(self)@.burst == old(self)@.burst,
            final(self)@.pending == old(self)@.pending,
    {
        if self.send_buf.len() + NOC_PACKET_LEN > UDP_PAYLOAD_LEN {
            self.flush_packets();
        }
        let ghost before = queued(self@);
        let ghost buf0 = self.send_buf@;
        let ghost out0 = self.outgoing@;
        let ghost pend0 = self.received_pkts@;
        let mut i: usize = 0;
        while i < NOC_PACKET_LEN
            invariant
                i <= NOC_PACKET_LEN,
                packet@.len() == NOC_PACKET_LEN,
                self.send_buf@ == buf0 + packet@.take(i as int),
                buf0.len() + NOC_PACKET_LEN <= UDP_PAYLOAD_LEN,
                buf0.len() % (NOC_PACKET_LEN as nat) == 0,
                self.outgoing@ == out0,
                self.received_pkts@ == pend0,
                self.next_req_id == old(self).next_req_id,
                self.burst == old(self).burst,
                before == self@.outgoing.flatten_alt() + buf0,
            decreases NOC_PACKET_LEN - i,
        {
            self.send_buf.push(packet[i]);
            i = i + 1;
            assert(self.send_buf@ =~= buf0 + packet@.take(i as int));
        }
        assert(packet@.take(18) =~= packet@);
        assert(self.send_buf@ =~= buf0 + packet@);
        proof { lemma_coalesce_one(old(self)@.outgoing, old(self)@.send_buf, packet@); }
        assert(queued(self@) =~= before + packet@);
        assert((buf0.len() + 18) % 18 == 0);
    }

    /// Hands out the datagrams that are ready to be sent, oldest first.
    pub fn take_datagrams(&mut self) -> (r: Vec<Vec<u8>>)
        requires
            old(self).wf(),
        ensures
            final(self).wf(),
            r@.map_values(|d: Vec<u8>| d@) == old(self)@.outgoing,
            final(self)@.outgoing.len() == 0,
            final(self)@.send_buf == old(self)@.send_buf,
            final(self)@.next_req_id == old(self)@.next_req_id,
            final(self)@.burst == old(self)@.burst,
            final(self)@.pending == old(self)@.pending,
    {
        let mut r: Vec<Vec<u8>> = Vec::new();
        std::mem::swap(&mut r, &mut self.outgoing);
        assert(self@.outgoing =~= Seq::<Seq<u8>>::empty());
        r
    }
}

} // verus!
