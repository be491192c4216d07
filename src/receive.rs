//! Receiving unsolicited traffic, from the pending queue or the network.
use vstd::prelude::*;

use crate::comm::{queued, Communicator};
use crate::packet::{
    decode_packet, decode_spec, BurstState, NocPacket, PacketView, ProtocolError, NOC_PACKET_LEN,
};
use crate::reads::{is_unsolicited, is_unsolicited_exec};

verus! {

/// What the first packet of `d` adds to the received payload `acc`, under
/// burst state `b`, and the burst state that follows. Packets that are not
/// unsolicited traffic (late read responses) are passed over and leave the
/// burst state as it was; the header of a burst adds nothing.
#[verifier::opaque]
pub open spec fn receive_packet(acc: Seq<u8>, b: BurstState, d: Seq<u8>) -> Result<(Seq<u8>, BurstState), ProtocolError> {
    match decode_spec(d.take(18), b) {
        Err(e) => Err(e),
        Ok((PacketView::Normal { src, mode, addr, data }, next)) => {
            if !is_unsolicited(mode) {
                Ok((acc, b))
            } else if next is Some {
                Ok((acc, next))
            } else {
                Ok((acc + data, next))
            }
        },
        Ok((PacketView::Burst { data }, next)) => Ok((acc + data, next)),
    }
}

/// The payload of the unsolicited traffic in datagram `d`, appended to
/// `acc`, and the burst state after it.
pub open spec fn scan_receive(acc: Seq<u8>, b: BurstState, d: Seq<u8>) -> Result<(Seq<u8>, BurstState), ProtocolError>
    decreases d.len(),
{
    if d.len() < 18 {
        Ok((acc, b))
    } else {
        match receive_packet(acc, b, d) {
            Err(e) => Err(e),
            Ok((acc2, b2)) => scan_receive(acc2, b2, d.skip(18)),
        }
    }
}

impl Communicator {
    /// Takes the oldest payload kept for a later receive.
    pub fn take_pending(&mut self) -> (r: Option<Vec<u8>>)
        requires
            old(self).wf(),
        ensures
            final(self).wf(),
            old(self)@.pending.len() == 0 ==> r is None && final(self)@.pending == old(self)@.pending,
            old(self)@.pending.len() > 0 ==> (r matches Some(d) && d@ == old(self)@.pending[0]
                && final(self)@.pending == old(self)@.pending.drop_first()),
            final(self)@.next_req_id == old(self)@.next_req_id,
            final(self)@.burst == old(self)@.burst,
            queued(final(self)@) == queued(old(self)@),
            final(self)@.outgoing == old(self)@.outgoing,
            final(self)@.send_buf == old(self)@.send_buf,
    {
        let ghost pend0 = self@.pending;
        let r = self.received_pkts.pop_front();
        assert(self@.outgoing == old(self)@.outgoing);
        if r.is_some() {
            assert(self@.pending =~= pend0.drop_first());
        }
        r
    }

    fn receive_one(&mut self, acc: &mut Vec<u8>, datagram: &[u8], pos: usize) -> (r: Result<(), ProtocolError>)
        requires
            old(self).wf(),
            pos + 18 <= datagram@.len(),
        ensures
            final(self).wf(),
            final(self)@.next_req_id == old(self)@.next_req_id,
            final(self)@.pending == old(self)@.pending,
            final(self)@.outgoing == old(self)@.outgoing,
            final(self)@.send_buf == old(self)@.send_buf,
            match receive_packet(old(acc)@, old(self)@.burst, datagram@.skip(pos as int)) {
                Ok((a, b)) => r is Ok && final(acc)@ == a && final(self)@.burst == b,
                Err(e) => r == Err::<(), ProtocolError>(e),
            },
    {
        let ghost d = datagram@.skip(pos as int);
        assert(d.take(18) =~= datagram@.subrange(pos as int, pos + 18));
        proof { reveal(receive_packet); }
        let old_burst = self.burst;
        let pkt = decode_packet(datagram, pos, &mut self.burst);
        assert(self@.outgoing == old(self)@.outgoing);
        match pkt {
            Err(e) => Err(e),
            Ok(NocPacket::Normal { src, mode, addr, data }) => {
                let unsolicited = is_unsolicited_exec(mode);
                if !unsolicited {
                    self.burst = old_burst;
                } else if self.burst.is_none() {
                    let mut data = data;
                    acc.append(&mut data);
                }
                assert(self@.outgoing == old(self)@.outgoing);
                Ok(())
            },
            Ok(NocPacket::Burst { data }) => {
                let mut data = data;
                acc.append(&mut data);
                Ok(())
            },
        }
    }

    /// Decodes a datagram of unsolicited traffic (taken from the pending
    /// queue or freshly received) and returns its payload. A datagram that
    /// is not a non-empty run of whole packets is refused.
    pub fn receive(&mut self, datagram: &[u8]) -> (r: Result<Vec<u8>, ProtocolError>)
        requires
            old(self).wf(),
        ensures
            final(self).wf(),
            final(self)@.next_req_id == old(self)@.next_req_id,
            final(self)@.pending == old(self)@.pending,
            queued(final(self)@) == queued(old(self)@),
            (datagram@.len() < 18 || datagram@.len() % 18 != 0)
                ==> r == Err::<Vec<u8>, ProtocolError>(ProtocolError::BadLength(datagram@.len() as usize)),
            (datagram@.len() >= 18 && datagram@.len() % 18 == 0) ==> match scan_receive(Seq::empty(), old(self)@.burst, datagram@) {
                Ok((a, b)) => r matches Ok(v) && v@ == a && final(self)@.burst == b,
                Err(e) => r == Err::<Vec<u8>, ProtocolError>(e),
            },
    {
        if datagram.len() < NOC_PACKET_LEN || datagram.len() % NOC_PACKET_LEN != 0 {
            return Err(ProtocolError::BadLength(datagram.len()));
        }
        let mut acc: Vec<u8> = Vec::new();
        let mut pos: usize = 0;
        assert(datagram@.skip(0) =~= datagram@);
        while datagram.len() - pos >= NOC_PACKET_LEN
            invariant
                self.wf(),
                pos <= datagram@.len(),
                datagram@.len() % 18 == 0,
                self@.next_req_id == old(self)@.next_req_id,
                self@.pending == old(self)@.pending,
                self@.outgoing == old(self)@.outgoing,
                self@.send_buf == old(self)@.send_buf,
                scan_receive(Seq::empty(), old(self)@.burst, datagram@)
                    == scan_receive(acc@, self@.burst, datagram@.skip(pos as int)),
            decreases datagram@.len() - pos,
        {
            let ghost d = datagram@.skip(pos as int);
            assert(d.skip(18) =~= datagram@.skip(pos + 18));
            assert(d.len() >= 18);
            match self.receive_one(&mut acc, datagram, pos) {
                Err(e) => {
                    return Err(e);
                },
                Ok(()) => {},
            }
            pos = pos + NOC_PACKET_LEN;
        }
        Ok(acc)
    }
}

} // verus!
