//! Reads: request chunks, scanning datagrams for matching responses, and
//! the chunk-by-chunk read with its retry budget.
use vstd::prelude::*;

use crate::comm::{queued, sent_after, Communicator};
use crate::module::FPGAModule;
use crate::packet::{
    copy_range, decode_packet, decode_spec, encode_packet, packet_spec, BurstState, Mode,
    NocPacket, PacketView, ProtocolError, NOC_PACKET_LEN,
};
use crate::writes::{le32, le_pair, wrap_add};

verus! {

/// Largest number of bytes asked for by one read request.
pub const MAX_READ_REQ_LEN: usize = 24576;

/// How many times a failing chunk of a read is tried before the read fails.
pub const MAX_READ_RETRIES: usize = 3;

/// Whether packets of this mode are traffic that the fabric sends on its
/// own, to be kept for a later receive.
pub open spec fn is_unsolicited(m: Mode) -> bool {
    m == Mode::WritePosted || m == Mode::Msg || m == Mode::MsgAck
}

/// Whether packets of this mode are unsolicited traffic.
pub fn is_unsolicited_exec(m: Mode) -> (r: bool)
    ensures
        r == is_unsolicited(m),
{
    match m {
        Mode::WritePosted | Mode::Msg | Mode::MsgAck => true,
        _ => false,
    }
}

/// One read request in flight: the identifier that the next matching
/// response must carry, and the bytes collected so far.
pub struct ReadChunk {
    pub target: FPGAModule,
    pub addr: u32,
    pub byte_count: usize,
    pub expected_id: u32,
    pub data: Vec<u8>,
}

impl ReadChunk {
    /// Whether all requested bytes have arrived.
    pub fn is_complete(&self) -> (r: bool)
        ensures
            r == (self.data@.len() >= self.byte_count),
    {
        self.data.len() >= self.byte_count
    }
}

/// The state that scanning a datagram for read responses works on.
pub struct ScanState {
    pub burst: BurstState,
    pub expected: u32,
    pub data: Seq<u8>,
    pub pending: Seq<Seq<u8>>,
}

/// What one packet does to a read in progress.
pub enum ScanStep {
    /// The scan ends here, with this outcome.
    Stop(Result<ScanState, ProtocolError>),
    /// The scan goes on with the next packet, from this state.
    Next(ScanState),
}

/// Taking the first packet of `d`, a datagram's remainder, for the read
/// whose state is `s`. Unsolicited traffic ends the scan and keeps `d`
/// whole; a response to another request, or a packet of another kind, is
/// passed over; a matching response adds its payload and advances the
/// expected identifier. A packet that is passed over or kept leaves the
/// burst state as it was.
#[verifier::opaque]
pub open spec fn scan_packet(s: ScanState, d: Seq<u8>) -> ScanStep {
    match decode_spec(d.take(18), s.burst) {
        Err(e) => ScanStep::Stop(Err(e)),
        Ok((PacketView::Normal { src, mode, addr, data }, next)) => {
            if is_unsolicited(mode) {
                ScanStep::Stop(Ok(ScanState { pending: s.pending.push(d), ..s }))
            } else if mode != Mode::ReadResp || addr != s.expected {
                ScanStep::Next(s)
            } else if next is Some {
                ScanStep::Next(ScanState { burst: next, ..s })
            } else {
                ScanStep::Next(ScanState {
                    burst: next,
                    expected: wrap_add(s.expected, data.len() as int),
                    data: s.data + data,
                    ..s
                })
            }
        },
        Ok((PacketView::Burst { data }, next)) => ScanStep::Next(ScanState {
            burst: next,
            expected: wrap_add(s.expected, data.len() as int),
            data: s.data + data,
            ..s
        }),
    }
}

/// Scanning the packets of datagram `d`, one after the other, for the read
/// whose state is `s`.
pub open spec fn scan_read(s: ScanState, d: Seq<u8>) -> Result<ScanState, ProtocolError>
    decreases d.len(),
{
    if d.len() < 18 {
        Ok(s)
    } else {
        match scan_packet(s, d) {
            ScanStep::Stop(r) => r,
            ScanStep::Next(t) => scan_read(t, d.skip(18)),
        }
    }
}

/// Scanning all of `d` for the read whose state is `s` when none of its
/// packets ends the scan: the state after the last one, or `None` where a
/// packet does end it.
pub open spec fn scan_through(s: ScanState, d: Seq<u8>) -> Option<ScanState>
    decreases d.len(),
{
    if d.len() < 18 {
        Some(s)
    } else {
        match scan_packet(s, d) {
            ScanStep::Next(t) => scan_through(t, d.skip(18)),
            ScanStep::Stop(_) => None,
        }
    }
}

/// The request packet for `byte_count` bytes at `addr`, with identifier `id`.
pub open spec fn read_req_packet(target: FPGAModule, addr: u32, byte_count: int, id: u32) -> Seq<u8> {
    packet_spec(target, false, 0xFFu8, addr, le32(id) + le32(byte_count as u32), Mode::ReadReq)
}

pub open spec fn chunk_scan_state(c: ReadChunk, burst: BurstState, pending: Seq<Seq<u8>>) -> ScanState {
    ScanState { burst, expected: c.expected_id, data: c.data@, pending }
}

impl Communicator {
    /// Sends a request for the next chunk of a read of `len` bytes at `addr`
    /// and returns its state. The chunk is at most `MAX_READ_REQ_LEN` bytes
    /// and takes a fresh identifier.
    pub fn begin_read(&mut self, target: FPGAModule, addr: u32, len: usize) -> (r: ReadChunk)
        requires
            old(self).wf(),
        ensures
            final(self).wf(),
            r.target == target,
            r.addr == addr,
            r.byte_count == if len < MAX_READ_REQ_LEN { len } else { MAX_READ_REQ_LEN },
            r.expected_id == old(self)@.next_req_id,
            r.data@.len() == 0,
            final(self)@.next_req_id == wrap_add(old(self)@.next_req_id, 1),
            queued(final(self)@) == queued(old(self)@)
                + read_req_packet(target, addr, r.byte_count as int, r.expected_id),
            final(self)@.outgoing == sent_after(
                old(self)@,
                read_req_packet(target, addr, r.byte_count as int, r.expected_id),
            ),
            final(self)@.send_buf.len() == 0,
            final(self)@.burst == old(self)@.burst,
            final(self)@.pending == old(self)@.pending,
    {
        let req_id = self.next_req_id;
        self.next_req_id = self.next_req_id.wrapping_add(1);
        let byte_count: usize = if len < MAX_READ_REQ_LEN { len } else { MAX_READ_REQ_LEN };
        assert(self@.outgoing == old(self)@.outgoing);
        let payload = le_pair(req_id, byte_count as u32);
        let pkt = encode_packet(target, false, 0xFFu8, addr, &payload, Mode::ReadReq);
        self.append_packet(&pkt);
        self.flush_packets();
        ReadChunk { target, addr, byte_count, expected_id: req_id, data: Vec::new() }
    }

    /// Takes the packet at `datagram[pos..pos + 18]` for the read `chunk`:
    /// `Some` with the outcome where the scan of the datagram ends there.
    fn read_packet(&mut self, chunk: &mut ReadChunk, datagram: &[u8], pos: usize) -> (r: Option<Result<(), ProtocolError>>)
        requires
            old(self).wf(),
            pos + 18 <= datagram@.len(),
        ensures
            final(self).wf(),
            final(self)@.next_req_id == old(self)@.next_req_id,
            queued(final(self)@) == queued(old(self)@),
            final(chunk).target == old(chunk).target,
            final(chunk).addr == old(chunk).addr,
            final(chunk).byte_count == old(chunk).byte_count,
            match scan_packet(
                chunk_scan_state(*old(chunk), old(self)@.burst, old(self)@.pending),
                datagram@.skip(pos as int),
            ) {
                ScanStep::Stop(Ok(s)) => r == Some(Ok::<(), ProtocolError>(()))
                    && s == chunk_scan_state(*final(chunk), final(self)@.burst, final(self)@.pending),
                ScanStep::Stop(Err(e)) => r == Some(Err::<(), ProtocolError>(e)),
                ScanStep::Next(s) => r is None
                    && s == chunk_scan_state(*final(chunk), final(self)@.burst, final(self)@.pending),
            },
    {
        let ghost d = datagram@.skip(pos as int);
        let ghost out0 = self@.outgoing;
        assert(d.take(18) =~= datagram@.subrange(pos as int, pos + 18));
        proof { reveal(scan_packet); }
        let old_burst = self.burst;
        let pkt = decode_packet(datagram, pos, &mut self.burst);
        match pkt {
            Err(e) => {
                assert(self@.outgoing == out0);
                Some(Err(e))
            },
            Ok(NocPacket::Normal { src, mode, addr, data }) => {
                if is_unsolicited_exec(mode) {
                    // keep the rest of the datagram for a later receive
                    let kept = copy_range(datagram, pos, datagram.len());
                    assert(kept@ =~= d);
                    let ghost pend0 = self@.pending;
                    self.received_pkts.push_back(kept);
                    assert(self@.pending =~= pend0.push(d));
                    self.burst = old_burst;
                    assert(self@.outgoing == out0);
                    Some(Ok(()))
                } else if mode != Mode::ReadResp || addr != chunk.expected_id {
                    // a response to an earlier request, or traffic of no interest
                    self.burst = old_burst;
                    assert(self@.outgoing == out0);
                    None
                } else if self.burst.is_some() {
                    // the header of a burst response
                    assert(self@.outgoing == out0);
                    None
                } else {
                    let mut data = data;
                    let n = data.len();
                    chunk.data.append(&mut data);
                    chunk.expected_id = chunk.expected_id.wrapping_add(n as u32);
                    assert(self@.outgoing == out0);
                    None
                }
            },
            Ok(NocPacket::Burst { data }) => {
                let mut data = data;
                let n = data.len();
                chunk.data.append(&mut data);
                chunk.expected_id = chunk.expected_id.wrapping_add(n as u32);
                assert(self@.outgoing == out0);
                None
            },
        }
    }

    /// Takes one received datagram while `chunk` waits for its responses.
    #[verifier::rlimit(60)]
    pub fn on_read_datagram(&mut self, chunk: &mut ReadChunk, datagram: &[u8]) -> (r: Result<(), ProtocolError>)
        requires
            old(self).wf(),
        ensures
            final(self).wf(),
            final(self)@.next_req_id == old(self)@.next_req_id,
            queued(final(self)@) == queued(old(self)@),
            final(chunk).target == old(chunk).target,
            final(chunk).addr == old(chunk).addr,
            final(chunk).byte_count == old(chunk).byte_count,
            datagram@.len() % 18 != 0 ==> r == Err::<(), ProtocolError>(ProtocolError::BadLength(datagram@.len() as usize)),
            datagram@.len() % 18 == 0 ==> match scan_read(
                chunk_scan_state(*old(chunk), old(self)@.burst, old(self)@.pending),
                datagram@,
            ) {
                Ok(s) => r is Ok && s == chunk_scan_state(*final(chunk), final(self)@.burst, final(self)@.pending),
                Err(e) => r == Err::<(), ProtocolError>(e),
            },
    {
        if datagram.len() % NOC_PACKET_LEN != 0 {
            return Err(ProtocolError::BadLength(datagram.len()));
        }
        let ghost init = chunk_scan_state(*chunk, self@.burst, self@.pending);
        let mut pos: usize = 0;
        assert(datagram@.skip(0) =~= datagram@);
        while datagram.len() - pos >= NOC_PACKET_LEN
            invariant
                self.wf(),
                pos <= datagram@.len(),
                datagram@.len() % 18 == 0,
                pos % 18 == 0,
                self@.next_req_id == old(self)@.next_req_id,
                queued(self@) == queued(old(self)@),
                chunk.target == old(chunk).target,
                chunk.addr == old(chunk).addr,
                chunk.byte_count == old(chunk).byte_count,
                init == chunk_scan_state(*old(chunk), old(self)@.burst, old(self)@.pending),
                scan_read(init, datagram@) == scan_read(
                    chunk_scan_state(*chunk, self@.burst, self@.pending),
                    datagram@.skip(pos as int),
                ),
            decreases datagram@.len() - pos,
        {
            let ghost d = datagram@.skip(pos as int);
            let ghost st = chunk_scan_state(*chunk, self@.burst, self@.pending);
            assert(d.skip(18) =~= datagram@.skip(pos + 18));
            assert(d.len() >= 18);
            assert(scan_read(st, d) == match scan_packet(st, d) {
                ScanStep::Stop(r) => r,
                ScanStep::Next(t) => scan_read(t, d.skip(18)),
            });
            let step = self.read_packet(chunk, datagram, pos);
            match step {
                Some(res) => {
                    return res;
                },
                None => {},
            }
            pos = pos + NOC_PACKET_LEN;
        }
        assert(datagram@.skip(pos as int).len() < 18);
        Ok(())
    }
}

/// A read of `remaining` more bytes at `addr`, done chunk by chunk, with
/// the bytes collected so far and the number of chunks that failed.
pub struct ReadOp {
    pub target: FPGAModule,
    pub addr: u32,
    pub remaining: usize,
    pub failures: usize,
    pub result: Vec<u8>,
}

impl ReadOp {
    pub fn new(target: FPGAModule, addr: u32, len: usize) -> (r: Self)
        ensures
            r.target == target,
            r.addr == addr,
            r.remaining == len,
            r.failures == 0,
            r.result@.len() == 0,
    {
        ReadOp { target, addr, remaining: len, failures: 0, result: Vec::new() }
    }

    /// Whether every requested byte has been collected.
    pub fn is_done(&self) -> (r: bool)
        ensures
            r == (self.remaining == 0),
    {
        self.remaining == 0
    }

    /// Sends the request for the next chunk.
    pub fn next_chunk(&self, comm: &mut Communicator) -> (r: ReadChunk)
        requires
            old(comm).wf(),
        ensures
            final(comm).wf(),
            r.target == self.target,
            r.addr == self.addr,
            r.byte_count == if self.remaining < MAX_READ_REQ_LEN { self.remaining } else { MAX_READ_REQ_LEN },
            r.expected_id == old(comm)@.next_req_id,
            r.data@.len() == 0,
            final(comm)@.next_req_id == wrap_add(old(comm)@.next_req_id, 1),
            queued(final(comm)@) == queued(old(comm)@)
                + read_req_packet(self.target, self.addr, r.byte_count as int, r.expected_id),
            final(comm)@.outgoing == sent_after(
                old(comm)@,
                read_req_packet(self.target, self.addr, r.byte_count as int, r.expected_id),
            ),
            final(comm)@.send_buf.len() == 0,
            final(comm)@.burst == old(comm)@.burst,
            final(comm)@.pending == old(comm)@.pending,
    {
        comm.begin_read(self.target, self.addr, self.remaining)
    }

    /// Takes a chunk whose bytes have all arrived: they are added to the
    /// result and the read goes on after them. A chunk that brought more
    /// bytes than it asked for is refused, and the read is left as it was.
    pub fn finish_chunk(&mut self, chunk: ReadChunk) -> (r: Result<(), ProtocolError>)
        requires
            chunk.byte_count <= old(self).remaining,
            chunk.byte_count <= MAX_READ_REQ_LEN,
            chunk.data@.len() >= chunk.byte_count,
        ensures
            chunk.data@.len() > chunk.byte_count ==> r == Err::<(), ProtocolError>(ProtocolError::ExcessData)
                && *final(self) == *old(self),
            chunk.data@.len() == chunk.byte_count ==> {
                &&& r is Ok
                &&& final(self).result@ == old(self).result@ + chunk.data@
                &&& final(self).addr == wrap_add(old(self).addr, chunk.byte_count as int)
                &&& final(self).remaining == old(self).remaining - chunk.byte_count
                &&& final(self).target == old(self).target
                &&& final(self).failures == old(self).failures
            },
    {
        if chunk.data.len() > chunk.byte_count {
            return Err(ProtocolError::ExcessData);
        }
        let n = chunk.byte_count;
        let mut data = chunk.data;
        self.result.append(&mut data);
        self.addr = self.addr.wrapping_add(n as u32);
        self.remaining = self.remaining - n;
        Ok(())
    }

    /// Records a chunk that failed; returns whether the read gives up,
    /// which it does from the `MAX_READ_RETRIES`-th failure on.
    pub fn chunk_failed(&mut self) -> (give_up: bool)
        ensures
            final(self).failures == if old(self).failures < MAX_READ_RETRIES {
                old(self).failures + 1
            } else {
                old(self).failures as int
            },
            give_up == (final(self).failures >= MAX_READ_RETRIES),
            final(self).addr == old(self).addr,
            final(self).remaining == old(self).remaining,
            final(self).result@ == old(self).result@,
            final(self).target == old(self).target,
    {
        if self.failures < MAX_READ_RETRIES {
            self.failures = self.failures + 1;
        }
        self.failures >= MAX_READ_RETRIES
    }
}

} // verus!
