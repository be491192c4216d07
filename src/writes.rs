//! Posted writes: aligned packets, and length-prefixed burst groups.
use vstd::prelude::*;

use crate::comm::{coalesce, lemma_coalesce_concat, queued, sent_after, Communicator, MAX_BURST_FLITS};
use crate::module::FPGAModule;
use crate::packet::{
    burst_packet_spec, encode_packet, encode_packet_burst, packet_spec, Mode, BYTES_PER_BURST_PACKET,
    BYTES_PER_PACKET, copy_range,
};

verus! {

/// `a + k` in the 32-bit address space, which wraps around.
pub open spec fn wrap_add(a: u32, k: int) -> u32 {
    ((a + k) % 0x1_0000_0000) as u32
}

/// How many of the `n` remaining bytes go into the packet at `addr`: up to
/// the next 8-byte boundary.
pub open spec fn chunk_len(addr: u32, n: int) -> int {
    let room = 8 - (addr % 8) as int;
    if room < n { room } else { n }
}

/// The byte-select mask that marks the first `k` logical payload bytes valid.
pub open spec fn low_mask(k: int) -> u8 {
    0xFFu8 >> ((8 - k) as u8)
}

/// `d` padded with zeros to a full 8-byte slot.
pub open spec fn pad8(d: Seq<u8>) -> Seq<u8> {
    d + Seq::new((8 - d.len()) as nat, |i: int| 0u8)
}

/// How a posted write of `data` at `addr` is cut: each piece with its
/// address, the first one reaching the next 8-byte boundary, and every
/// later one starting on a boundary.
pub open spec fn noburst_chunks(addr: u32, data: Seq<u8>) -> Seq<(u32, Seq<u8>)>
    decreases data.len(),
{
    if data.len() == 0 {
        Seq::empty()
    } else {
        let k = chunk_len(addr, data.len() as int);
        seq![(addr, data.take(k))] + noburst_chunks(wrap_add(addr, k), data.skip(k))
    }
}

/// The posted-write packet that carries one piece.
pub open spec fn chunk_packet(target: FPGAModule, c: (u32, Seq<u8>)) -> Seq<u8> {
    packet_spec(target, false, low_mask(c.1.len() as int), c.0, pad8(c.1), Mode::WritePosted)
}

/// The packets of a posted write of `data` at `addr`, in sending order.
pub open spec fn noburst_packets(target: FPGAModule, addr: u32, data: Seq<u8>) -> Seq<Seq<u8>> {
    noburst_chunks(addr, data).map_values(|c: (u32, Seq<u8>)| chunk_packet(target, c))
}

/// The bytes of those packets, back to back.
pub open spec fn noburst_stream(target: FPGAModule, addr: u32, data: Seq<u8>) -> Seq<u8> {
    noburst_packets(target, addr, data).flatten()
}

pub(crate) proof fn lemma_noburst_step(target: FPGAModule, addr: u32, data: Seq<u8>)
    requires
        data.len() > 0,
    ensures
        ({
            let k = chunk_len(addr, data.len() as int);
            &&& 1 <= k <= 8
            &&& noburst_stream(target, addr, data) == chunk_packet(target, (addr, data.take(k)))
                + noburst_stream(target, wrap_add(addr, k), data.skip(k))
        }),
{
    let k = chunk_len(addr, data.len() as int);
    let pk = noburst_packets(target, addr, data);
    let rest = noburst_packets(target, wrap_add(addr, k), data.skip(k));
    assert(pk =~= seq![chunk_packet(target, (addr, data.take(k)))] + rest);
    assert(pk.drop_first() =~= rest);
}

/// The little-endian bytes of a 32-bit value.
pub open spec fn le32(x: u32) -> Seq<u8> {
    seq![x as u8, (x >> 8u32) as u8, (x >> 16u32) as u8, (x >> 24u32) as u8]
}

/// Eight payload bytes holding `lo` and then `hi`, both little-endian.
pub fn le_pair(lo: u32, hi: u32) -> (r: [u8; 8])
    ensures
        r@ == le32(lo) + le32(hi),
{
    let r = [
        lo as u8,
        (lo >> 8u32) as u8,
        (lo >> 16u32) as u8,
        (lo >> 24u32) as u8,
        hi as u8,
        (hi >> 8u32) as u8,
        (hi >> 16u32) as u8,
        (hi >> 24u32) as u8,
    ];
    assert(r@ =~= le32(lo) + le32(hi));
    r
}

/// The flits that carry `d` (a whole number of flits) as one burst group:
/// every flit but the last says that the group continues.
pub open spec fn flit_stream(d: Seq<u8>) -> Seq<u8>
    decreases d.len(),
{
    if d.len() < 16 {
        Seq::empty()
    } else {
        burst_packet_spec(d.len() >= 32, d) + flit_stream(d.skip(16))
    }
}

/// Flits in the next burst group when `n` bytes are left.
pub open spec fn group_flits(n: int) -> int {
    if n / 16 < MAX_BURST_FLITS { n / 16 } else { MAX_BURST_FLITS as int }
}

/// The header packet that opens a burst group of `g` flits at `addr`.
pub open spec fn group_header(target: FPGAModule, addr: u32, g: int) -> Seq<u8> {
    packet_spec(target, true, 0xFFu8, addr, le32(g as u32) + le32(0), Mode::WritePosted)
}

/// The burst groups that write `data` (a whole number of flits) at `addr`.
#[verifier::opaque]
pub open spec fn burst_stream(target: FPGAModule, addr: u32, data: Seq<u8>) -> Seq<u8>
    decreases data.len(),
{
    if data.len() < 16 {
        Seq::empty()
    } else {
        let len = 16 * group_flits(data.len() as int);
        group_header(target, addr, group_flits(data.len() as int)) + flit_stream(data.take(len))
            + burst_stream(target, wrap_add(addr, len), data.skip(len))
    }
}

/// How many leading bytes of an `n`-byte write at `addr` go by burst: the
/// longest whole number of flits, where `addr` is 16-byte aligned.
pub open spec fn burst_prefix_len(addr: u32, n: int) -> int {
    if addr % 16 == 0 { n - n % 16 } else { 0 }
}

pub(crate) proof fn lemma_burst_step(target: FPGAModule, addr: u32, d: Seq<u8>)
    requires
        d.len() >= 16,
    ensures
        ({
            let g = group_flits(d.len() as int);
            burst_stream(target, addr, d) == group_header(target, addr, g) + flit_stream(d.take(16 * g))
                + burst_stream(target, wrap_add(addr, 16 * g), d.skip(16 * g))
        }),
{
    reveal(burst_stream);
}

pub(crate) proof fn lemma_group_len(r: int)
    requires
        r >= 16,
        r % 16 == 0,
    ensures
        1 <= group_flits(r) <= MAX_BURST_FLITS,
        16 * group_flits(r) <= r,
        (r - 16 * group_flits(r)) % 16 == 0,
{
    let g = group_flits(r);
    assert(16 * (r / 16) == r) by (nonlinear_arith)
        requires r % 16 == 0, r >= 16;
    assert(r / 16 >= 1) by (nonlinear_arith)
        requires r >= 16;
    assert((r - 16 * g) % 16 == 0) by (nonlinear_arith)
        requires r % 16 == 0, 1 <= g;
}

pub(crate) proof fn lemma_burst_empty(target: FPGAModule, addr: u32, d: Seq<u8>)
    requires
        d.len() < 16,
    ensures
        burst_stream(target, addr, d) == Seq::<u8>::empty(),
{
    reveal(burst_stream);
}

pub(crate) proof fn lemma_wrap_add_twice(a: u32, x: int, y: int)
    requires
        0 <= x,
        0 <= y,
    ensures
        wrap_add(wrap_add(a, x), y) == wrap_add(a, x + y),
{
    vstd::arithmetic::div_mod::lemma_add_mod_noop(a + x, y, 0x1_0000_0000);
    vstd::arithmetic::div_mod::lemma_add_mod_noop_right((a + x) % 0x1_0000_0000, y, 0x1_0000_0000);
    vstd::arithmetic::div_mod::lemma_mod_bound(a + x, 0x1_0000_0000);
    vstd::arithmetic::div_mod::lemma_mod_bound(a + x + y, 0x1_0000_0000);
}

impl Communicator {
    /// Writes `data` at `addr` with posted writes: one packet up to the next
    /// 8-byte boundary, one per full aligned 8-byte slot, and one for what
    /// remains; then sends everything. Returns the number of bytes written.
    pub fn write_noburst(&mut self, target: FPGAModule, addr: u32, data: &[u8]) -> (n: usize)
        requires
            old(self).wf(),
        ensures
            final(self).wf(),
            n == data@.len(),
            queued(final(self)@) == queued(old(self)@) + noburst_stream(target, addr, data@),
            noburst_stream(target, addr, data@).len() % 18 == 0,
            final(self)@.outgoing == sent_after(old(self)@, noburst_stream(target, addr, data@)),
            final(self)@.send_buf.len() == 0,
            final(self)@.next_req_id == old(self)@.next_req_id,
            final(self)@.burst == old(self)@.burst,
            final(self)@.pending == old(self)@.pending,
    {
        let mut pos: usize = 0;
        let mut cur: u32 = addr;
        let ghost mut emitted: Seq<u8> = Seq::empty();
        assert(data@.skip(0) =~= data@);
        assert(emitted + noburst_stream(target, addr, data@) =~= noburst_stream(target, addr, data@));
        while pos < data.len()
            invariant
                self.wf(),
                pos <= data@.len(),
                queued(self@) + noburst_stream(target, cur, data@.skip(pos as int))
                    == queued(old(self)@) + noburst_stream(target, addr, data@),
                emitted.len() % 18 == 0,
                emitted + noburst_stream(target, cur, data@.skip(pos as int)) == noburst_stream(target, addr, data@),
                (self@.outgoing, self@.send_buf) == coalesce(old(self)@.outgoing, old(self)@.send_buf, emitted),
                self@.next_req_id == old(self)@.next_req_id,
                self@.burst == old(self)@.burst,
                self@.pending == old(self)@.pending,
            decreases data@.len() - pos,
        {
            let ghost rest = data@.skip(pos as int);
            proof { lemma_noburst_step(target, cur, rest); }
            let room: usize = BYTES_PER_PACKET - (cur % 8) as usize;
            let k: usize = if room < data.len() - pos { room } else { data.len() - pos };
            assert(k == chunk_len(cur, rest.len() as int));
            let mut buf: Vec<u8> = Vec::with_capacity(BYTES_PER_PACKET);
            let mut j: usize = 0;
            while j < BYTES_PER_PACKET
                invariant
                    j <= 8,
                    1 <= k <= 8,
                    pos + k <= data@.len(),
                    data@.len() == data.len(),
                    rest == data@.skip(pos as int),
                    buf@ == pad8(rest.take(k as int)).take(j as int),
                decreases 8 - j,
            {
                if j < k {
                    buf.push(data[pos + j]);
                } else {
                    buf.push(0u8);
                }
                j = j + 1;
                assert(buf@ =~= pad8(rest.take(k as int)).take(j as int));
            }
            assert(buf@ =~= pad8(rest.take(k as int)));
            let pkt = encode_packet(target, false, 0xFFu8 >> ((8 - k) as u8), cur, buf.as_slice(), Mode::WritePosted);
            assert(pad8(rest.take(k as int)).take(8) =~= pad8(rest.take(k as int)));
            assert(pkt@ == chunk_packet(target, (cur, rest.take(k as int))));
            let ghost q0 = queued(self@);
            let ghost cur0 = cur;
            self.append_packet(&pkt);
            let next = cur.wrapping_add(k as u32);
            assert(next == wrap_add(cur, k as int));
            assert(rest.skip(k as int) =~= data@.skip(pos + k));
            cur = next;
            pos = pos + k;
            assert(queued(self@) + noburst_stream(target, cur, data@.skip(pos as int))
                =~= q0 + noburst_stream(target, cur0, rest));
            proof {
                lemma_coalesce_concat(old(self)@.outgoing, old(self)@.send_buf, emitted, pkt@);
                assert(emitted + pkt@ + noburst_stream(target, cur, data@.skip(pos as int))
                    =~= emitted + noburst_stream(target, cur0, rest));
                emitted = emitted + pkt@;
            }
        }
        assert(data@.skip(pos as int) =~= Seq::<u8>::empty());
        assert(emitted =~= noburst_stream(target, addr, data@));
        self.flush_packets();
        pos
    }

    /// Appends the flits of one burst group carrying `data[start..end]`.
    fn append_flits(&mut self, data: &[u8], start: usize, end: usize)
        requires
            old(self).wf(),
            start <= end <= data@.len(),
            (end - start) % 16 == 0,
        ensures
            final(self).wf(),
            queued(final(self)@) == queued(old(self)@) + flit_stream(data@.subrange(start as int, end as int)),
            flit_stream(data@.subrange(start as int, end as int)).len() % 18 == 0,
            (final(self)@.outgoing, final(self)@.send_buf) == coalesce(
                old(self)@.outgoing,
                old(self)@.send_buf,
                flit_stream(data@.subrange(start as int, end as int)),
            ),
            final(self)@.next_req_id == old(self)@.next_req_id,
            final(self)@.burst == old(self)@.burst,
            final(self)@.pending == old(self)@.pending,
    {
        let mut pos: usize = start;
        let ghost mut emitted: Seq<u8> = Seq::empty();
        assert(emitted + flit_stream(data@.subrange(start as int, end as int))
            =~= flit_stream(data@.subrange(start as int, end as int)));
        while pos < end
            invariant
                self.wf(),
                start <= pos <= end <= data@.len(),
                (end - pos) % 16 == 0,
                queued(self@) + flit_stream(data@.subrange(pos as int, end as int))
                    == queued(old(self)@) + flit_stream(data@.subrange(start as int, end as int)),
                emitted.len() % 18 == 0,
                emitted + flit_stream(data@.subrange(pos as int, end as int))
                    == flit_stream(data@.subrange(start as int, end as int)),
                (self@.outgoing, self@.send_buf) == coalesce(old(self)@.outgoing, old(self)@.send_buf, emitted),
                self@.next_req_id == old(self)@.next_req_id,
                self@.burst == old(self)@.burst,
                self@.pending == old(self)@.pending,
            decreases end - pos,
        {
            let ghost frest = data@.subrange(pos as int, end as int);
            let ghost q2 = queued(self@);
            let flit = copy_range(data, pos, pos + BYTES_PER_BURST_PACKET);
            let not_last = end - pos >= 2 * BYTES_PER_BURST_PACKET;
            let fpkt = encode_packet_burst(not_last, flit.as_slice());
            assert(frest.take(16) =~= flit@.take(16));
            assert(fpkt@ == burst_packet_spec(frest.len() >= 32, frest));
            self.append_packet(&fpkt);
            pos = pos + BYTES_PER_BURST_PACKET;
            assert(frest.skip(16) =~= data@.subrange(pos as int, end as int));
            assert(queued(self@) + flit_stream(data@.subrange(pos as int, end as int))
                =~= q2 + flit_stream(frest));
            proof {
                lemma_coalesce_concat(old(self)@.outgoing, old(self)@.send_buf, emitted, fpkt@);
                assert(emitted + fpkt@ + flit_stream(data@.subrange(pos as int, end as int))
                    =~= emitted + flit_stream(frest));
                emitted = emitted + fpkt@;
            }
        }
        assert(data@.subrange(pos as int, end as int) =~= Seq::<u8>::empty());
        assert(queued(self@) =~= queued(self@) + flit_stream(Seq::<u8>::empty()));
        assert(emitted =~= flit_stream(data@.subrange(start as int, end as int)));
    }

    /// Appends one burst group: the header for `g` flits at `addr`, then the
    /// flits carrying `data[start..start + 16 * g]`.
    fn append_group(&mut self, target: FPGAModule, addr: u32, data: &[u8], start: usize, g: usize)
        requires
            old(self).wf(),
            1 <= g <= MAX_BURST_FLITS,
            start + 16 * g <= data@.len(),
        ensures
            final(self).wf(),
            ({
                let s = group_header(target, addr, g as int)
                    + flit_stream(data@.subrange(start as int, start + 16 * g));
                &&& queued(final(self)@) == queued(old(self)@) + s
                &&& s.len() % 18 == 0
                &&& (final(self)@.outgoing, final(self)@.send_buf)
                    == coalesce(old(self)@.outgoing, old(self)@.send_buf, s)
            }),
            final(self)@.next_req_id == old(self)@.next_req_id,
            final(self)@.burst == old(self)@.burst,
            final(self)@.pending == old(self)@.pending,
    {
        let hdr = le_pair(g as u32, 0);
        let pkt = encode_packet(target, true, 0xFFu8, addr, &hdr, Mode::WritePosted);
        assert(pkt@ == group_header(target, addr, g as int));
        self.append_packet(&pkt);
        let len: usize = g * BYTES_PER_BURST_PACKET;
        assert(len == 16 * g);
        assert(start + len <= data@.len());
        assert(data@.len() == data.len());
        let end: usize = start + len;
        self.append_flits(data, start, end);
        proof {
            let f = flit_stream(data@.subrange(start as int, end as int));
            lemma_coalesce_concat(old(self)@.outgoing, old(self)@.send_buf, pkt@, f);
            assert(queued(self@) =~= queued(old(self)@) + (pkt@ + f));
        }
    }

    /// Writes `data` at `addr`, sending its burst-eligible prefix as burst
    /// groups of at most `MAX_BURST_FLITS` flits and the rest with posted
    /// writes. Returns the number of bytes written.
    #[verifier::rlimit(40)]
    pub fn write_burst(&mut self, target: FPGAModule, addr: u32, data: &[u8]) -> (n: usize)
        requires
            old(self).wf(),
        ensures
            final(self).wf(),
            n == data@.len(),
            ({
                let m = burst_prefix_len(addr, data@.len() as int);
                let s = burst_stream(target, addr, data@.take(m)) + noburst_stream(target, wrap_add(addr, m), data@.skip(m));
                &&& queued(final(self)@) == queued(old(self)@) + s
                &&& s.len() % 18 == 0
                &&& final(self)@.outgoing == sent_after(old(self)@, s)
            }),
            final(self)@.send_buf.len() == 0,
            final(self)@.next_req_id == old(self)@.next_req_id,
            final(self)@.burst == old(self)@.burst,
            final(self)@.pending == old(self)@.pending,
    {
        let m: usize = if addr % 16 == 0 { data.len() - data.len() % 16 } else { 0 };
        assert(m == burst_prefix_len(addr, data@.len() as int));
        let ghost whole = data@.take(m as int);
        assert(m % 16 == 0) by (nonlinear_arith)
            requires m == 0 || m == data@.len() - data@.len() % 16;
        let mut pos: usize = 0;
        let mut cur: u32 = addr;
        let ghost mut emitted: Seq<u8> = Seq::empty();
        assert(data@.subrange(0, m as int) =~= whole);
        assert(emitted + burst_stream(target, addr, whole) =~= burst_stream(target, addr, whole));
        while pos < m
            invariant
                self.wf(),
                pos <= m <= data@.len(),
                m == burst_prefix_len(addr, data@.len() as int),
                whole == data@.take(m as int),
                (m - pos) % 16 == 0,
                cur == wrap_add(addr, pos as int),
                queued(self@) + burst_stream(target, cur, data@.subrange(pos as int, m as int))
                    == queued(old(self)@) + burst_stream(target, addr, whole),
                emitted.len() % 18 == 0,
                emitted + burst_stream(target, cur, data@.subrange(pos as int, m as int))
                    == burst_stream(target, addr, whole),
                (self@.outgoing, self@.send_buf) == coalesce(old(self)@.outgoing, old(self)@.send_buf, emitted),
                self@.next_req_id == old(self)@.next_req_id,
                self@.burst == old(self)@.burst,
                self@.pending == old(self)@.pending,
            decreases m - pos,
        {
            let ghost rest = data@.subrange(pos as int, m as int);
            let ghost q0 = queued(self@);
            let ghost cur0 = cur;
            let remaining: usize = m - pos;
            let g: usize = if remaining / BYTES_PER_BURST_PACKET < MAX_BURST_FLITS {
                remaining / BYTES_PER_BURST_PACKET
            } else {
                MAX_BURST_FLITS
            };
            assert(g == group_flits(rest.len() as int));
            proof { lemma_group_len(remaining as int); }
            let len: usize = g * BYTES_PER_BURST_PACKET;
            let end: usize = pos + len;
            let ghost group = data@.subrange(pos as int, end as int);
            assert(rest.take(len as int) =~= group);
            self.append_group(target, cur, data, pos, g);
            pos = end;
            let next = cur.wrapping_add(len as u32);
            proof {
                lemma_wrap_add_twice(addr, (pos - len) as int, len as int);
                assert(rest.skip(len as int) =~= data@.subrange(pos as int, m as int));
                lemma_burst_step(target, cur0, rest);
                let h = group_header(target, cur0, g as int);
                let f = flit_stream(group);
                let b = burst_stream(target, next, data@.subrange(pos as int, m as int));
                assert(queued(self@) == q0 + (h + f));
                assert(burst_stream(target, cur0, rest) == h + f + b);
                assert((q0 + (h + f)) + b =~= q0 + (h + f + b));
                lemma_coalesce_concat(old(self)@.outgoing, old(self)@.send_buf, emitted, h + f);
                assert(emitted + (h + f) + b =~= emitted + (h + f + b));
                emitted = emitted + (h + f);
            }
            cur = next;
        }
        proof { lemma_burst_empty(target, cur, data@.subrange(pos as int, m as int)); }
        assert(emitted =~= burst_stream(target, addr, whole));
        let tail = copy_range(data, m, data.len());
        assert(tail@ =~= data@.skip(m as int));
        self.write_noburst(target, cur, tail.as_slice());
        proof {
            lemma_coalesce_concat(
                old(self)@.outgoing,
                old(self)@.send_buf,
                emitted,
                noburst_stream(target, cur, tail@),
            );
        }
        assert(queued(self@) =~= queued(old(self)@) + burst_stream(target, addr, whole)
            + noburst_stream(target, wrap_add(addr, m as int), data@.skip(m as int)));
        data.len()
    }
}

} // verus!
