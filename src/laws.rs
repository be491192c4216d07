//! Properties that relate several operations: round trips of the write
//! paths through the decoder, alignment, stale and unsolicited traffic
//! during reads, and the outcomes of the self-test.
use vstd::prelude::*;

use crate::module::{eth_mod, FPGAModule};
use crate::packet::{
    burst_packet_spec, decode_spec, packet_spec, select_window, BurstState,
    Mode, PacketView,
};
use crate::reads::{is_unsolicited, scan_packet, scan_read, scan_through, ScanState, ScanStep};
use crate::receive::{receive_packet, scan_receive};
use crate::selftest::{
    self_test_pattern, self_test_run, self_test_step, self_test_verdict, SelfTestStep,
    MAX_SELF_TEST_RETRIES, SELF_TEST_ADDR,
};
use crate::writes::{
    burst_prefix_len, burst_stream, chunk_packet, flit_stream, group_flits, group_header, low_mask,
    noburst_chunks, noburst_packets, noburst_stream, pad8, wrap_add,
};

verus! {

proof fn lemma_low_mask(k: int)
    requires
        1 <= k <= 8,
    ensures
        low_mask(k) != 0,
        select_window(low_mask(k)) == (8 - k, 8int),
{
    if k == 1 { assert(0xFFu8 >> 7u8 == 1u8) by (bit_vector); }
    else if k == 2 { assert(0xFFu8 >> 6u8 == 3u8) by (bit_vector); }
    else if k == 3 { assert(0xFFu8 >> 5u8 == 7u8) by (bit_vector); }
    else if k == 4 { assert(0xFFu8 >> 4u8 == 15u8) by (bit_vector); }
    else if k == 5 { assert(0xFFu8 >> 3u8 == 31u8) by (bit_vector); }
    else if k == 6 { assert(0xFFu8 >> 2u8 == 63u8) by (bit_vector); }
    else if k == 7 { assert(0xFFu8 >> 1u8 == 127u8) by (bit_vector); }
    else { assert(0xFFu8 >> 0u8 == 255u8) by (bit_vector); }
}

proof fn lemma_header_fields(target: FPGAModule, burst: bool, bsel: u8, addr: u32, data: Seq<u8>, mode: Mode)
    requires
        data.len() >= 8,
    ensures
        ({
            let p = packet_spec(target, burst, bsel, addr, data, mode);
            &&& p.len() == 18
            &&& p[0] == if burst { 1u8 } else { 0u8 }
            &&& p[1] == bsel
            &&& p[5] & 0xFu8 == mode.code()
            &&& p[3] >> 2u8 == eth_mod().chip_id
            &&& p[2] == eth_mod().mod_id
            &&& crate::packet::addr_of(p) == addr
            &&& forall|i: int| 0 <= i < 8 ==> #[trigger] p[10 + i] == data[7 - i]
        }),
{
    let p = packet_spec(target, burst, bsel, addr, data, mode);
    let c = target.chip_id;
    let mo = target.mod_id;
    let code = mode.code();
    assert(code <= 4);
    assert(((c << 4u8) | code) & 0xFu8 == code) by (bit_vector)
        requires code <= 4u8;
    assert(((0u8 << 2u8) | (mo >> 6u8)) >> 2u8 == 0u8) by (bit_vector);
    assert(((((addr >> 24u32) as u8) as u32) << 24u32) | ((((addr >> 16u32) as u8) as u32) << 16u32)
        | ((((addr >> 8u32) as u8) as u32) << 8u32) | ((addr as u8) as u32) == addr) by (bit_vector);
    assert(p[5] == (c << 4u8) | code);
    assert(p[3] == (0u8 << 2u8) | (mo >> 6u8));
}

/// A packet of `k` valid bytes, decoded with no burst in progress, gives
/// back its mode, its address and exactly those bytes.
proof fn lemma_masked_decode(target: FPGAModule, addr: u32, c: Seq<u8>, mode: Mode)
    requires
        1 <= c.len() <= 8,
    ensures
        decode_spec(packet_spec(target, false, low_mask(c.len() as int), addr, pad8(c), mode), None)
            == Ok::<(PacketView, BurstState), crate::packet::ProtocolError>((
            PacketView::Normal { src: eth_mod(), mode, addr, data: c },
            None,
        )),
{
    let k = c.len() as int;
    let d = pad8(c);
    let p = packet_spec(target, false, low_mask(k), addr, d, mode);
    lemma_low_mask(k);
    lemma_header_fields(target, false, low_mask(k), addr, d, mode);
    let got = p.subrange(10 + 8 - k, 18).reverse();
    assert forall|j: int| 0 <= j < k implies got[j] == c[j] by {
        assert(p[10 + (7 - j)] == d[j]);
    }
    assert(got =~= c);
    assert(p.take(18) =~= p);
}

proof fn lemma_chunk_decode(target: FPGAModule, addr: u32, c: Seq<u8>)
    requires
        1 <= c.len() <= 8,
    ensures
        decode_spec(chunk_packet(target, (addr, c)), None) == Ok::<(PacketView, BurstState), crate::packet::ProtocolError>((
            PacketView::Normal { src: eth_mod(), mode: Mode::WritePosted, addr, data: c },
            None,
        )),
{
    lemma_masked_decode(target, addr, c, Mode::WritePosted);
}

proof fn lemma_noburst_scan(target: FPGAModule, addr: u32, data: Seq<u8>, acc: Seq<u8>, y: Seq<u8>)
    ensures
        scan_receive(acc, None, noburst_stream(target, addr, data) + y) == scan_receive(acc + data, None, y),
    decreases data.len(),
{
    if data.len() == 0 {
        assert(noburst_chunks(addr, data) =~= Seq::<(u32, Seq<u8>)>::empty());
        assert(noburst_packets(target, addr, data) =~= Seq::<Seq<u8>>::empty());
        assert(noburst_stream(target, addr, data) + y =~= y);
        assert(acc + data =~= acc);
    } else {
        crate::writes::lemma_noburst_step(target, addr, data);
        let k = crate::writes::chunk_len(addr, data.len() as int);
        let c = data.take(k);
        let pkt = chunk_packet(target, (addr, c));
        let next = crate::writes::wrap_add(addr, k);
        let z = noburst_stream(target, next, data.skip(k)) + y;
        lemma_chunk_decode(target, addr, c);
        assert(noburst_stream(target, addr, data) + y =~= pkt + z);
        assert((pkt + z).take(18) =~= pkt);
        assert((pkt + z).skip(18) =~= z);
        reveal(receive_packet);
        assert(receive_packet(acc, None, pkt + z) == Ok::<(Seq<u8>, BurstState), crate::packet::ProtocolError>((acc + c, None)));
        lemma_noburst_scan(target, next, data.skip(k), acc + c, y);
        assert(acc + c + data.skip(k) =~= acc + data);
    }
}

proof fn lemma_noburst_chunks(addr: u32, data: Seq<u8>)
    ensures
        forall|i: int| 0 <= i < noburst_chunks(addr, data).len()
            ==> 1 <= (#[trigger] noburst_chunks(addr, data)[i]).1.len() <= 8,
        noburst_chunks(addr, data).map_values(|c: (u32, Seq<u8>)| c.1).flatten() == data,
    decreases data.len(),
{
    let ch = noburst_chunks(addr, data);
    if data.len() == 0 {
        assert(ch.map_values(|c: (u32, Seq<u8>)| c.1) =~= Seq::<Seq<u8>>::empty());
    } else {
        let k = crate::writes::chunk_len(addr, data.len() as int);
        let next = crate::writes::wrap_add(addr, k);
        lemma_noburst_chunks(next, data.skip(k));
        let rest = noburst_chunks(next, data.skip(k));
        assert(ch =~= seq![(addr, data.take(k))] + rest);
        assert forall|i: int| 0 <= i < ch.len() implies 1 <= (#[trigger] ch[i]).1.len() <= 8 by {
            if i > 0 {
                assert(ch[i] == rest[i - 1]);
            }
        }
        let m = ch.map_values(|c: (u32, Seq<u8>)| c.1);
        assert(m.drop_first() =~= rest.map_values(|c: (u32, Seq<u8>)| c.1));
        assert(data.take(k) + data.skip(k) =~= data);
    }
}

/// Round trip of a posted write: each packet that `write_noburst` sends
/// for `data` at `addr` decodes to its own address and piece of the data,
/// the pieces put together are `data`, and the whole packet stream,
/// decoded as incoming traffic from a fresh decoder, yields `data` and
/// leaves no burst open.
pub proof fn lemma_noburst_round_trip(target: FPGAModule, addr: u32, data: Seq<u8>)
    ensures
        ({
            let ch = noburst_chunks(addr, data);
            &&& noburst_packets(target, addr, data).len() == ch.len()
            &&& forall|i: int| 0 <= i < ch.len() ==> decode_spec(#[trigger] noburst_packets(target, addr, data)[i], None)
                == Ok::<(PacketView, BurstState), crate::packet::ProtocolError>((
                    PacketView::Normal { src: eth_mod(), mode: Mode::WritePosted, addr: ch[i].0, data: ch[i].1 },
                    None,
                ))
            &&& ch.map_values(|c: (u32, Seq<u8>)| c.1).flatten() == data
        }),
        scan_receive(Seq::empty(), None, noburst_stream(target, addr, data))
            == Ok::<(Seq<u8>, BurstState), crate::packet::ProtocolError>((data, None)),
{
    let ch = noburst_chunks(addr, data);
    lemma_noburst_chunks(addr, data);
    assert forall|i: int| 0 <= i < ch.len() implies decode_spec(#[trigger] noburst_packets(target, addr, data)[i], None)
        == Ok::<(PacketView, BurstState), crate::packet::ProtocolError>((
            PacketView::Normal { src: eth_mod(), mode: Mode::WritePosted, addr: ch[i].0, data: ch[i].1 },
            None,
        )) by {
        assert(1 <= ch[i].1.len() <= 8);
        lemma_chunk_decode(target, ch[i].0, ch[i].1);
    }
    lemma_noburst_scan(target, addr, data, Seq::empty(), Seq::empty());
    assert(noburst_stream(target, addr, data) + Seq::<u8>::empty() =~= noburst_stream(target, addr, data));
    assert(Seq::<u8>::empty() + data =~= data);
    assert(scan_receive(data, None, Seq::<u8>::empty()) == Ok::<(Seq<u8>, BurstState), crate::packet::ProtocolError>((data, None)));
}

proof fn lemma_wrap_add_mod8(a: u32, k: int)
    requires
        0 <= k,
    ensures
        crate::writes::wrap_add(a, k) % 8 == (a + k) % 8,
{
    vstd::arithmetic::div_mod::lemma_mod_mod(a + k, 8, 0x2000_0000);
    vstd::arithmetic::div_mod::lemma_mod_bound(a + k, 0x1_0000_0000);
}

proof fn lemma_chunk_count(addr: u32, data: Seq<u8>)
    ensures
        ({
            let ch = noburst_chunks(addr, data);
            &&& ch.len() <= (data.len() + 7) / 8 + 1
            &&& addr % 8 == 0 ==> ch.len() == (data.len() + 7) / 8
            &&& forall|i: int| 1 <= i < ch.len() ==> (#[trigger] ch[i]).0 % 8 == 0
        }),
    decreases data.len(),
{
    let ch = noburst_chunks(addr, data);
    let n = data.len() as int;
    if n == 0 {
    } else {
        let k = crate::writes::chunk_len(addr, n);
        let next = crate::writes::wrap_add(addr, k);
        let rest = noburst_chunks(next, data.skip(k));
        lemma_chunk_count(next, data.skip(k));
        assert(ch =~= seq![(addr, data.take(k))] + rest);
        if n > k {
            lemma_wrap_add_mod8(addr, k);
            assert((addr + k) % 8 == 0) by (nonlinear_arith)
                requires k == 8 - (addr % 8) as int;
            assert(next % 8 == 0);
            assert(rest.len() == (n - k + 7) / 8);
            if addr % 8 == 0 {
                assert(k == 8);
                assert(1 + (n - 8 + 7) / 8 == (n + 7) / 8) by (nonlinear_arith)
                    requires n > 8;
            }
            assert(1 + (n - k + 7) / 8 <= (n + 7) / 8 + 1) by (nonlinear_arith)
                requires 1 <= k;
            assert forall|i: int| 1 <= i < ch.len() implies (#[trigger] ch[i]).0 % 8 == 0 by {
                assert(ch[i] == rest[i - 1]);
                if i == 1 {
                    assert(rest[0].0 == next);
                }
            }
        } else {
            assert(data.skip(k).len() == 0);
            assert(rest.len() == 0);
            assert((n + 7) / 8 == 1) by (nonlinear_arith)
                requires 1 <= n <= 8;
        }
    }
}

/// Alignment of posted writes: writing `n` bytes never takes more than
/// `ceil(n / 8) + 1` packets (exactly `ceil(n / 8)` at an aligned address),
/// every packet after the first starts on an 8-byte boundary, and where the
/// address is not aligned and the data reaches the next boundary, the first
/// packet's byte-select mask is `0xFF >> (addr % 8)`, which marks exactly
/// the `8 - addr % 8` bytes up to that boundary.
pub proof fn lemma_noburst_alignment(target: FPGAModule, addr: u32, data: Seq<u8>)
    ensures
        ({
            let ch = noburst_chunks(addr, data);
            let pk = noburst_packets(target, addr, data);
            &&& pk.len() == ch.len()
            &&& pk.len() <= (data.len() + 7) / 8 + 1
            &&& addr % 8 == 0 ==> pk.len() == (data.len() + 7) / 8
            &&& forall|i: int| 1 <= i < ch.len() ==> (#[trigger] ch[i]).0 % 8 == 0
            &&& (addr % 8 != 0 && data.len() >= 8 - addr % 8) ==> {
                &&& pk[0][1] == 0xFFu8 >> ((addr % 8) as u8)
                &&& select_window(pk[0][1]) == ((addr % 8) as int, 8int)
                &&& ch[0].1 == data.take(8 - addr % 8)
            }
        }),
{
    lemma_chunk_count(addr, data);
    let ch = noburst_chunks(addr, data);
    let pk = noburst_packets(target, addr, data);
    if addr % 8 != 0 && data.len() >= 8 - addr % 8 {
        let k = 8 - (addr % 8) as int;
        assert(crate::writes::chunk_len(addr, data.len() as int) == k);
        assert(ch[0] == (addr, data.take(k)));
        lemma_low_mask(k);
        lemma_header_fields(target, false, low_mask(k), addr, pad8(data.take(k)), Mode::WritePosted);
        assert(pk[0] == chunk_packet(target, ch[0]));
        assert((8 - k) as u8 == (addr % 8) as u8);
    }
}

proof fn lemma_flit_scan(acc: Seq<u8>, first: bool, d: Seq<u8>, y: Seq<u8>)
    requires
        d.len() % 16 == 0,
        d.len() >= 16,
    ensures
        scan_receive(acc, Some((0xFFu8, first)), flit_stream(d) + y) == scan_receive(acc + d, None, y),
    decreases d.len(),
{
    let nl = d.len() >= 32;
    let p = burst_packet_spec(nl, d);
    let z = flit_stream(d.skip(16)) + y;
    assert(flit_stream(d) + y =~= p + z);
    assert((p + z).take(18) =~= p);
    assert((p + z).skip(18) =~= z);
    assert(0xFFu8 >> 4u8 == 15u8) by (bit_vector);
    assert(0xFFu8 & 0xFu8 == 15u8) by (bit_vector);
    assert(p.subrange(2, 18).reverse() =~= d.take(16));
    reveal(receive_packet);
    if nl {
        assert(receive_packet(acc, Some((0xFFu8, first)), p + z)
            == Ok::<(Seq<u8>, BurstState), crate::packet::ProtocolError>((acc + d.take(16), Some((0xFFu8, false)))));
        lemma_flit_scan(acc + d.take(16), false, d.skip(16), y);
        assert(acc + d.take(16) + d.skip(16) =~= acc + d);
    } else {
        assert(d.len() == 16);
        assert(d.take(16) =~= d);
        assert(d.skip(16).len() == 0);
        assert(z =~= y);
        assert(receive_packet(acc, Some((0xFFu8, first)), p + z)
            == Ok::<(Seq<u8>, BurstState), crate::packet::ProtocolError>((acc + d, None)));
    }
}

proof fn lemma_burst_scan(target: FPGAModule, addr: u32, d: Seq<u8>, acc: Seq<u8>, y: Seq<u8>)
    requires
        d.len() % 16 == 0,
    ensures
        scan_receive(acc, None, burst_stream(target, addr, d) + y) == scan_receive(acc + d, None, y),
    decreases d.len(),
{
    if d.len() < 16 {
        crate::writes::lemma_burst_empty(target, addr, d);
        assert(burst_stream(target, addr, d) + y =~= y);
        assert(acc + d =~= acc);
    } else {
        let g = group_flits(d.len() as int);
        let len = 16 * g;
        crate::writes::lemma_group_len(d.len() as int);
        crate::writes::lemma_burst_step(target, addr, d);
        let h = group_header(target, addr, g);
        let grp = d.take(len);
        let rest = d.skip(len);
        let next = wrap_add(addr, len);
        let z = flit_stream(grp) + (burst_stream(target, next, rest) + y);
        assert(burst_stream(target, addr, d) + y =~= h + z);
        lemma_header_fields(target, true, 0xFFu8, addr, crate::writes::le32(g as u32) + crate::writes::le32(0), Mode::WritePosted);
        assert((h + z).take(18) =~= h);
        assert((h + z).skip(18) =~= z);
        reveal(receive_packet);
        assert(receive_packet(acc, None, h + z)
            == Ok::<(Seq<u8>, BurstState), crate::packet::ProtocolError>((acc, Some((0xFFu8, true)))));
        assert(grp.len() == len);
        assert(len % 16 == 0) by (nonlinear_arith)
            requires len == 16 * g;
        lemma_flit_scan(acc, true, grp, burst_stream(target, next, rest) + y);
        assert(rest.len() % 16 == 0);
        lemma_burst_scan(target, next, rest, acc + grp, y);
        assert(acc + grp + rest =~= acc + d);
    }
}

/// Burst law: `write_burst` sends burst flits only for the first
/// `burst_prefix_len(addr, n)` bytes, the longest whole number of 16-byte
/// flits, and none unless `addr` is 16-byte aligned; the rest goes by
/// posted writes. The two streams together, decoded as incoming traffic
/// from a fresh decoder, yield `data` and leave no burst open.
pub proof fn lemma_burst_round_trip(target: FPGAModule, addr: u32, data: Seq<u8>)
    ensures
        ({
            let m = burst_prefix_len(addr, data.len() as int);
            &&& 0 <= m <= data.len()
            &&& m % 16 == 0
            &&& addr % 16 == 0 ==> data.len() - m < 16
            &&& addr % 16 != 0 ==> m == 0
            &&& scan_receive(
                Seq::empty(),
                None,
                burst_stream(target, addr, data.take(m)) + noburst_stream(target, wrap_add(addr, m), data.skip(m)),
            ) == Ok::<(Seq<u8>, BurstState), crate::packet::ProtocolError>((data, None))
        }),
{
    let n = data.len() as int;
    let m = burst_prefix_len(addr, n);
    assert(m % 16 == 0 && 0 <= m <= n) by (nonlinear_arith)
        requires m == 0 || m == n - n % 16, n >= 0;
    let tail = noburst_stream(target, wrap_add(addr, m), data.skip(m));
    lemma_burst_scan(target, addr, data.take(m), Seq::empty(), tail);
    lemma_noburst_round_trip(target, wrap_add(addr, m), data.skip(m));
    lemma_noburst_scan(target, wrap_add(addr, m), data.skip(m), data.take(m), Seq::empty());
    assert(tail + Seq::<u8>::empty() =~= tail);
    assert(Seq::<u8>::empty() + data.take(m) =~= data.take(m));
    assert(data.take(m) + data.skip(m) =~= data);
    assert(scan_receive(data, None, Seq::<u8>::empty()) == Ok::<(Seq<u8>, BurstState), crate::packet::ProtocolError>((data, None)));
}

/// Stale responses are ignored: a read response whose identifier is not
/// the one expected (a late answer to an earlier, retried request), met
/// with no burst in progress, changes nothing. Scanning it and then `rest`
/// gives what scanning `rest` alone gives, so the bytes collected keep
/// their length and content.
pub proof fn lemma_stale_response_ignored(s: ScanState, p: Seq<u8>, rest: Seq<u8>)
    requires
        s.burst is None,
        p.len() == 18,
        decode_spec(p, None) matches Ok((PacketView::Normal { mode, addr, .. }, _))
            && mode == Mode::ReadResp && addr != s.expected,
    ensures
        scan_read(s, p + rest) == scan_read(s, rest),
{
    assert((p + rest).take(18) =~= p);
    assert((p + rest).skip(18) =~= rest);
    reveal(scan_packet);
}

/// Unsolicited traffic is kept: when the scan of a datagram for read
/// responses meets a posted write or a message, with no burst in progress,
/// it stops there and queues the datagram from that packet on, byte for
/// byte, behind what was already pending; the read's own state, burst
/// state included, is left as it was.
pub proof fn lemma_unsolicited_kept(s: ScanState, d: Seq<u8>)
    requires
        s.burst is None,
        d.len() >= 18,
        decode_spec(d.take(18), None) matches Ok((PacketView::Normal { mode, .. }, _)) && is_unsolicited(mode),
    ensures
        scan_read(s, d) == Ok::<ScanState, crate::packet::ProtocolError>(ScanState { pending: s.pending.push(d), ..s }),
{
    reveal(scan_packet);
}

/// Self-test, success: the loopback packet that `start_self_test` sends is
/// a single posted write of the test pattern, carried byte-reversed on the
/// wire; when it comes back, with no burst in progress, the self-test passes.
pub proof fn lemma_self_test_loopback(seen: nat)
    requires
        seen < MAX_SELF_TEST_RETRIES,
    ensures
        ({
            let pk = noburst_packets(eth_mod(), SELF_TEST_ADDR, self_test_pattern());
            &&& pk.len() == 1
            &&& pk[0].subrange(10, 18) == self_test_pattern().reverse()
            &&& self_test_step(seen, None, pk[0]) == SelfTestStep::Passed
        }),
{
    let pat = self_test_pattern();
    let ch = noburst_chunks(SELF_TEST_ADDR, pat);
    assert(crate::writes::chunk_len(SELF_TEST_ADDR, 8) == 8);
    assert(pat.take(8) =~= pat);
    assert(pat.skip(8).len() == 0);
    assert(noburst_chunks(wrap_add(SELF_TEST_ADDR, 8), pat.skip(8)) =~= Seq::<(u32, Seq<u8>)>::empty());
    assert(ch =~= seq![(SELF_TEST_ADDR, pat)]);
    let pk = noburst_packets(eth_mod(), SELF_TEST_ADDR, pat);
    assert(pk[0] == chunk_packet(eth_mod(), (SELF_TEST_ADDR, pat)));
    lemma_chunk_decode(eth_mod(), SELF_TEST_ADDR, pat);
    assert(pk[0].take(18) =~= pk[0]);
    assert(pad8(pat) =~= pat);
    assert(pk[0].subrange(10, 18) =~= pat.reverse());
}

/// Self-test, failure: a self-test that has seen `seen` unrelated
/// datagrams and then receives only unrelated ones ends in a timeout once
/// the retry budget is spent.
pub proof fn lemma_self_test_timeout(seen: nat, b: BurstState, ds: Seq<Seq<u8>>)
    requires
        seen < MAX_SELF_TEST_RETRIES,
        seen + ds.len() >= MAX_SELF_TEST_RETRIES,
        forall|i: int| 0 <= i < ds.len() ==> self_test_verdict(b, #[trigger] ds[i]) == SelfTestStep::Waiting,
    ensures
        self_test_run(seen, b, ds) == Some(SelfTestStep::TimedOut),
    decreases ds.len(),
{
    assert(self_test_verdict(b, ds[0]) == SelfTestStep::Waiting);
    if seen + 1 < MAX_SELF_TEST_RETRIES {
        assert forall|i: int| 0 <= i < ds.drop_first().len() implies
            self_test_verdict(b, #[trigger] ds.drop_first()[i]) == SelfTestStep::Waiting by {
            assert(ds.drop_first()[i] == ds[i + 1]);
        }
        lemma_self_test_timeout(seen + 1, b, ds.drop_first());
    }
}

/// The responses in which the fabric returns `data` for the read request
/// with identifier `id`, addressed to `dest`: read responses of up to eight
/// bytes each, whose identifiers count on from `id` by the bytes before
/// them. The decoder hands on no more of a response's source than the
/// encoder writes, so the source field is left as the encoder writes it.
pub open spec fn response_stream(dest: FPGAModule, id: u32, data: Seq<u8>) -> Seq<u8>
    decreases data.len(),
{
    if data.len() == 0 {
        Seq::empty()
    } else {
        let k = if data.len() < 8 { data.len() as int } else { 8 };
        packet_spec(dest, false, low_mask(k), id, pad8(data.take(k)), Mode::ReadResp)
            + response_stream(dest, wrap_add(id, k), data.skip(k))
    }
}

/// Read responses are collected in order: with no burst in progress, the
/// responses that return `data` for the identifier the read expects add
/// exactly `data` to the bytes collected and advance the expected
/// identifier past it.
pub proof fn lemma_responses_collected(s: ScanState, dest: FPGAModule, data: Seq<u8>)
    requires
        s.burst is None,
    ensures
        scan_read(s, response_stream(dest, s.expected, data)) == Ok::<ScanState, crate::packet::ProtocolError>(ScanState {
            expected: wrap_add(s.expected, data.len() as int),
            data: s.data + data,
            ..s
        }),
    decreases data.len(),
{
    if data.len() == 0 {
        assert(s.data + data =~= s.data);
        assert(wrap_add(s.expected, 0) == s.expected) by {
            vstd::arithmetic::div_mod::lemma_small_mod(s.expected as nat, 0x1_0000_0000);
        }
    } else {
        let k = if data.len() < 8 { data.len() as int } else { 8 };
        let c = data.take(k);
        let p = packet_spec(dest, false, low_mask(k), s.expected, pad8(c), Mode::ReadResp);
        let next_id = wrap_add(s.expected, k);
        let rest = response_stream(dest, next_id, data.skip(k));
        lemma_masked_decode(dest, s.expected, c, Mode::ReadResp);
        lemma_header_fields(dest, false, low_mask(k), s.expected, pad8(c), Mode::ReadResp);
        assert((p + rest).take(18) =~= p);
        assert((p + rest).skip(18) =~= rest);
        assert(p.take(18) =~= p);
        reveal(scan_packet);
        let t = ScanState { expected: next_id, data: s.data + c, ..s };
        assert(scan_packet(s, p + rest) == ScanStep::Next(t));
        lemma_responses_collected(t, dest, data.skip(k));
        crate::writes::lemma_wrap_add_twice(s.expected, k, data.len() - k);
        assert(s.data + c + data.skip(k) =~= s.data + data);
    }
}

/// Unsolicited traffic is kept wherever it stands in a datagram: when the
/// packets before it (`pre`) are all taken by the read without ending the
/// scan, and it is met with no burst in progress, the rest of the datagram
/// from that packet on is queued byte for byte behind what was pending.
/// The read keeps what `pre` gave it and nothing of the kept bytes, and the
/// burst state is the one from before that packet.
pub proof fn lemma_unsolicited_kept_anywhere(s: ScanState, pre: Seq<u8>, d: Seq<u8>)
    requires
        pre.len() % 18 == 0,
        scan_through(s, pre) matches Some(t) && t.burst is None,
        d.len() >= 18,
        decode_spec(d.take(18), None) matches Ok((PacketView::Normal { mode, .. }, _)) && is_unsolicited(mode),
    ensures
        ({
            let t = scan_through(s, pre)->Some_0;
            &&& t.pending == s.pending
            &&& scan_read(s, pre + d) == Ok::<ScanState, crate::packet::ProtocolError>(
                ScanState { pending: s.pending.push(d), ..t },
            )
        }),
    decreases pre.len(),
{
    if pre.len() < 18 {
        assert(pre.len() == 0);
        assert(pre + d =~= d);
        lemma_unsolicited_kept(s, d);
    } else {
        let x = pre + d;
        assert(x.take(18) =~= pre.take(18));
        assert(x.skip(18) =~= pre.skip(18) + d);
        reveal(scan_packet);
        let t1 = match scan_packet(s, pre) {
            ScanStep::Next(t1) => t1,
            ScanStep::Stop(_) => s,
        };
        assert(scan_packet(s, pre) == ScanStep::Next(t1));
        assert(scan_packet(s, x) == ScanStep::Next(t1));
        assert(t1.pending == s.pending);
        lemma_unsolicited_kept_anywhere(t1, pre.skip(18), d);
    }
}

/// Unsolicited traffic comes back through `receive`: a run of posted
/// writes of `data` (a print, say) met by a read with no burst in progress
/// is kept whole, and decoding the kept bytes as `receive` does yields
/// exactly `data`, leaving no burst open.
pub proof fn lemma_kept_traffic_received(s: ScanState, target: FPGAModule, addr: u32, data: Seq<u8>)
    requires
        s.burst is None,
        data.len() > 0,
    ensures
        scan_read(s, noburst_stream(target, addr, data)) == Ok::<ScanState, crate::packet::ProtocolError>(
            ScanState { pending: s.pending.push(noburst_stream(target, addr, data)), ..s },
        ),
        scan_receive(Seq::empty(), None, noburst_stream(target, addr, data))
            == Ok::<(Seq<u8>, BurstState), crate::packet::ProtocolError>((data, None)),
{
    let d = noburst_stream(target, addr, data);
    crate::writes::lemma_noburst_step(target, addr, data);
    let k = crate::writes::chunk_len(addr, data.len() as int);
    let c = data.take(k);
    lemma_chunk_decode(target, addr, c);
    let pkt = chunk_packet(target, (addr, c));
    assert(d.take(18) =~= pkt.take(18));
    assert(pkt.take(18) =~= pkt);
    lemma_unsolicited_kept(s, d);
    lemma_noburst_round_trip(target, addr, data);
}

proof fn lemma_flit_stream_len(d: Seq<u8>)
    requires
        d.len() % 16 == 0,
    ensures
        flit_stream(d).len() == 18 * (d.len() / 16),
    decreases d.len(),
{
    if d.len() >= 16 {
        lemma_flit_stream_len(d.skip(16));
        assert((d.len() - 16) / 16 + 1 == d.len() / 16) by (nonlinear_arith)
            requires d.len() >= 16, d.len() % 16 == 0;
    }
}

/// Number of burst groups that `n` flits take: `ceil(n / MAX_BURST_FLITS)`.
pub open spec fn group_count(n: int) -> int {
    (n + 2046) / 2047
}

/// Counting the packets of a burst write: `n` flits go as exactly `n` flit
/// packets plus one header per group, `ceil(n / MAX_BURST_FLITS)` of them.
/// Each group starts with its header and holds the number of flits the
/// header announces.
pub proof fn lemma_burst_packet_count(target: FPGAModule, addr: u32, d: Seq<u8>)
    requires
        d.len() % 16 == 0,
    ensures
        burst_stream(target, addr, d).len() == 18 * (d.len() / 16 + group_count((d.len() / 16) as int)),
        d.len() >= 16 ==> ({
            let g = group_flits(d.len() as int);
            &&& burst_stream(target, addr, d).take(18) == group_header(target, addr, g)
            &&& flit_stream(d.take(16 * g)).len() == 18 * g
        }),
    decreases d.len(),
{
    let n: int = (d.len() / 16) as int;
    if d.len() < 16 {
        crate::writes::lemma_burst_empty(target, addr, d);
        assert(n == 0);
    } else {
        let g = group_flits(d.len() as int);
        crate::writes::lemma_group_len(d.len() as int);
        crate::writes::lemma_burst_step(target, addr, d);
        let rest = d.skip(16 * g);
        lemma_burst_packet_count(target, wrap_add(addr, 16 * g), rest);
        lemma_flit_stream_len(d.take(16 * g));
        assert(d.take(16 * g).len() / 16 == g) by (nonlinear_arith)
            requires d.take(16 * g).len() == 16 * g;
        let h = group_header(target, addr, g);
        lemma_header_fields(target, true, 0xFFu8, addr, crate::writes::le32(g as u32) + crate::writes::le32(0), Mode::WritePosted);
        assert(burst_stream(target, addr, d).take(18) =~= h);
        let m: int = (rest.len() / 16) as int;
        assert(m == n - g) by (nonlinear_arith)
            requires
                rest.len() == d.len() - 16 * g,
                d.len() % 16 == 0,
                n == d.len() / 16,
                m == rest.len() / 16,
                g >= 1;
        assert(group_count(n) == 1 + group_count(m)) by (nonlinear_arith)
            requires
                m == n - g,
                n >= 1,
                g == if n < 2047 { n } else { 2047 },
                group_count(n) == (n + 2046) / 2047,
                group_count(m) == (m + 2046) / 2047;
    }
}

/// How far address `i` lies past address `a` in the wrapping 32-bit space.
pub open spec fn offset(i: u32, a: u32) -> int {
    if i >= a { i - a } else { i + 0x1_0000_0000 - a }
}

/// A fabric memory after `d` is stored from address `a` on.
pub open spec fn store(mem: spec_fn(u32) -> u8, a: u32, d: Seq<u8>) -> spec_fn(u32) -> u8 {
    |i: u32| if offset(i, a) < d.len() { d[offset(i, a)] } else { mem(i) }
}

/// The `n` bytes of a fabric memory from address `a` on.
pub open spec fn load(mem: spec_fn(u32) -> u8, a: u32, n: nat) -> Seq<u8> {
    Seq::new(n, |j: int| mem(wrap_add(a, j)))
}

/// A fabric memory after it takes the posted writes among the packets of
/// `b`, each storing its payload from its own address on.
pub open spec fn apply_posted(mem: spec_fn(u32) -> u8, b: Seq<u8>) -> spec_fn(u32) -> u8
    decreases b.len(),
{
    if b.len() < 18 {
        mem
    } else {
        match decode_spec(b.take(18), None) {
            Ok((PacketView::Normal { mode, addr, data, .. }, _)) => if mode == Mode::WritePosted {
                apply_posted(store(mem, addr, data), b.skip(18))
            } else {
                apply_posted(mem, b.skip(18))
            },
            _ => apply_posted(mem, b.skip(18)),
        }
    }
}

proof fn lemma_wrap_add_cases(a: u32, k: int)
    requires
        0 <= k < 0x1_0000_0000,
    ensures
        wrap_add(a, k) == if a + k < 0x1_0000_0000 { a + k } else { a + k - 0x1_0000_0000 },
{
    if a + k < 0x1_0000_0000 {
        vstd::arithmetic::div_mod::lemma_small_mod((a + k) as nat, 0x1_0000_0000);
    } else {
        vstd::arithmetic::div_mod::lemma_mod_add_multiples_vanish(a + k - 0x1_0000_0000, 0x1_0000_0000);
        vstd::arithmetic::div_mod::lemma_small_mod((a + k - 0x1_0000_0000) as nat, 0x1_0000_0000);
    }
}

proof fn lemma_store_split(mem: spec_fn(u32) -> u8, a: u32, c: Seq<u8>, r: Seq<u8>)
    requires
        c.len() + r.len() <= 0x1_0000_0000,
        c.len() < 0x1_0000_0000,
    ensures
        store(store(mem, a, c), wrap_add(a, c.len() as int), r) == store(mem, a, c + r),
{
    let k = c.len() as int;
    lemma_wrap_add_cases(a, k);
    let a2 = wrap_add(a, k);
    assert forall|i: u32| #[trigger] store(store(mem, a, c), a2, r)(i) == store(mem, a, c + r)(i) by {
        let j = offset(i, a);
        assert(offset(i, a2) == if j >= k { j - k } else { j - k + 0x1_0000_0000 });
        if j < k {
            assert((c + r)[j] == c[j]);
        } else if j < k + r.len() {
            assert((c + r)[j] == r[j - k]);
        }
    }
    assert(store(store(mem, a, c), a2, r) =~= store(mem, a, c + r));
}

proof fn lemma_apply_noburst(mem: spec_fn(u32) -> u8, target: FPGAModule, addr: u32, data: Seq<u8>)
    requires
        data.len() <= 0x1_0000_0000,
    ensures
        apply_posted(mem, noburst_stream(target, addr, data)) == store(mem, addr, data),
    decreases data.len(),
{
    if data.len() == 0 {
        assert(noburst_chunks(addr, data) =~= Seq::<(u32, Seq<u8>)>::empty());
        assert(noburst_packets(target, addr, data) =~= Seq::<Seq<u8>>::empty());
        assert(store(mem, addr, data) =~= mem);
    } else {
        crate::writes::lemma_noburst_step(target, addr, data);
        let k = crate::writes::chunk_len(addr, data.len() as int);
        let c = data.take(k);
        let pkt = chunk_packet(target, (addr, c));
        let next = wrap_add(addr, k);
        let z = noburst_stream(target, next, data.skip(k));
        lemma_chunk_decode(target, addr, c);
        assert(noburst_stream(target, addr, data) == pkt + z);
        assert((pkt + z).take(18) =~= pkt);
        assert((pkt + z).skip(18) =~= z);
        assert(pkt.take(18) =~= pkt);
        lemma_apply_noburst(store(mem, addr, c), target, next, data.skip(k));
        lemma_store_split(mem, addr, c, data.skip(k));
        assert(c + data.skip(k) =~= data);
    }
}

/// Round trip through the fabric: a fabric memory that takes the posted
/// writes `write_noburst` sends for `data` at `addr` holds `data` from
/// `addr` on; when the fabric answers a read of that window with what it
/// holds, the read collects exactly `data`, unchanged and in order.
pub proof fn lemma_write_read_round_trip(
    mem: spec_fn(u32) -> u8,
    target: FPGAModule,
    addr: u32,
    data: Seq<u8>,
    s: ScanState,
    dest: FPGAModule,
)
    requires
        data.len() <= 0x1_0000_0000,
        s.burst is None,
    ensures
        ({
            let m2 = apply_posted(mem, noburst_stream(target, addr, data));
            &&& load(m2, addr, data.len()) == data
            &&& scan_read(s, response_stream(dest, s.expected, load(m2, addr, data.len())))
                == Ok::<ScanState, crate::packet::ProtocolError>(ScanState {
                    expected: wrap_add(s.expected, data.len() as int),
                    data: s.data + data,
                    ..s
                })
        }),
{
    lemma_apply_noburst(mem, target, addr, data);
    let m2 = store(mem, addr, data);
    assert forall|j: int| 0 <= j < data.len() implies #[trigger] load(m2, addr, data.len())[j] == data[j] by {
        lemma_wrap_add_cases(addr, j);
        assert(offset(wrap_add(addr, j), addr) == j);
    }
    assert(load(m2, addr, data.len()) =~= data);
    lemma_responses_collected(s, dest, data);
}

} // verus!
