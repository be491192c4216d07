//! The loopback self-test run when a connection is made.
use vstd::prelude::*;

use crate::comm::{queued, sent_after, Communicator};
use crate::module::{eth_mod, eth_module};
use crate::packet::{decode_packet, decode_spec, BurstState, Mode, NocPacket, PacketView, ProtocolError};
use crate::writes::noburst_stream;

verus! {

/// The address that the loopback test writes to; nothing else uses it.
pub const SELF_TEST_ADDR: u32 = 0xDEAD_BEE0;

/// How many unrelated datagrams the self-test tolerates before it gives up.
pub const MAX_SELF_TEST_RETRIES: usize = 100;

/// The eight bytes that the loopback test sends.
pub open spec fn self_test_pattern() -> Seq<u8> {
    seq![0x12u8, 0x34u8, 0x56u8, 0x78u8, 0x9Au8, 0xBCu8, 0xDEu8, 0xFFu8]
}

pub fn test_pattern() -> (r: [u8; 8])
    ensures
        r@ == self_test_pattern(),
{
    let r = [0x12u8, 0x34u8, 0x56u8, 0x78u8, 0x9Au8, 0xBCu8, 0xDEu8, 0xFFu8];
    assert(r@ =~= self_test_pattern());
    r
}

/// What a datagram means to the self-test.
#[derive(Clone, Copy, PartialEq, Eq, Structural, Debug)]
pub enum SelfTestStep {
    /// The loopback packet came back intact.
    Passed,
    /// An unrelated datagram; keep waiting.
    Waiting,
    /// Too many unrelated datagrams: the link does not answer.
    TimedOut,
    /// A packet that cannot be decoded.
    Corrupt(ProtocolError),
}

/// How the self-test judges datagram `d` under burst state `b`, before
/// counting: only its first packet is looked at, and only the loopback
/// packet itself (a posted write of the test pattern from the Ethernet
/// bridge to the test address, with no burst) is related. Anything else
/// that decodes is discarded.
pub open spec fn self_test_verdict(b: BurstState, d: Seq<u8>) -> SelfTestStep {
    if d.len() < 18 {
        SelfTestStep::Waiting
    } else {
        match decode_spec(d.take(18), b) {
            Err(e) => SelfTestStep::Corrupt(e),
            Ok((PacketView::Normal { src, mode, addr, data }, next)) => {
                if addr == SELF_TEST_ADDR && mode == Mode::WritePosted && next is None
                    && src == eth_mod() && data == self_test_pattern() {
                    SelfTestStep::Passed
                } else {
                    SelfTestStep::Waiting
                }
            },
            Ok((PacketView::Burst { .. }, _)) => SelfTestStep::Waiting,
        }
    }
}

/// The burst state after the self-test looked at `d`: an unrelated
/// datagram leaves it as it was.
pub open spec fn self_test_burst(b: BurstState, d: Seq<u8>) -> BurstState {
    match decode_spec(d.take(18), b) {
        Ok((_, next)) => if self_test_verdict(b, d) == SelfTestStep::Waiting { b } else { next },
        Err(_) => b,
    }
}

/// The outcome after `seen` unrelated datagrams and then `d`.
pub open spec fn self_test_step(seen: nat, b: BurstState, d: Seq<u8>) -> SelfTestStep {
    let v = self_test_verdict(b, d);
    if v == SelfTestStep::Waiting && seen + 1 >= MAX_SELF_TEST_RETRIES {
        SelfTestStep::TimedOut
    } else {
        v
    }
}

/// The outcome of a self-test that has seen `seen` unrelated datagrams
/// and then receives `ds`, under burst state `b`: the first step that is not
/// `Waiting`, or `None` while every datagram is unrelated. An unrelated
/// datagram leaves the burst state as it was.
pub open spec fn self_test_run(seen: nat, b: BurstState, ds: Seq<Seq<u8>>) -> Option<SelfTestStep>
    decreases ds.len(),
{
    if ds.len() == 0 {
        None
    } else {
        let r = self_test_step(seen, b, ds[0]);
        if r == SelfTestStep::Waiting {
            self_test_run(seen + 1, b, ds.drop_first())
        } else {
            Some(r)
        }
    }
}

/// Progress of a self-test: how many unrelated datagrams it has seen.
pub struct SelfTest {
    pub seen: usize,
}

impl SelfTest {
    pub fn new() -> (r: Self)
        ensures
            r.seen == 0,
    {
        SelfTest { seen: 0 }
    }
}

impl Communicator {
    /// Sends the loopback packet: the test pattern, written to the test
    /// address of the Ethernet bridge itself.
    pub fn start_self_test(&mut self) -> (n: usize)
        requires
            old(self).wf(),
        ensures
            final(self).wf(),
            n == 8,
            queued(final(self)@) == queued(old(self)@) + noburst_stream(eth_mod(), SELF_TEST_ADDR, self_test_pattern()),
            final(self)@.outgoing == sent_after(old(self)@, noburst_stream(eth_mod(), SELF_TEST_ADDR, self_test_pattern())),
            final(self)@.next_req_id == old(self)@.next_req_id,
            final(self)@.burst == old(self)@.burst,
            final(self)@.pending == old(self)@.pending,
    {
        let pattern = test_pattern();
        self.write_noburst(eth_module(), SELF_TEST_ADDR, &pattern)
    }

    /// Takes one datagram received while the self-test waits for its
    /// loopback packet.
    pub fn on_self_test_datagram(&mut self, test: &mut SelfTest, datagram: &[u8]) -> (r: SelfTestStep)
        requires
            old(self).wf(),
        ensures
            final(self).wf(),
            r == self_test_step(old(test).seen as nat, old(self)@.burst, datagram@),
            final(test).seen == if self_test_verdict(old(self)@.burst, datagram@) == SelfTestStep::Waiting
                && old(test).seen < MAX_SELF_TEST_RETRIES {
                old(test).seen + 1
            } else {
                old(test).seen as int
            },
            final(self)@.burst == if datagram@.len() < 18 {
                old(self)@.burst
            } else {
                self_test_burst(old(self)@.burst, datagram@)
            },
            final(self)@.next_req_id == old(self)@.next_req_id,
            final(self)@.pending == old(self)@.pending,
            queued(final(self)@) == queued(old(self)@),
    {
        let verdict = self.self_test_verdict(datagram);
        if verdict == SelfTestStep::Waiting {
            if test.seen < MAX_SELF_TEST_RETRIES {
                test.seen = test.seen + 1;
            }
            if test.seen >= MAX_SELF_TEST_RETRIES {
                return SelfTestStep::TimedOut;
            }
        }
        verdict
    }

    fn self_test_verdict(&mut self, datagram: &[u8]) -> (r: SelfTestStep)
        requires
            old(self).wf(),
        ensures
            final(self).wf(),
            r == self_test_verdict(old(self)@.burst, datagram@),
            final(self)@.burst == if datagram@.len() < 18 {
                old(self)@.burst
            } else {
                self_test_burst(old(self)@.burst, datagram@)
            },
            final(self)@.next_req_id == old(self)@.next_req_id,
            final(self)@.pending == old(self)@.pending,
            final(self)@.outgoing == old(self)@.outgoing,
            final(self)@.send_buf == old(self)@.send_buf,
    {
        if datagram.len() < 18 {
            return SelfTestStep::Waiting;
        }
        assert(datagram@.take(18) =~= datagram@.subrange(0, 18));
        let old_burst = self.burst;
        let pkt = decode_packet(datagram, 0, &mut self.burst);
        assert(self@.outgoing == old(self)@.outgoing);
        match pkt {
            Err(e) => SelfTestStep::Corrupt(e),
            Ok(NocPacket::Normal { src, mode, addr, data }) => {
                if addr != SELF_TEST_ADDR {
                    self.burst = old_burst;
                    assert(self@.outgoing == old(self)@.outgoing);
                    SelfTestStep::Waiting
                } else {
                    let pattern = test_pattern();
                    let mut same = data.len() == 8;
                    let mut i: usize = 0;
                    while same && i < 8
                        invariant
                            i <= 8,
                            pattern@ == self_test_pattern(),
                            same ==> data@.len() == 8,
                            same ==> data@.take(i as int) == pattern@.take(i as int),
                            !same ==> data@ != self_test_pattern(),
                        decreases 8 - i,
                    {
                        if data[i] != pattern[i] {
                            same = false;
                        } else {
                            assert(data@.take(i + 1) =~= data@.take(i as int).push(data@[i as int]));
                            assert(pattern@.take(i + 1) =~= pattern@.take(i as int).push(pattern@[i as int]));
                        }
                        i = i + 1;
                    }
                    if same {
                        assert(data@ =~= data@.take(8));
                        assert(pattern@ =~= pattern@.take(8));
                    }
                    if mode == Mode::WritePosted && self.burst.is_none() && src == eth_module() && same {
                        SelfTestStep::Passed
                    } else {
                        // at the test address, but not the loopback packet: discard it
                        self.burst = old_burst;
                        assert(self@.outgoing == old(self)@.outgoing);
                        SelfTestStep::Waiting
                    }
                }
            },
            Ok(NocPacket::Burst { .. }) => {
                self.burst = old_burst;
                assert(self@.outgoing == old(self)@.outgoing);
                SelfTestStep::Waiting
            },
        }
    }
}

} // verus!
