//! The 18-byte wire packet: encoding of normal packets and burst flits,
//! and the stateful decoder.
use vstd::prelude::*;

use crate::module::{eth_mod, FPGAModule, ETH_CHIP_ID, ETH_MOD_ID};

verus! {

/// Every wire packet is exactly this many bytes long.
pub const NOC_PACKET_LEN: usize = 18;

/// Payload bytes carried by a normal packet.
pub const BYTES_PER_PACKET: usize = 8;

/// Payload bytes carried by one burst flit.
pub const BYTES_PER_BURST_PACKET: usize = 16;

/// The kind of a normal packet, carried in the low four bits of byte 5.
#[derive(Clone, Copy, PartialEq, Eq, Structural, Debug)]
pub enum Mode {
    ReadReq,
    ReadResp,
    WritePosted,
    Msg,
    MsgAck,
}

impl Mode {
    pub open spec fn code(self) -> u8 {
        match self {
            Mode::ReadReq => 0,
            Mode::ReadResp => 1,
            Mode::WritePosted => 2,
            Mode::Msg => 3,
            Mode::MsgAck => 4,
        }
    }

    pub fn to_u8(self) -> (r: u8)
        ensures
            r == self.code(),
    {
        match self {
            Mode::ReadReq => 0,
            Mode::ReadResp => 1,
            Mode::WritePosted => 2,
            Mode::Msg => 3,
            Mode::MsgAck => 4,
        }
    }

    pub fn from_u8(b: u8) -> (r: Option<Mode>)
        ensures
            r == mode_of(b),
    {
        if b == 0 {
            Some(Mode::ReadReq)
        } else if b == 1 {
            Some(Mode::ReadResp)
        } else if b == 2 {
            Some(Mode::WritePosted)
        } else if b == 3 {
            Some(Mode::Msg)
        } else if b == 4 {
            Some(Mode::MsgAck)
        } else {
            None
        }
    }
}

/// The mode that a four-bit code stands for, if any.
pub open spec fn mode_of(b: u8) -> Option<Mode> {
    if b == 0 {
        Some(Mode::ReadReq)
    } else if b == 1 {
        Some(Mode::ReadResp)
    } else if b == 2 {
        Some(Mode::WritePosted)
    } else if b == 3 {
        Some(Mode::Msg)
    } else if b == 4 {
        Some(Mode::MsgAck)
    } else {
        None
    }
}

/// The ten header bytes of a normal packet sent by the Ethernet bridge.
pub open spec fn header_spec(target: FPGAModule, burst: bool, bsel: u8, addr: u32, mode: Mode) -> Seq<u8> {
    seq![
        if burst { 1u8 } else { 0u8 },
        bsel,
        eth_mod().mod_id,
        (eth_mod().chip_id << 2u8) | (target.mod_id >> 6u8),
        (target.mod_id << 2u8) | (target.chip_id >> 6u8),
        (target.chip_id << 4u8) | mode.code(),
        (addr >> 24u32) as u8,
        (addr >> 16u32) as u8,
        (addr >> 8u32) as u8,
        addr as u8,
    ]
}

/// A normal packet: the header, then the first eight payload bytes in
/// reverse order.
pub open spec fn packet_spec(
    target: FPGAModule,
    burst: bool,
    bsel: u8,
    addr: u32,
    data: Seq<u8>,
    mode: Mode,
) -> Seq<u8> {
    header_spec(target, burst, bsel, addr, mode) + data.take(8).reverse()
}

/// A burst flit: the continuation flag, a full mask, then the first sixteen
/// payload bytes in reverse order.
pub open spec fn burst_packet_spec(not_last: bool, data: Seq<u8>) -> Seq<u8> {
    seq![if not_last { 1u8 } else { 0u8 }, 0xFFu8] + data.take(16).reverse()
}

pub fn encode_packet(
    target: FPGAModule,
    burst: bool,
    bsel: u8,
    addr: u32,
    bytes: &[u8],
    mode: Mode,
) -> (r: [u8; 18])
    requires
        bytes@.len() >= 8,
    ensures
        r@ == packet_spec(target, burst, bsel, addr, bytes@, mode),
{
    let mode_byte = mode.to_u8();
    let r = [
        // burst and bsel
        if burst { 1u8 } else { 0u8 },
        bsel,
        // source and target
        ETH_MOD_ID,
        (ETH_CHIP_ID << 2u8) | (target.mod_id >> 6u8),
        (target.mod_id << 2u8) | (target.chip_id >> 6u8),
        (target.chip_id << 4u8) | mode_byte,
        // target address
        (addr >> 24u32) as u8,
        (addr >> 16u32) as u8,
        (addr >> 8u32) as u8,
        addr as u8,
        // data
        bytes[7],
        bytes[6],
        bytes[5],
        bytes[4],
        bytes[3],
        bytes[2],
        bytes[1],
        bytes[0],
    ];
    assert(r@ =~= packet_spec(target, burst, bsel, addr, bytes@, mode));
    r
}

pub fn encode_packet_burst(not_last: bool, bytes: &[u8]) -> (r: [u8; 18])
    requires
        bytes@.len() >= 16,
    ensures
        r@ == burst_packet_spec(not_last, bytes@),
{
    let r = [
        // burst and bsel
        if not_last { 1u8 } else { 0u8 },
        0xFFu8,
        // data
        bytes[15],
        bytes[14],
        bytes[13],
        bytes[12],
        bytes[11],
        bytes[10],
        bytes[9],
        bytes[8],
        bytes[7],
        bytes[6],
        bytes[5],
        bytes[4],
        bytes[3],
        bytes[2],
        bytes[1],
        bytes[0],
    ];
    assert(r@ =~= burst_packet_spec(not_last, bytes@));
    r
}

/// Why a packet or a datagram could not be decoded. Each one means that the
/// link is corrupt or that the two ends speak different protocol revisions.
#[derive(Clone, Copy, PartialEq, Eq, Structural, Debug)]
pub enum ProtocolError {
    /// The four mode bits hold no known mode.
    UnknownMode(u8),
    /// A burst flit whose mask trims more than the flit holds.
    BadBurstWindow,
    /// A datagram whose length is not a multiple of the packet length.
    BadLength(usize),
    /// More response bytes than the read request asked for.
    ExcessData,
}

/// A decoded packet, with its payload in logical (un-reversed) order.
#[derive(Clone, Debug)]
pub enum NocPacket {
    Normal { src: FPGAModule, mode: Mode, addr: u32, data: Vec<u8> },
    Burst { data: Vec<u8> },
}

/// What a decoded packet holds, as values.
pub enum PacketView {
    Normal { src: FPGAModule, mode: Mode, addr: u32, data: Seq<u8> },
    Burst { data: Seq<u8> },
}

impl View for NocPacket {
    type V = PacketView;

    open spec fn view(&self) -> PacketView {
        match self {
            NocPacket::Normal { src, mode, addr, data } => PacketView::Normal {
                src: *src,
                mode: *mode,
                addr: *addr,
                data: data@,
            },
            NocPacket::Burst { data } => PacketView::Burst { data: data@ },
        }
    }
}

/// The state of a burst in progress: the group's byte-select mask, and
/// whether the next flit is the group's first.
pub type BurstState = Option<(u8, bool)>;

/// Number of leading (most significant) zero bits of a byte.
pub open spec fn lead_zeros(m: u8) -> int {
    if m >= 128 { 0 }
    else if m >= 64 { 1 }
    else if m >= 32 { 2 }
    else if m >= 16 { 3 }
    else if m >= 8 { 4 }
    else if m >= 4 { 5 }
    else if m >= 2 { 6 }
    else if m >= 1 { 7 }
    else { 8 }
}

/// Number of trailing (least significant) zero bits of a byte.
pub open spec fn trail_zeros(m: u8) -> int {
    if m == 0 { 8 }
    else if m % 2 == 1 { 0 }
    else if m % 4 == 2 { 1 }
    else if m % 8 == 4 { 2 }
    else if m % 16 == 8 { 3 }
    else if m % 32 == 16 { 4 }
    else if m % 64 == 32 { 5 }
    else if m % 128 == 64 { 6 }
    else { 7 }
}

/// The wire offsets, within the eight data bytes, of the bytes that a
/// byte-select mask marks valid: the zero runs at both ends are trimmed.
/// An empty mask selects nothing.
pub open spec fn select_window(m: u8) -> (int, int) {
    if m == 0 { (0, 0) } else { (lead_zeros(m), 8 - trail_zeros(m)) }
}

/// Bytes trimmed from the front of a burst flit that ends its group.
pub open spec fn burst_begin(mask: u8) -> int {
    15 - (mask >> 4u8) as int
}

/// Bytes trimmed from the back of the first flit of a group.
pub open spec fn burst_end(mask: u8) -> int {
    15 - (mask & 0xFu8) as int
}

/// The 32-bit big-endian address in bytes 6 to 9.
pub open spec fn addr_of(p: Seq<u8>) -> u32 {
    ((p[6] as u32) << 24u32) | ((p[7] as u32) << 16u32) | ((p[8] as u32) << 8u32) | (p[9] as u32)
}

/// Decoding one 18-byte packet `p` under burst state `b`: what it holds and
/// the burst state that follows, or why it cannot be read.
pub open spec fn decode_spec(p: Seq<u8>, b: BurstState) -> Result<(PacketView, BurstState), ProtocolError> {
    match b {
        Some((mask, first)) => {
            let begin = if p[0] == 0 { burst_begin(mask) } else { 0 };
            let end = if first { burst_end(mask) } else { 0 };
            if begin + end > 16 {
                Err(ProtocolError::BadBurstWindow)
            } else {
                let next = if p[0] == 0 { None } else { Some((mask, false)) };
                Ok((PacketView::Burst { data: p.subrange(2 + begin, 18 - end).reverse() }, next))
            }
        },
        None => match mode_of(p[5] & 0xFu8) {
            None => Err(ProtocolError::UnknownMode(p[5] & 0xFu8)),
            Some(mode) => {
                let w = select_window(p[1]);
                let next = if p[0] == 1 { Some((p[1], true)) } else { None };
                Ok((
                    PacketView::Normal {
                        src: FPGAModule { chip_id: p[3] >> 2u8, mod_id: p[2] },
                        mode,
                        addr: addr_of(p),
                        data: p.subrange(10 + w.0, 10 + w.1).reverse(),
                    },
                    next,
                ))
            },
        },
    }
}

fn lead_zeros_exec(m: u8) -> (r: usize)
    ensures
        r == lead_zeros(m),
{
    if m >= 128 { 0 }
    else if m >= 64 { 1 }
    else if m >= 32 { 2 }
    else if m >= 16 { 3 }
    else if m >= 8 { 4 }
    else if m >= 4 { 5 }
    else if m >= 2 { 6 }
    else if m >= 1 { 7 }
    else { 8 }
}

fn trail_zeros_exec(m: u8) -> (r: usize)
    ensures
        r == trail_zeros(m),
{
    if m == 0 { 8 }
    else if m % 2 == 1 { 0 }
    else if m % 4 == 2 { 1 }
    else if m % 8 == 4 { 2 }
    else if m % 16 == 8 { 3 }
    else if m % 32 == 16 { 4 }
    else if m % 64 == 32 { 5 }
    else if m % 128 == 64 { 6 }
    else { 7 }
}

proof fn lemma_window_bounds(m: u8)
    ensures
        0 <= select_window(m).0 <= select_window(m).1 <= 8,
{
    if m != 0 {
        assert(lead_zeros(m) + trail_zeros(m) <= 8);
    }
}

/// The bytes `bytes[lo..hi]` in reverse order.
fn reversed_range(bytes: &[u8], lo: usize, hi: usize) -> (r: Vec<u8>)
    requires
        lo <= hi <= bytes@.len(),
    ensures
        r@ == bytes@.subrange(lo as int, hi as int).reverse(),
        r@.len() == hi - lo,
{
    let mut r: Vec<u8> = Vec::new();
    let mut i: usize = hi;
    while i > lo
        invariant
            lo <= i <= hi <= bytes@.len(),
            r@ == bytes@.subrange(i as int, hi as int).reverse(),
            r@.len() == hi - i,
        decreases i,
    {
        i = i - 1;
        r.push(bytes[i]);
        assert(r@ =~= bytes@.subrange(i as int, hi as int).reverse());
    }
    r
}

/// Decodes the packet at `bytes[pos..pos + 18]`, updating the burst state.
/// On an error the burst state is left as it was.
pub fn decode_packet(bytes: &[u8], pos: usize, burst: &mut BurstState) -> (r: Result<NocPacket, ProtocolError>)
    requires
        pos + NOC_PACKET_LEN <= bytes@.len(),
    ensures
        match decode_spec(bytes@.subrange(pos as int, pos + 18), *old(burst)) {
            Ok((v, next)) => r matches Ok(p) && p@ == v && *final(burst) == next,
            Err(e) => r == Err::<NocPacket, ProtocolError>(e) && *final(burst) == *old(burst),
        },
        match r {
            Ok(NocPacket::Normal { data, .. }) => data@.len() <= 8,
            Ok(NocPacket::Burst { data }) => data@.len() <= 16,
            Err(_) => true,
        },
{
    let ghost p = bytes@.subrange(pos as int, pos + 18);
    assert(forall|i: int| 0 <= i < 18 ==> p[i] == bytes@[pos + i]);
    let b0 = bytes[pos];
    match *burst {
        Some((mask, first)) => {
            assert(mask >> 4u8 <= 15u8) by (bit_vector);
            assert(mask & 0xFu8 <= 15u8) by (bit_vector);
            let begin: usize = if b0 == 0 { (15 - (mask >> 4u8)) as usize } else { 0 };
            let end: usize = if first { (15 - (mask & 0xFu8)) as usize } else { 0 };
            if begin + end > 16 {
                return Err(ProtocolError::BadBurstWindow);
            }
            let data = reversed_range(bytes, pos + 2 + begin, pos + 18 - end);
            assert(data@ =~= p.subrange(2 + begin, 18 - end).reverse());
            *burst = if b0 == 0 { None } else { Some((mask, false)) };
            Ok(NocPacket::Burst { data })
        },
        None => {
            let code = bytes[pos + 5] & 0xFu8;
            let mode = match Mode::from_u8(code) {
                Some(m) => m,
                None => { return Err(ProtocolError::UnknownMode(code)); },
            };
            let bsel = bytes[pos + 1];
            let src = FPGAModule::new(bytes[pos + 3] >> 2u8, bytes[pos + 2]);
            let addr = ((bytes[pos + 6] as u32) << 24u32) | ((bytes[pos + 7] as u32) << 16u32)
                | ((bytes[pos + 8] as u32) << 8u32) | (bytes[pos + 9] as u32);
            proof { lemma_window_bounds(bsel); }
            let (lo, hi): (usize, usize) = if bsel == 0 {
                (0, 0)
            } else {
                (lead_zeros_exec(bsel), 8 - trail_zeros_exec(bsel))
            };
            let data = reversed_range(bytes, pos + 10 + lo, pos + 10 + hi);
            assert(data@ =~= p.subrange(10 + lo, 10 + hi).reverse());
            if b0 == 1 {
                *burst = Some((bsel, true));
            }
            Ok(NocPacket::Normal { src, mode, addr, data })
        },
    }
}

/// The bytes `data[lo..hi]`.
pub(crate) fn copy_range(data: &[u8], lo: usize, hi: usize) -> (r: Vec<u8>)
    requires
        lo <= hi <= data@.len(),
    ensures
        r@ == data@.subrange(lo as int, hi as int),
{
    let mut r: Vec<u8> = Vec::with_capacity(hi - lo);
    let mut i: usize = lo;
    while i < hi
        invariant
            lo <= i <= hi <= data@.len(),
            r@ == data@.subrange(lo as int, i as int),
        decreases hi - i,
    {
        r.push(data[i]);
        i = i + 1;
        assert(r@ =~= data@.subrange(lo as int, i as int));
    }
    r
}

} // verus!
