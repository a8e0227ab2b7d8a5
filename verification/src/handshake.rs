//! Handshake support: flow keys, our initial sequence numbers, the
//! handshake-frame retransmission schedule, and the RST that answers a SYN
//! the shim will not accept.

use vstd::prelude::*;
use crate::segment::SegmentHeader;
use crate::seqnum::{seq_add, wadd};
use crate::ethernet::{
    TcpFrameParams, tcp_frame_spec, build_tcp_rst_frame, read_be16, read_be32, TCP_RST, TCP_ACK,
    ETH_HEADER_LEN,
};

verus! {

/// Full four-tuple of a flow as the guest sends it.
#[derive(Clone, Copy, PartialEq, Eq, Hash, Debug)]
pub struct SynFlowKey {
    pub src_ip: [u8; 4],
    pub src_port: u16,
    pub dst_ip: [u8; 4],
    pub dst_port: u16,
}

impl SynFlowKey {
    /// The key of the flow a guest segment belongs to.
    pub fn from_header(h: &SegmentHeader) -> (k: Self)
        ensures
            k.src_ip == h.src_ip,
            k.src_port == h.src_port,
            k.dst_ip == h.dst_ip,
            k.dst_port == h.dst_port,
    {
        SynFlowKey { src_ip: h.src_ip, src_port: h.src_port, dst_ip: h.dst_ip, dst_port: h.dst_port }
    }
}

/// First initial sequence number handed out.
pub const ISN_INITIAL: u32 = 0x513C_A4E7;

/// Step between consecutive initial sequence numbers: a large odd
/// constant, so the sequence only repeats after 2^32 values.
pub const ISN_STEP: u32 = 0x9E37_79B9;

/// Source of our initial sequence numbers: a counter stepped by
/// [`ISN_STEP`]. Deterministic and predictable given one observed value;
/// the threat model (a co-resident guest that owns its own stack) does not
/// ask for more.
pub struct IsnSource {
    next: u32,
}

impl IsnSource {
    /// The value the next call of [`next_isn`] returns.
    pub closed spec fn next_value(&self) -> u32 {
        self.next
    }

    /// A fresh source starting at [`ISN_INITIAL`].
    pub fn new() -> (s: Self)
        ensures
            s.next_value() == ISN_INITIAL,
    {
        IsnSource { next: ISN_INITIAL }
    }
}

/// The `i`-th value handed out by a source that started at `start`.
pub open spec fn isn_at(start: u32, i: nat) -> u32 {
    seq_add(start, i * ISN_STEP)
}

/// Hands out the next initial sequence number.
pub fn next_isn(src: &mut IsnSource) -> (isn: u32)
    ensures
        isn == old(src).next_value(),
        final(src).next_value() == seq_add(old(src).next_value(), ISN_STEP as int),
{
    let isn = src.next;
    src.next = wadd(src.next, ISN_STEP);
    isn
}

proof fn lemma_step_multiple_nonzero(d: int)
    requires
        0 < d < 0x1_0000_0000,
    ensures
        (d * ISN_STEP) % 0x1_0000_0000 != 0,
{
    if (d * ISN_STEP) % 0x1_0000_0000 == 0 {
        let k = (d * ISN_STEP) / 0x1_0000_0000;
        assert(d * ISN_STEP == k * 0x1_0000_0000) by {
            vstd::arithmetic::div_mod::lemma_fundamental_div_mod(d * ISN_STEP, 0x1_0000_0000);
        }
        // ISN_STEP * 0x144C_BC89 == 1 + 210485888 * 2^32
        assert(d == (k * 0x144C_BC89 - d * 210485888) * 0x1_0000_0000) by (nonlinear_arith)
            requires
                d * 0x9E37_79B9 == k * 0x1_0000_0000,
        ;
        let q = k * 0x144C_BC89 - d * 210485888;
        assert(false) by (nonlinear_arith)
            requires
                d == q * 0x1_0000_0000,
                0 < d < 0x1_0000_0000,
        ;
    }
}

/// Within any 2^32 consecutive values an ISN source never repeats itself.
pub proof fn lemma_isn_distinct(start: u32, i: nat, j: nat)
    requires
        i < j < 0x1_0000_0000,
    ensures
        isn_at(start, i) != isn_at(start, j),
{
    let m: int = 0x1_0000_0000;
    let a = start + i * ISN_STEP;
    let b = start + j * ISN_STEP;
    if a % m == b % m {
        assert(b - a == (j - i) * ISN_STEP) by (nonlinear_arith)
            requires
                a == start + i * ISN_STEP,
                b == start + j * ISN_STEP,
        ;
        vstd::arithmetic::div_mod::lemma_sub_mod_noop(b, a, m);
        vstd::arithmetic::div_mod::lemma_mod_self_0(m);
        assert((b - a) % m == 0) by {
            vstd::arithmetic::div_mod::lemma_mod_sub_multiples_vanish(b % m - a % m, m);
            assert(b % m - a % m == 0);
        }
        lemma_step_multiple_nonzero(j - i);
    }
}

/// Consecutive calls of [`next_isn`] walk the sequence [`isn_at`].
pub proof fn lemma_next_isn_walk(start: u32, i: nat)
    ensures
        seq_add(isn_at(start, i), ISN_STEP as int) == isn_at(start, i + 1),
{
    let m: int = 0x1_0000_0000;
    let x = start + i * ISN_STEP;
    assert(start + (i + 1) * ISN_STEP == x + ISN_STEP) by (nonlinear_arith)
        requires
            x == start + i * ISN_STEP,
    ;
    vstd::arithmetic::div_mod::lemma_add_mod_noop(x, ISN_STEP as int, m);
    vstd::arithmetic::div_mod::lemma_mod_twice(x, m);
    vstd::arithmetic::div_mod::lemma_small_mod(ISN_STEP as nat, m as nat);
    vstd::arithmetic::div_mod::lemma_add_mod_noop(x % m, ISN_STEP as int, m);
}

/// Which side started the handshake.
#[derive(Clone, Copy, PartialEq, Eq, Debug)]
pub enum HandshakeRole {
    /// Guest sent SYN, we answered SYN-ACK, waiting for the guest's ACK
    /// (guest-initiated connections).
    PassiveOpen,
    /// We sent SYN, waiting for the guest's SYN-ACK (port forwards).
    ActiveOpen,
}

/// Handshake state the shim keeps until the three-way completes.
pub struct HandshakeConn {
    pub flow_key: SynFlowKey,
    pub role: HandshakeRole,
    /// Our ISN; after the handshake our send cursor is `our_isn + 1`.
    pub our_isn: u32,
    /// The guest's ISN.
    pub peer_isn: u32,
    /// Guest TCP options, mirrored or recorded.
    pub peer_wscale: Option<u8>,
    pub peer_sack: bool,
    pub peer_mss: u16,
    /// MAC addresses of frames toward the guest.
    pub gw_mac: [u8; 6],
    pub guest_mac: [u8; 6],
    /// Retransmissions of our handshake frame so far.
    pub retransmit_count: u8,
    /// When our handshake frame was last sent (nanoseconds).
    pub last_sent: Option<u64>,
    /// Our handshake frame, kept for retransmission.
    pub saved_frame: Option<Vec<u8>>,
    /// When the handshake started (nanoseconds).
    pub created: u64,
}

/// Retransmissions of a handshake frame before the handshake is aborted.
pub const HANDSHAKE_MAX_RETRANSMITS: u8 = 3;

/// Total lifetime of an unanswered handshake (7 s).
pub const HANDSHAKE_TOTAL_TTL: u64 = 7_000_000_000;

/// Delay before retransmission number `count` of a handshake frame:
/// 200 ms, 400 ms, then 800 ms for every later attempt.
pub open spec fn retransmit_delay_spec(count: u8) -> u64 {
    if count == 0 {
        200_000_000
    } else if count == 1 {
        400_000_000
    } else {
        800_000_000
    }
}

pub fn retransmit_delay(count: u8) -> (d: u64)
    ensures
        d == retransmit_delay_spec(count),
{
    if count == 0 {
        200_000_000
    } else if count == 1 {
        400_000_000
    } else {
        800_000_000
    }
}

/// The saved handshake frame is due for retransmission: it was sent, and
/// the delay for the current retransmission count has elapsed since.
pub fn should_retransmit(conn: &HandshakeConn, now: u64) -> (r: bool)
    ensures
        r == match conn.last_sent {
            None => false,
            Some(last) => now >= last && now - last >= retransmit_delay_spec(conn.retransmit_count),
        },
{
    match conn.last_sent {
        None => false,
        Some(last) => now.saturating_sub(last) >= retransmit_delay(conn.retransmit_count),
    }
}

/// A SYN frame long enough to answer: Ethernet + a 20-byte-or-longer IPv4
/// header + the fixed TCP header.
pub open spec fn syn_answerable(f: Seq<u8>) -> bool {
    let ihl = (f[14] & 0x0F) as int * 4;
    f.len() >= 54 && ihl >= 20 && 14 + ihl + 20 <= f.len()
}

pub open spec fn arr4(s: Seq<u8>) -> [u8; 4] {
    [s[0], s[1], s[2], s[3]]
}

pub open spec fn arr6(s: Seq<u8>) -> [u8; 6] {
    [s[0], s[1], s[2], s[3], s[4], s[5]]
}

/// Parameters of the RST|ACK answering SYN frame `f`: addresses and ports
/// swapped, sequence number 0, acknowledging the SYN, window 0, from the
/// gateway MAC to the SYN's source MAC.
pub open spec fn rst_reply_params(f: Seq<u8>, gateway_mac: [u8; 6]) -> TcpFrameParams {
    let l4 = 14 + (f[14] & 0x0F) as int * 4;
    TcpFrameParams {
        src_ip: arr4(f.subrange(30, 34)),
        dst_ip: arr4(f.subrange(26, 30)),
        src_port: read_be16(f, l4 + 2),
        dst_port: read_be16(f, l4),
        seq: 0,
        ack: seq_add(read_be32(f, l4 + 4), 1),
        window: 0,
        src_mac: gateway_mac,
        dst_mac: arr6(f.subrange(6, 12)),
    }
}

/// Builds the RST|ACK answering a SYN frame, `None` when the frame is too
/// short or its IPv4 header length is malformed.
pub fn build_rst_from_syn(syn_frame: &[u8], gateway_mac: [u8; 6]) -> (r: Option<Vec<u8>>)
    ensures
        r is Some <==> syn_answerable(syn_frame@),
        r matches Some(out) ==> out@ == tcp_frame_spec(
            rst_reply_params(syn_frame@, gateway_mac),
            TCP_RST | TCP_ACK,
            Seq::empty(),
            true,
        ),
{
    let f = syn_frame;
    if f.len() < ETH_HEADER_LEN + 40 {
        return None;
    }
    let b = f[ETH_HEADER_LEN];
    let low: u8 = b & 0x0F;
    proof {
        assert(b & 0x0F <= 15) by (bit_vector);
    }
    let ihl = (low as usize) * 4;
    let l4 = ETH_HEADER_LEN + ihl;
    if ihl < 20 || l4 + 20 > f.len() {
        return None;
    }
    let src_ip: [u8; 4] = [f[30], f[31], f[32], f[33]];
    let dst_ip: [u8; 4] = [f[26], f[27], f[28], f[29]];
    let dst_mac: [u8; 6] = [f[6], f[7], f[8], f[9], f[10], f[11]];
    let syn_src_port = (f[l4] as u16) * 256 + f[l4 + 1] as u16;
    let syn_dst_port = (f[l4 + 2] as u16) * 256 + f[l4 + 3] as u16;
    let syn_seq = (f[l4 + 4] as u32) * 0x100_0000 + (f[l4 + 5] as u32) * 0x1_0000 + (f[l4 + 6] as u32)
        * 256 + f[l4 + 7] as u32;
    let p = TcpFrameParams {
        src_ip,
        dst_ip,
        src_port: syn_dst_port,
        dst_port: syn_src_port,
        seq: 0,
        ack: wadd(syn_seq, 1),
        window: 0,
        src_mac: gateway_mac,
        dst_mac,
    };
    proof {
        assert(p == rst_reply_params(f@, gateway_mac));
    }
    Some(build_tcp_rst_frame(&p))
}

} // verus!
