//! Ethernet II / IPv4 / TCP frame layout and the builders for the frames the
//! shim sends toward the guest.
//!
//! Every frame is `Ethernet (14) + IPv4 (20, no options) + TCP (20, no
//! options) + payload`; IPv4 carries DF, TTL 64 and a valid header checksum.

use vstd::prelude::*;
use crate::checksum::{
    ipv4_checksum_spec, ipv4_header_checksum, pseudo_checksum_spec, tcp_checksum, tcp_checksum_spec,
    tcp_pseudo_header_checksum, word_sum, ones_fold, pseudo_sum, ipv4_checksum_input,
    lemma_word_sum_replace, lemma_checksum_complements,
};

verus! {

/// Length of an Ethernet II header.
pub const ETH_HEADER_LEN: usize = 14;

/// Length of the Ethernet + IPv4 + TCP headers of every frame built here.
pub const FRAME_HEADERS_LEN: usize = 54;

/// TCP flag bits.
pub const TCP_FIN: u8 = 0x01;
pub const TCP_SYN: u8 = 0x02;
pub const TCP_RST: u8 = 0x04;
pub const TCP_PSH: u8 = 0x08;
pub const TCP_ACK: u8 = 0x10;

/// Addressing and sequence fields of a guest-bound TCP frame.
#[derive(Clone, Copy)]
pub struct TcpFrameParams {
    pub src_ip: [u8; 4],
    pub dst_ip: [u8; 4],
    pub src_port: u16,
    pub dst_port: u16,
    pub seq: u32,
    pub ack: u32,
    pub window: u16,
    pub src_mac: [u8; 6],
    pub dst_mac: [u8; 6],
}

/// Big-endian bytes of a 16-bit value.
pub open spec fn be16_seq(x: u16) -> Seq<u8> {
    seq![(x / 256) as u8, (x % 256) as u8]
}

/// Big-endian bytes of a 32-bit value.
pub open spec fn be32_seq(x: u32) -> Seq<u8> {
    seq![
        (x / 0x100_0000) as u8,
        ((x / 0x1_0000) % 256) as u8,
        ((x / 256) % 256) as u8,
        (x % 256) as u8,
    ]
}

/// The big-endian 16-bit value stored at `s[i..i + 2]`.
pub open spec fn read_be16(s: Seq<u8>, i: int) -> u16 {
    (s[i] as int * 256 + s[i + 1] as int) as u16
}

/// The big-endian 32-bit value stored at `s[i..i + 4]`.
pub open spec fn read_be32(s: Seq<u8>, i: int) -> u32 {
    (s[i] as int * 0x100_0000 + s[i + 1] as int * 0x1_0000 + s[i + 2] as int * 256
        + s[i + 3] as int) as u32
}

/// `s` with `x` written big-endian at `s[i..i + 2]`.
pub open spec fn put_be16(s: Seq<u8>, i: int, x: u16) -> Seq<u8> {
    s.update(i, (x / 256) as u8).update(i + 1, (x % 256) as u8)
}

/// Ethernet II header for an IPv4 payload.
pub open spec fn eth_header_spec(dst_mac: [u8; 6], src_mac: [u8; 6]) -> Seq<u8> {
    dst_mac@ + src_mac@ + seq![0x08u8, 0x00u8]
}

/// IPv4 header with a zero checksum field.
pub open spec fn ipv4_base_spec(total_len: u16, src: [u8; 4], dst: [u8; 4]) -> Seq<u8> {
    seq![0x45u8, 0u8] + be16_seq(total_len) + seq![0u8, 0u8, 0x40u8, 0u8, 64u8, 6u8, 0u8, 0u8]
        + src@ + dst@
}

/// IPv4 header with its checksum.
pub open spec fn ipv4_header_spec(total_len: u16, src: [u8; 4], dst: [u8; 4]) -> Seq<u8> {
    let b = ipv4_base_spec(total_len, src, dst);
    put_be16(b, 10, ipv4_checksum_spec(b))
}

/// TCP header (data offset 5, zero checksum and urgent pointer) followed by
/// the payload.
pub open spec fn tcp_base_spec(p: TcpFrameParams, flags: u8, payload: Seq<u8>) -> Seq<u8> {
    be16_seq(p.src_port) + be16_seq(p.dst_port) + be32_seq(p.seq) + be32_seq(p.ack) + seq![
        0x50u8,
        flags,
    ] + be16_seq(p.window) + seq![0u8, 0u8, 0u8, 0u8] + payload
}

/// TCP segment with its checksum field filled: the full checksum, or only
/// the pseudo-header checksum for a receiver that completes it.
pub open spec fn tcp_segment_spec(
    p: TcpFrameParams,
    flags: u8,
    payload: Seq<u8>,
    full_csum: bool,
) -> Seq<u8> {
    let b = tcp_base_spec(p, flags, payload);
    let c = if full_csum {
        tcp_checksum_spec(p.src_ip@, p.dst_ip@, b)
    } else {
        pseudo_checksum_spec(p.src_ip@, p.dst_ip@, (b.len() as u32) as nat)
    };
    put_be16(b, 16, c)
}

/// The complete frame.
pub open spec fn tcp_frame_spec(
    p: TcpFrameParams,
    flags: u8,
    payload: Seq<u8>,
    full_csum: bool,
) -> Seq<u8> {
    eth_header_spec(p.dst_mac, p.src_mac) + ipv4_header_spec(
        (40 + payload.len()) as u16,
        p.src_ip,
        p.dst_ip,
    ) + tcp_segment_spec(p, flags, payload, full_csum)
}

/// A data segment (PSH|ACK) carrying `payload`, full checksum.
pub open spec fn data_frame_spec(p: TcpFrameParams, payload: Seq<u8>) -> Seq<u8> {
    tcp_frame_spec(p, TCP_PSH | TCP_ACK, payload, true)
}

/// Largest payload a frame built here accepts. A payload beyond 65495
/// bytes does not fit the 16-bit IPv4 total length, which then holds the
/// length truncated to 16 bits.
pub const MAX_FRAME_PAYLOAD: usize = 0xFFFF_0000;

pub fn push_be16(v: &mut Vec<u8>, x: u16)
    ensures
        final(v)@ == old(v)@ + be16_seq(x),
{
    v.push((x / 256) as u8);
    v.push((x % 256) as u8);
    proof {
        assert(final(v)@ =~= old(v)@ + be16_seq(x));
    }
}

pub fn push_be32(v: &mut Vec<u8>, x: u32)
    ensures
        final(v)@ == old(v)@ + be32_seq(x),
{
    v.push((x / 0x100_0000) as u8);
    v.push(((x / 0x1_0000) % 256) as u8);
    v.push(((x / 256) % 256) as u8);
    v.push((x % 256) as u8);
    proof {
        assert(final(v)@ =~= old(v)@ + be32_seq(x));
    }
}

pub fn push_bytes(v: &mut Vec<u8>, s: &[u8])
    ensures
        final(v)@ == old(v)@ + s@,
{
    let ghost start = v@;
    let mut i: usize = 0;
    while i < s.len()
        invariant
            i <= s@.len(),
            v@ == start + s@.subrange(0, i as int),
        decreases s@.len() - i,
    {
        v.push(s[i]);
        i = i + 1;
        proof {
            assert(v@ =~= start + s@.subrange(0, i as int));
        }
    }
    proof {
        assert(s@.subrange(0, s@.len() as int) =~= s@);
    }
}

/// Writes `x` big-endian at `v[i..i + 2]`.
pub fn set_be16(v: &mut Vec<u8>, i: usize, x: u16)
    requires
        i + 2 <= old(v)@.len(),
    ensures
        final(v)@ == put_be16(old(v)@, i as int, x),
{
    let n = v.len();
    v.set(i, (x / 256) as u8);
    if i + 1 < n {
        v.set(i + 1, (x % 256) as u8);
    }
}

proof fn lemma_put_be16_prefix(a: Seq<u8>, b: Seq<u8>, i: int, x: u16)
    requires
        0 <= i,
        i + 2 <= b.len(),
    ensures
        a + put_be16(b, i, x) == put_be16(a + b, a.len() + i, x),
{
    assert(a + put_be16(b, i, x) =~= put_be16(a + b, a.len() + i, x));
}

/// Builds the IPv4 header for a TCP packet of `total_len` bytes.
pub fn build_ipv4_header(total_len: u16, src: [u8; 4], dst: [u8; 4]) -> (h: Vec<u8>)
    ensures
        h@ == ipv4_header_spec(total_len, src, dst),
        h@.len() == 20,
{
    let mut h: Vec<u8> = Vec::new();
    h.push(0x45);
    h.push(0);
    push_be16(&mut h, total_len);
    h.push(0);
    h.push(0);
    h.push(0x40);
    h.push(0);
    h.push(64);
    h.push(6);
    h.push(0);
    h.push(0);
    push_bytes(&mut h, &src);
    push_bytes(&mut h, &dst);
    proof {
        assert(h@ =~= ipv4_base_spec(total_len, src, dst));
    }
    let c = ipv4_header_checksum(h.as_slice());
    set_be16(&mut h, 10, c);
    h
}

/// Builds a guest-bound frame with the given TCP flags and payload, with
/// the full TCP checksum or only the pseudo-header checksum.
pub fn build_tcp_frame(p: &TcpFrameParams, flags: u8, payload: &[u8], full_csum: bool) -> (f: Vec<
    u8,
>)
    requires
        payload@.len() <= MAX_FRAME_PAYLOAD,
    ensures
        f@ == tcp_frame_spec(*p, flags, payload@, full_csum),
        f@.len() == 54 + payload@.len(),
{
    let mut tcp: Vec<u8> = Vec::new();
    push_be16(&mut tcp, p.src_port);
    push_be16(&mut tcp, p.dst_port);
    push_be32(&mut tcp, p.seq);
    push_be32(&mut tcp, p.ack);
    tcp.push(0x50);
    tcp.push(flags);
    push_be16(&mut tcp, p.window);
    tcp.push(0);
    tcp.push(0);
    tcp.push(0);
    tcp.push(0);
    push_bytes(&mut tcp, payload);
    proof {
        assert(tcp@ =~= tcp_base_spec(*p, flags, payload@));
    }
    let c = if full_csum {
        tcp_checksum(p.src_ip, p.dst_ip, tcp.as_slice())
    } else {
        tcp_pseudo_header_checksum(p.src_ip, p.dst_ip, tcp.len())
    };
    set_be16(&mut tcp, 16, c);
    let total = (40 + payload.len()) as u16;
    let mut f: Vec<u8> = Vec::new();
    push_bytes(&mut f, &p.dst_mac);
    push_bytes(&mut f, &p.src_mac);
    f.push(0x08);
    f.push(0x00);
    let ip = build_ipv4_header(total, p.src_ip, p.dst_ip);
    push_bytes(&mut f, ip.as_slice());
    push_bytes(&mut f, tcp.as_slice());
    proof {
        assert(f@ =~= tcp_frame_spec(*p, flags, payload@, full_csum));
    }
    f
}

/// Data frame (PSH|ACK) with a full TCP checksum.
pub fn build_tcp_data_frame(p: &TcpFrameParams, payload: &[u8]) -> (f: Vec<u8>)
    requires
        payload@.len() <= MAX_FRAME_PAYLOAD,
    ensures
        f@ == data_frame_spec(*p, payload@),
{
    build_tcp_frame(p, TCP_PSH | TCP_ACK, payload, true)
}

/// Data frame (PSH|ACK) whose TCP checksum field holds only the
/// pseudo-header checksum, for a receiver that completes it (GSO).
pub fn build_tcp_data_frame_partial_csum(p: &TcpFrameParams, payload: &[u8]) -> (f: Vec<u8>)
    requires
        payload@.len() <= MAX_FRAME_PAYLOAD,
    ensures
        f@ == tcp_frame_spec(*p, TCP_PSH | TCP_ACK, payload@, false),
{
    build_tcp_frame(p, TCP_PSH | TCP_ACK, payload, false)
}

/// Pure ACK frame.
pub fn build_tcp_ack_frame(p: &TcpFrameParams) -> (f: Vec<u8>)
    ensures
        f@ == tcp_frame_spec(*p, TCP_ACK, Seq::empty(), true),
{
    let e: [u8; 0] = [];
    proof {
        assert(e@ =~= Seq::<u8>::empty());
    }
    build_tcp_frame(p, TCP_ACK, &e, true)
}

/// FIN|ACK frame.
pub fn build_tcp_fin_frame(p: &TcpFrameParams) -> (f: Vec<u8>)
    ensures
        f@ == tcp_frame_spec(*p, TCP_FIN | TCP_ACK, Seq::empty(), true),
{
    let e: [u8; 0] = [];
    proof {
        assert(e@ =~= Seq::<u8>::empty());
    }
    build_tcp_frame(p, TCP_FIN | TCP_ACK, &e, true)
}

/// RST|ACK frame.
pub fn build_tcp_rst_frame(p: &TcpFrameParams) -> (f: Vec<u8>)
    ensures
        f@ == tcp_frame_spec(*p, TCP_RST | TCP_ACK, Seq::empty(), true),
{
    let e: [u8; 0] = [];
    proof {
        assert(e@ =~= Seq::<u8>::empty());
    }
    build_tcp_frame(p, TCP_RST | TCP_ACK, &e, true)
}

/// Every IPv4 header built here passes a receiver's check: the
/// one's-complement sum of its words, checksum included, is 0xFFFF.
pub proof fn lemma_ipv4_header_verifies(total_len: u16, src: [u8; 4], dst: [u8; 4])
    ensures
        ones_fold(word_sum(ipv4_header_spec(total_len, src, dst))) == 0xFFFF,
{
    let b = ipv4_base_spec(total_len, src, dst);
    assert(ipv4_checksum_input(b) =~= b);
    let c = ipv4_checksum_spec(b);
    lemma_word_sum_replace(b, 10, (c / 256) as u8, (c % 256) as u8);
    lemma_checksum_complements(word_sum(b));
}

/// Every TCP segment built here with its full checksum passes a receiver's
/// check against the pseudo-header.
pub proof fn lemma_tcp_segment_verifies(p: TcpFrameParams, flags: u8, payload: Seq<u8>)
    ensures
        ({
            let seg = tcp_segment_spec(p, flags, payload, true);
            ones_fold(pseudo_sum(p.src_ip@, p.dst_ip@, (seg.len() as u32) as nat) + word_sum(seg))
                == 0xFFFF
        }),
{
    let b = tcp_base_spec(p, flags, payload);
    let t = pseudo_sum(p.src_ip@, p.dst_ip@, (b.len() as u32) as nat) + word_sum(b);
    let c = tcp_checksum_spec(p.src_ip@, p.dst_ip@, b);
    assert(b[16] == 0 && b[17] == 0);
    lemma_word_sum_replace(b, 16, (c / 256) as u8, (c % 256) as u8);
    lemma_checksum_complements(t);
}

/// What a receiver reads as the frame's TCP acknowledgment number.
pub open spec fn frame_ack(f: Seq<u8>) -> u32 {
    read_be32(f, 42)
}

/// What a receiver reads as the frame's TCP sequence number.
pub open spec fn frame_seq(f: Seq<u8>) -> u32 {
    read_be32(f, 38)
}

/// A receiver's TCP checksum check of a frame of this layout: the
/// pseudo-header (addresses from the IPv4 header, length of the TCP
/// segment) plus every word of the TCP segment folds to 0xFFFF.
pub open spec fn frame_tcp_checksum_ok(f: Seq<u8>) -> bool {
    let seg = f.subrange(34, f.len() as int);
    ones_fold(
        pseudo_sum(f.subrange(26, 30), f.subrange(30, 34), (seg.len() as u32) as nat) + word_sum(seg),
    ) == 0xFFFF
}

/// Reading back a big-endian 32-bit value gives the value.
pub proof fn lemma_read_be32_of_seq(x: u32)
    ensures
        read_be32(be32_seq(x), 0) == x,
{
    assert((x / 0x100_0000) * 0x100_0000 + ((x / 0x1_0000) % 256) * 0x1_0000 + ((x / 256) % 256)
        * 256 + x % 256 == x) by (bit_vector);
    assert(x / 0x100_0000 < 256) by (bit_vector);
}

/// Every frame built here carries its parameters' acknowledgment number,
/// and one built with its full checksum passes a receiver's check.
pub proof fn lemma_frame_ack_and_checksum(p: TcpFrameParams, flags: u8, payload: Seq<u8>, full_csum: bool)
    ensures
        frame_ack(tcp_frame_spec(p, flags, payload, full_csum)) == p.ack,
        frame_seq(tcp_frame_spec(p, flags, payload, full_csum)) == p.seq,
        full_csum ==> frame_tcp_checksum_ok(tcp_frame_spec(p, flags, payload, full_csum)),
{
    let e = eth_header_spec(p.dst_mac, p.src_mac);
    let total = (40 + payload.len()) as u16;
    let b = ipv4_base_spec(total, p.src_ip, p.dst_ip);
    let ip = ipv4_header_spec(total, p.src_ip, p.dst_ip);
    let tb = tcp_base_spec(p, flags, payload);
    let t = tcp_segment_spec(p, flags, payload, full_csum);
    let f = tcp_frame_spec(p, flags, payload, full_csum);
    assert(e.len() == 14);
    assert(b.len() == 20);
    assert(ip.len() == 20);
    assert(t.len() == tb.len());
    assert(f == e + ip + t);
    assert(f.subrange(34, f.len() as int) =~= t);
    assert(f.subrange(26, 30) =~= p.src_ip@) by {
        assert forall|k: int| 0 <= k < 4 implies f[26 + k] == p.src_ip@[k] by {
            assert(f[26 + k] == ip[12 + k]);
            assert(ip[12 + k] == b[12 + k]);
        }
    }
    assert(f.subrange(30, 34) =~= p.dst_ip@) by {
        assert forall|k: int| 0 <= k < 4 implies f[30 + k] == p.dst_ip@[k] by {
            assert(f[30 + k] == ip[16 + k]);
            assert(ip[16 + k] == b[16 + k]);
        }
    }
    assert(f.subrange(42, 46) =~= be32_seq(p.ack)) by {
        assert forall|k: int| 0 <= k < 4 implies f[42 + k] == be32_seq(p.ack)[k] by {
            assert(f[42 + k] == t[8 + k]);
            assert(t[8 + k] == tb[8 + k]);
        }
    }
    lemma_read_be32_of_seq(p.ack);
    assert(read_be32(f, 42) == read_be32(f.subrange(42, 46), 0));
    assert(f.subrange(38, 42) =~= be32_seq(p.seq)) by {
        assert forall|k: int| 0 <= k < 4 implies f[38 + k] == be32_seq(p.seq)[k] by {
            assert(f[38 + k] == t[4 + k]);
            assert(t[4 + k] == tb[4 + k]);
        }
    }
    lemma_read_be32_of_seq(p.seq);
    assert(read_be32(f, 38) == read_be32(f.subrange(38, 42), 0));
    if full_csum {
        lemma_tcp_segment_verifies(p, flags, payload);
    }
}

} // verus!
