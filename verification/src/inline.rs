//! Header layout of frames written directly into guest receive buffers by
//! an inline owner: a 12-byte virtio-net header, then Ethernet, IPv4 and
//! TCP headers, then the payload read straight from the host socket.
//!
//! The TCP checksum field holds only the pseudo-header checksum; the
//! virtio-net header asks the guest to complete it (NEEDS_CSUM), and a
//! frame longer than a classic Ethernet frame is marked GSO_TCPV4 so the
//! guest re-segments it at [`GSO_SEGMENT_MSS`] bytes.

use vstd::prelude::*;
use crate::checksum::{pseudo_checksum_spec, tcp_pseudo_header_checksum};
use crate::ethernet::{
    TcpFrameParams, eth_header_spec, ipv4_header_spec, tcp_base_spec, put_be16, push_be16,
    push_be32, push_bytes, set_be16, build_ipv4_header, TCP_PSH, TCP_ACK, TCP_FIN, TCP_RST,
};
use crate::seqnum::{send_budget, send_budget_spec};
use crate::download::HONORED_WINDOW_CAP;
use crate::flow::GSO_SEGMENT_MSS;

verus! {

/// Ethernet + IPv4 + TCP headers.
pub const ETH_IP_TCP_HDR_LEN: usize = 54;

/// Virtio-net header + Ethernet + IPv4 + TCP headers.
pub const TOTAL_HDR_LEN: usize = 12 + ETH_IP_TCP_HDR_LEN;

/// What an inline owner knows of its flow when it writes a frame: the
/// addresses and the current values of the cursors it shares with the
/// flow's state machine.
#[derive(Clone, Copy)]
pub struct InlineConn {
    pub remote_ip: [u8; 4],
    pub guest_ip: [u8; 4],
    pub remote_port: u16,
    pub guest_port: u16,
    /// Our send cursor.
    pub our_seq: u32,
    /// Our ACK cursor (next guest byte expected).
    pub last_ack: u32,
    /// Highest ACK the guest sent for our stream.
    pub guest_acked: u32,
    /// The guest's receive window, already scaled.
    pub guest_window: u32,
    pub gw_mac: [u8; 6],
    pub guest_mac: [u8; 6],
    /// The host stream reached EOF.
    pub host_eof: bool,
}

impl InlineConn {
    /// Bytes the owner may still send without exceeding the guest's
    /// receive window (capped at [`HONORED_WINDOW_CAP`]).
    pub open spec fn budget_spec(&self) -> u32 {
        let w = if self.guest_window < HONORED_WINDOW_CAP {
            self.guest_window
        } else {
            HONORED_WINDOW_CAP
        };
        send_budget_spec(self.our_seq, self.guest_acked, w)
    }

    pub fn send_budget(&self) -> (r: u32)
        ensures
            r == self.budget_spec(),
            r <= HONORED_WINDOW_CAP,
    {
        let w = if self.guest_window < HONORED_WINDOW_CAP {
            self.guest_window
        } else {
            HONORED_WINDOW_CAP
        };
        send_budget(self.our_seq, self.guest_acked, w)
    }

    /// TCP/IP parameters of a frame of this flow.
    pub open spec fn params(&self, window: u16) -> TcpFrameParams {
        TcpFrameParams {
            src_ip: self.remote_ip,
            dst_ip: self.guest_ip,
            src_port: self.remote_port,
            dst_port: self.guest_port,
            seq: self.our_seq,
            ack: self.last_ack,
            window,
            src_mac: self.gw_mac,
            dst_mac: self.guest_mac,
        }
    }
}

/// Little-endian bytes of a 16-bit value.
pub open spec fn le16_seq(x: u16) -> Seq<u8> {
    seq![(x % 256) as u8, (x / 256) as u8]
}

/// The virtio-net header: NEEDS_CSUM with the checksum starting at byte
/// 34 (after Ethernet and IPv4) and stored at offset 16 of the TCP header;
/// for GSO, type TCPV4 with a 54-byte header length and
/// [`GSO_SEGMENT_MSS`] segments; `num_buffers` receive buffers.
pub open spec fn virtio_hdr_spec(gso: bool, num_buffers: u16) -> Seq<u8> {
    let gso_part = if gso {
        seq![1u8] + le16_seq(54) + le16_seq(GSO_SEGMENT_MSS)
    } else {
        seq![0u8, 0u8, 0u8, 0u8, 0u8]
    };
    seq![1u8] + gso_part + le16_seq(34) + le16_seq(16) + le16_seq(num_buffers)
}

/// The 66 header bytes of a frame carrying `payload_len` payload bytes.
pub open spec fn inline_headers_spec(
    c: InlineConn,
    flags: u8,
    window: u16,
    payload_len: int,
    gso: bool,
    num_buffers: u16,
) -> Seq<u8> {
    virtio_hdr_spec(gso, num_buffers) + eth_header_spec(c.guest_mac, c.gw_mac) + ipv4_header_spec(
        (40 + payload_len) as u16,
        c.remote_ip,
        c.guest_ip,
    ) + put_be16(
        tcp_base_spec(c.params(window), flags, Seq::empty()),
        16,
        pseudo_checksum_spec(c.remote_ip@, c.guest_ip@, ((20 + payload_len) as u32) as nat),
    )
}

fn push_le16(v: &mut Vec<u8>, x: u16)
    ensures
        final(v)@ == old(v)@ + le16_seq(x),
{
    v.push((x % 256) as u8);
    v.push((x / 256) as u8);
    proof {
        assert(final(v)@ =~= old(v)@ + le16_seq(x));
    }
}

/// Builds the 66 header bytes (see [`inline_headers_spec`]).
fn build_inline_headers(
    c: &InlineConn,
    flags: u8,
    window: u16,
    payload_len: usize,
    gso: bool,
    num_buffers: u16,
) -> (h: Vec<u8>)
    requires
        payload_len + 54 <= usize::MAX,
    ensures
        h@ == inline_headers_spec(*c, flags, window, payload_len as int, gso, num_buffers),
        h@.len() == TOTAL_HDR_LEN,
{
    let mut h: Vec<u8> = Vec::new();
    h.push(1);
    if gso {
        h.push(1);
        push_le16(&mut h, 54);
        push_le16(&mut h, GSO_SEGMENT_MSS);
    } else {
        h.push(0);
        h.push(0);
        h.push(0);
        h.push(0);
        h.push(0);
    }
    push_le16(&mut h, 34);
    push_le16(&mut h, 16);
    push_le16(&mut h, num_buffers);
    let ghost virtio = h@;
    proof {
        assert(virtio =~= virtio_hdr_spec(gso, num_buffers));
    }
    push_bytes(&mut h, &c.guest_mac);
    push_bytes(&mut h, &c.gw_mac);
    h.push(0x08);
    h.push(0x00);
    let ip = build_ipv4_header((40 + payload_len) as u16, c.remote_ip, c.guest_ip);
    push_bytes(&mut h, ip.as_slice());
    let mut tcp: Vec<u8> = Vec::new();
    push_be16(&mut tcp, c.remote_port);
    push_be16(&mut tcp, c.guest_port);
    push_be32(&mut tcp, c.our_seq);
    push_be32(&mut tcp, c.last_ack);
    tcp.push(0x50);
    tcp.push(flags);
    push_be16(&mut tcp, window);
    tcp.push(0);
    tcp.push(0);
    tcp.push(0);
    tcp.push(0);
    proof {
        assert(tcp@ =~= tcp_base_spec(c.params(window), flags, Seq::empty()));
    }
    let csum = tcp_pseudo_header_checksum(c.remote_ip, c.guest_ip, 20 + payload_len);
    set_be16(&mut tcp, 16, csum);
    push_bytes(&mut h, tcp.as_slice());
    proof {
        assert(h@ =~= inline_headers_spec(*c, flags, window, payload_len as int, gso, num_buffers));
    }
    h
}

/// Copies `src` over the start of `buf`.
fn copy_prefix(buf: &mut [u8], src: &[u8])
    requires
        src@.len() <= old(buf)@.len(),
    ensures
        final(buf)@ == src@ + old(buf)@.subrange(src@.len() as int, old(buf)@.len() as int),
{
    let n = src.len();
    let mut i: usize = 0;
    while i < n
        invariant
            n == src@.len(),
            n <= buf@.len(),
            i <= n,
            buf@.len() == old(buf)@.len(),
            buf@ == src@.subrange(0, i as int) + old(buf)@.subrange(i as int, old(buf)@.len() as int),
        decreases n - i,
    {
        buf[i] = src[i];
        i = i + 1;
        proof {
            assert(buf@ =~= src@.subrange(0, i as int) + old(buf)@.subrange(
                i as int,
                old(buf)@.len() as int,
            ));
        }
    }
    proof {
        assert(src@.subrange(0, n as int) =~= src@);
    }
}

/// Writes the 66 header bytes of a data frame (PSH|ACK, window 65535)
/// carrying `payload_len` bytes over `num_buffers` receive buffers into
/// the start of `buf`. Returns the header length, or 0 (nothing written)
/// when `buf` is shorter than that.
pub fn write_inline_headers(
    buf: &mut [u8],
    conn: &InlineConn,
    payload_len: usize,
    num_buffers: u16,
) -> (n: usize)
    requires
        old(buf)@.len() >= TOTAL_HDR_LEN ==> payload_len + 54 <= usize::MAX,
    ensures
        old(buf)@.len() < TOTAL_HDR_LEN ==> n == 0 && final(buf)@ == old(buf)@,
        old(buf)@.len() >= TOTAL_HDR_LEN ==> n == TOTAL_HDR_LEN && final(buf)@ == inline_headers_spec(
            *conn,
            TCP_PSH | TCP_ACK,
            65535,
            payload_len as int,
            54 + payload_len > 1500,
            num_buffers,
        ) + old(buf)@.subrange(TOTAL_HDR_LEN as int, old(buf)@.len() as int),
{
    if buf.len() < TOTAL_HDR_LEN {
        return 0;
    }
    let h = build_inline_headers(
        conn,
        TCP_PSH | TCP_ACK,
        65535,
        payload_len,
        54 + payload_len > 1500,
        num_buffers,
    );
    copy_prefix(buf, h.as_slice());
    TOTAL_HDR_LEN
}

/// Writes a header-only control frame with `flags` and `window`.
fn write_ctrl_headers(buf: &mut [u8], conn: &InlineConn, flags: u8, window: u16) -> (n: usize)
    ensures
        old(buf)@.len() < TOTAL_HDR_LEN ==> n == 0 && final(buf)@ == old(buf)@,
        old(buf)@.len() >= TOTAL_HDR_LEN ==> n == TOTAL_HDR_LEN && final(buf)@ == inline_headers_spec(
            *conn,
            flags,
            window,
            0,
            false,
            1,
        ) + old(buf)@.subrange(TOTAL_HDR_LEN as int, old(buf)@.len() as int),
{
    if buf.len() < TOTAL_HDR_LEN {
        return 0;
    }
    let h = build_inline_headers(conn, flags, window, 0, false, 1);
    copy_prefix(buf, h.as_slice());
    TOTAL_HDR_LEN
}

/// Writes a FIN|ACK control frame (the host stream reached EOF; the FIN
/// takes one sequence number, which the caller accounts for).
pub fn write_fin_headers(buf: &mut [u8], conn: &InlineConn) -> (n: usize)
    ensures
        old(buf)@.len() < TOTAL_HDR_LEN ==> n == 0 && final(buf)@ == old(buf)@,
        old(buf)@.len() >= TOTAL_HDR_LEN ==> n == TOTAL_HDR_LEN && final(buf)@ == inline_headers_spec(
            *conn,
            TCP_FIN | TCP_ACK,
            65535,
            0,
            false,
            1,
        ) + old(buf)@.subrange(TOTAL_HDR_LEN as int, old(buf)@.len() as int),
{
    write_ctrl_headers(buf, conn, TCP_FIN | TCP_ACK, 65535)
}

/// Writes a RST|ACK control frame with a zero window (the host stream
/// died mid-stream; a RST takes no sequence number).
pub fn write_rst_headers(buf: &mut [u8], conn: &InlineConn) -> (n: usize)
    ensures
        old(buf)@.len() < TOTAL_HDR_LEN ==> n == 0 && final(buf)@ == old(buf)@,
        old(buf)@.len() >= TOTAL_HDR_LEN ==> n == TOTAL_HDR_LEN && final(buf)@ == inline_headers_spec(
            *conn,
            TCP_RST | TCP_ACK,
            0,
            0,
            false,
            1,
        ) + old(buf)@.subrange(TOTAL_HDR_LEN as int, old(buf)@.len() as int),
{
    write_ctrl_headers(buf, conn, TCP_RST | TCP_ACK, 0)
}

} // verus!
