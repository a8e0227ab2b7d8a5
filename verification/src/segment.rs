//! Reading the TCP/IPv4 header of a guest frame.

use vstd::prelude::*;
use crate::ethernet::{read_be16, read_be32, ETH_HEADER_LEN};

verus! {

/// Header fields of a guest TCP/IPv4 frame.
#[derive(Clone, Copy)]
pub struct SegmentHeader {
    pub src_ip: [u8; 4],
    pub dst_ip: [u8; 4],
    pub src_port: u16,
    pub dst_port: u16,
    pub seq: u32,
    pub ack: u32,
    pub flags: u8,
    pub window: u16,
    /// Offset of the TCP header in the frame.
    pub l4_start: usize,
    /// IPv4 total length field.
    pub ip_total_len: u16,
}

/// IPv4 header length of the frame, in bytes.
pub open spec fn ihl_of(f: Seq<u8>) -> int {
    (f[14] & 0x0F) as int * 4
}

/// The frame holds Ethernet + an IPv4 header of at least 20 bytes
/// carrying TCP + the 20 fixed bytes of a TCP header.
pub open spec fn header_ok(f: Seq<u8>) -> bool {
    &&& f.len() >= 54
    &&& f[23] == 6
    &&& ihl_of(f) >= 20
    &&& 14 + ihl_of(f) + 20 <= f.len()
}

/// `h` holds the header fields of frame `f`.
pub open spec fn header_matches(h: SegmentHeader, f: Seq<u8>) -> bool {
    let l4 = 14 + ihl_of(f);
    &&& h.l4_start == l4
    &&& h.src_ip@ == f.subrange(26, 30)
    &&& h.dst_ip@ == f.subrange(30, 34)
    &&& h.ip_total_len == read_be16(f, 16)
    &&& h.src_port == read_be16(f, l4)
    &&& h.dst_port == read_be16(f, l4 + 2)
    &&& h.seq == read_be32(f, l4 + 4)
    &&& h.ack == read_be32(f, l4 + 8)
    &&& h.flags == f[l4 + 13]
    &&& h.window == read_be16(f, l4 + 14)
}

/// TCP data offset (header length) of a frame with header `h`, in bytes.
pub open spec fn data_offset_of(f: Seq<u8>, h: SegmentHeader) -> int {
    (f[h.l4_start + 12] >> 4) as int * 4
}

/// The TCP data offset covers the fixed header and lies inside the frame.
pub open spec fn payload_ok(f: Seq<u8>, h: SegmentHeader) -> bool {
    data_offset_of(f, h) >= 20 && h.l4_start + data_offset_of(f, h) <= f.len()
}

/// Where the payload starts.
pub open spec fn payload_start_of(f: Seq<u8>, h: SegmentHeader) -> int {
    h.l4_start + data_offset_of(f, h)
}

/// Payload length: up to the IPv4 total length (excluding Ethernet
/// padding), never past the frame's end; zero when the IPv4 length ends
/// before the payload starts.
pub open spec fn payload_len_of(f: Seq<u8>, h: SegmentHeader) -> int {
    let ip_end = 14 + h.ip_total_len;
    let end = if ip_end < f.len() {
        ip_end
    } else {
        f.len() as int
    };
    let start = payload_start_of(f, h);
    if end > start {
        end - start
    } else {
        0
    }
}

fn be16_at(f: &[u8], i: usize) -> (r: u16)
    requires
        i + 2 <= f@.len(),
    ensures
        r == read_be16(f@, i as int),
{
    (f[i] as u16) * 256 + f[i + 1] as u16
}

fn be32_at(f: &[u8], i: usize) -> (r: u32)
    requires
        i + 4 <= f@.len(),
    ensures
        r == read_be32(f@, i as int),
{
    (f[i] as u32) * 0x100_0000 + (f[i + 1] as u32) * 0x1_0000 + (f[i + 2] as u32) * 256 + f[i + 3] as u32
}

/// Reads the TCP/IPv4 header of a guest frame; `None` unless the frame is
/// long enough, carries TCP, and has a well-formed IPv4 header length.
pub fn parse_tcp_header(frame: &[u8]) -> (r: Option<SegmentHeader>)
    ensures
        r is Some <==> header_ok(frame@),
        r matches Some(h) ==> header_matches(h, frame@),
{
    if frame.len() < ETH_HEADER_LEN + 40 {
        return None;
    }
    if frame[ETH_HEADER_LEN + 9] != 6 {
        return None;
    }
    let b = frame[ETH_HEADER_LEN];
    let low: u8 = b & 0x0F;
    proof {
        assert(b & 0x0F <= 15) by (bit_vector);
    }
    let ihl = (low as usize) * 4;
    let l4 = ETH_HEADER_LEN + ihl;
    if ihl < 20 || frame.len() < l4 + 20 {
        return None;
    }
    let src_ip: [u8; 4] = [frame[26], frame[27], frame[28], frame[29]];
    let dst_ip: [u8; 4] = [frame[30], frame[31], frame[32], frame[33]];
    let h = SegmentHeader {
        src_ip,
        dst_ip,
        src_port: be16_at(frame, l4),
        dst_port: be16_at(frame, l4 + 2),
        seq: be32_at(frame, l4 + 4),
        ack: be32_at(frame, l4 + 8),
        flags: frame[l4 + 13],
        window: be16_at(frame, l4 + 14),
        l4_start: l4,
        ip_total_len: be16_at(frame, 16),
    };
    proof {
        assert(src_ip@ =~= frame@.subrange(26, 30));
        assert(dst_ip@ =~= frame@.subrange(30, 34));
    }
    Some(h)
}

/// Start and length of the payload of a frame with header `h`; `None`
/// when the TCP data offset is shorter than the fixed header or runs past
/// the frame.
pub fn payload_bounds(frame: &[u8], h: &SegmentHeader) -> (r: Option<(usize, usize)>)
    requires
        header_ok(frame@),
        header_matches(*h, frame@),
    ensures
        r is Some <==> payload_ok(frame@, *h),
        r matches Some(b) ==> b.0 == payload_start_of(frame@, *h) && b.1 == payload_len_of(
            frame@,
            *h,
        ),
        r matches Some(b) ==> b.0 + b.1 <= frame@.len() && b.1 <= 65549,
{
    let b = frame[h.l4_start + 12];
    let hi: u8 = b >> 4;
    proof {
        assert(b >> 4 <= 15) by (bit_vector);
    }
    let doff = (hi as usize) * 4;
    if doff < 20 || h.l4_start + doff > frame.len() {
        return None;
    }
    let start = h.l4_start + doff;
    let ip_end = ETH_HEADER_LEN + h.ip_total_len as usize;
    let end = if ip_end < frame.len() {
        ip_end
    } else {
        frame.len()
    };
    let len = if end > start {
        end - start
    } else {
        0
    };
    Some((start, len))
}
} // verus!
