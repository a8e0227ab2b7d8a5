//! Addressing of a fast-path flow and the guest-bound data frames built for
//! it: one GSO-style frame when the path allows, otherwise segments clamped
//! to the guest's MSS.

use vstd::prelude::*;
use crate::ethernet::{
    TcpFrameParams, tcp_frame_spec, ipv4_header_spec, tcp_segment_spec, eth_header_spec, build_tcp_data_frame, build_tcp_data_frame_partial_csum,
    build_tcp_ack_frame, build_tcp_fin_frame, build_tcp_rst_frame, MAX_FRAME_PAYLOAD, TCP_PSH,
    TCP_ACK, TCP_FIN, TCP_RST, frame_ack, frame_seq, frame_tcp_checksum_ok, lemma_frame_ack_and_checksum,
};
use crate::upload::lemma_seq_add_add;
use crate::seqnum::{seq_add, wadd};

verus! {

/// Segment size the GSO/inline injection paths let the guest re-segment
/// at. A flow whose peer advertised a smaller MSS never takes those paths.
pub const GSO_SEGMENT_MSS: u16 = 1460;

/// Floor for a peer-advertised MSS when sizing host-to-guest segments (the
/// IPv4 minimum; also guards against a missing MSS option).
pub const TCP_MIN_MSS: u16 = 536;

/// Largest per-frame payload a configured MTU may ask for: the 16-bit IPv4
/// total length minus the IPv4 and TCP headers.
pub const MAX_SEGMENT_PAYLOAD: usize = 65495;

/// Window advertised in every guest-bound frame that carries one.
pub const SHIM_WINDOW: u16 = 65535;

/// The four addresses of a flow as the guest sees them.
#[derive(Clone, Copy)]
pub struct FlowAddr {
    /// Remote IP (source of guest-bound frames).
    pub remote_ip: [u8; 4],
    /// Guest IP.
    pub guest_ip: [u8; 4],
    /// Remote TCP port.
    pub remote_port: u16,
    /// Guest TCP port.
    pub guest_port: u16,
}

/// What every guest-bound frame of a poll pass shares.
#[derive(Clone, Copy)]
pub struct FrameCtx {
    /// Whole reads go out as one GSO-style frame (when the peer allows).
    pub large_frames: bool,
    /// Payload bytes per frame otherwise.
    pub guest_mss: usize,
    /// Ethernet source (the gateway).
    pub gw_mac: [u8; 6],
    /// Ethernet destination (the guest).
    pub guest_mac: [u8; 6],
}

impl FrameCtx {
    /// The segment size is usable: at least one byte, at most what fits a
    /// 16-bit IPv4 total length.
    pub open spec fn wf(&self) -> bool {
        1 <= self.guest_mss <= MAX_SEGMENT_PAYLOAD
    }
}

/// Parameters of a guest-bound frame of flow `a`.
pub open spec fn flow_params(
    a: FlowAddr,
    src_mac: [u8; 6],
    dst_mac: [u8; 6],
    seq: u32,
    ack: u32,
    window: u16,
) -> TcpFrameParams {
    TcpFrameParams {
        src_ip: a.remote_ip,
        dst_ip: a.guest_ip,
        src_port: a.remote_port,
        dst_port: a.guest_port,
        seq,
        ack,
        window,
        src_mac,
        dst_mac,
    }
}

/// Builds the parameters of a guest-bound frame of flow `a`.
pub fn make_params(
    a: &FlowAddr,
    src_mac: [u8; 6],
    dst_mac: [u8; 6],
    seq: u32,
    ack: u32,
    window: u16,
) -> (p: TcpFrameParams)
    ensures
        p == flow_params(*a, src_mac, dst_mac, seq, ack, window),
{
    TcpFrameParams {
        src_ip: a.remote_ip,
        dst_ip: a.guest_ip,
        src_port: a.remote_port,
        dst_port: a.guest_port,
        seq,
        ack,
        window,
        src_mac,
        dst_mac,
    }
}

/// Frames as plain byte sequences.
pub open spec fn frames_view(f: Seq<Vec<u8>>) -> Seq<Seq<u8>> {
    f.map_values(|v: Vec<u8>| v@)
}

/// Payload bytes per segment on the clamped path: the context's MSS, but
/// never more than the peer's MSS (floored at [`TCP_MIN_MSS`]).
pub open spec fn segment_size(guest_mss: usize, peer_mss: u16) -> int {
    let peer = if peer_mss >= TCP_MIN_MSS {
        peer_mss as int
    } else {
        TCP_MIN_MSS as int
    };
    if (guest_mss as int) < peer {
        guest_mss as int
    } else {
        peer
    }
}

/// Data frames (PSH|ACK, full checksum) for `data[off..]` in `seg`-byte
/// chunks, the chunk at offset `o` carrying sequence number `seq + o`.
pub open spec fn chunk_frames(
    a: FlowAddr,
    ctx: FrameCtx,
    ack: u32,
    seq: u32,
    data: Seq<u8>,
    seg: int,
    off: int,
) -> Seq<Seq<u8>>
    decreases data.len() - off,
{
    if seg <= 0 || off < 0 || off >= data.len() {
        Seq::empty()
    } else {
        let end = if off + seg < data.len() {
            off + seg
        } else {
            data.len() as int
        };
        seq![
            tcp_frame_spec(
                flow_params(a, ctx.gw_mac, ctx.guest_mac, seq_add(seq, off), ack, SHIM_WINDOW),
                TCP_PSH | TCP_ACK,
                data.subrange(off, end),
                true,
            ),
        ] + chunk_frames(a, ctx, ack, seq, data, seg, end)
    }
}

/// The large-frame path applies: enabled, and the peer accepts segments of
/// [`GSO_SEGMENT_MSS`] bytes.
pub open spec fn uses_large_frame(ctx: FrameCtx, peer_mss: u16) -> bool {
    ctx.large_frames && peer_mss >= GSO_SEGMENT_MSS
}

/// Guest-bound data frames for `data` starting at sequence number `seq`:
/// one frame when the large-frame path applies (checksum left to the
/// receiver when it exceeds a classic 1500-byte Ethernet frame), otherwise
/// segments of [`segment_size`] bytes.
pub open spec fn data_frames_spec(
    a: FlowAddr,
    peer_mss: u16,
    ctx: FrameCtx,
    ack: u32,
    seq: u32,
    data: Seq<u8>,
) -> Seq<Seq<u8>> {
    if uses_large_frame(ctx, peer_mss) {
        seq![
            tcp_frame_spec(
                flow_params(a, ctx.gw_mac, ctx.guest_mac, seq, ack, SHIM_WINDOW),
                TCP_PSH | TCP_ACK,
                data,
                54 + data.len() <= 1500,
            ),
        ]
    } else {
        chunk_frames(a, ctx, ack, seq, data, segment_size(ctx.guest_mss, peer_mss), 0)
    }
}

/// A guest-bound frame without payload carrying `flags`.
pub open spec fn ctrl_frame_spec(
    a: FlowAddr,
    ctx: FrameCtx,
    flags: u8,
    seq: u32,
    ack: u32,
    window: u16,
) -> Seq<u8> {
    tcp_frame_spec(flow_params(a, ctx.gw_mac, ctx.guest_mac, seq, ack, window), flags, Seq::empty(), true)
}

/// FIN|ACK frame of flow `a` at sequence number `seq`.
pub open spec fn fin_frame_spec(a: FlowAddr, ctx: FrameCtx, seq: u32, ack: u32) -> Seq<u8> {
    ctrl_frame_spec(a, ctx, TCP_FIN | TCP_ACK, seq, ack, SHIM_WINDOW)
}

/// RST|ACK frame of flow `a` (window zero).
pub open spec fn rst_frame_spec(a: FlowAddr, ctx: FrameCtx, seq: u32, ack: u32) -> Seq<u8> {
    ctrl_frame_spec(a, ctx, TCP_RST | TCP_ACK, seq, ack, 0)
}

/// Pure ACK frame of flow `a`.
pub open spec fn ack_frame_spec(a: FlowAddr, ctx: FrameCtx, seq: u32, ack: u32) -> Seq<u8> {
    ctrl_frame_spec(a, ctx, TCP_ACK, seq, ack, SHIM_WINDOW)
}

pub fn fin_frame(a: &FlowAddr, ctx: &FrameCtx, seq: u32, ack: u32) -> (f: Vec<u8>)
    ensures
        f@ == fin_frame_spec(*a, *ctx, seq, ack),
{
    build_tcp_fin_frame(&make_params(a, ctx.gw_mac, ctx.guest_mac, seq, ack, SHIM_WINDOW))
}

pub fn rst_frame(a: &FlowAddr, ctx: &FrameCtx, seq: u32, ack: u32) -> (f: Vec<u8>)
    ensures
        f@ == rst_frame_spec(*a, *ctx, seq, ack),
{
    build_tcp_rst_frame(&make_params(a, ctx.gw_mac, ctx.guest_mac, seq, ack, 0))
}

pub fn ack_frame(a: &FlowAddr, ctx: &FrameCtx, seq: u32, ack: u32) -> (f: Vec<u8>)
    ensures
        f@ == ack_frame_spec(*a, *ctx, seq, ack),
{
    build_tcp_ack_frame(&make_params(a, ctx.gw_mac, ctx.guest_mac, seq, ack, SHIM_WINDOW))
}

pub proof fn lemma_frames_view_push(f: Seq<Vec<u8>>, v: Vec<u8>)
    ensures
        frames_view(f.push(v)) == frames_view(f).push(v@),
{
    assert(frames_view(f.push(v)) =~= frames_view(f).push(v@));
}

/// Appends the guest-bound data frames for `data` starting at sequence
/// number `seq_start` to `frames`. The send cursor is not touched:
/// retransmissions re-emit already consumed sequence space.
pub fn emit_data_frames(
    ctx: &FrameCtx,
    a: &FlowAddr,
    peer_mss: u16,
    ack: u32,
    seq_start: u32,
    data: &[u8],
    frames: &mut Vec<Vec<u8>>,
)
    requires
        ctx.wf(),
        data@.len() <= MAX_FRAME_PAYLOAD,
    ensures
        frames_view(final(frames)@) == frames_view(old(frames)@) + data_frames_spec(
            *a,
            peer_mss,
            *ctx,
            ack,
            seq_start,
            data@,
        ),
{
    if ctx.large_frames && peer_mss >= GSO_SEGMENT_MSS {
        let p = make_params(a, ctx.gw_mac, ctx.guest_mac, seq_start, ack, SHIM_WINDOW);
        let f = if 54 + data.len() > 1500 {
            build_tcp_data_frame_partial_csum(&p, data)
        } else {
            build_tcp_data_frame(&p, data)
        };
        proof {
            lemma_frames_view_push(frames@, f);
        }
        frames.push(f);
        proof {
            assert(frames_view(frames@) =~= frames_view(old(frames)@) + data_frames_spec(
                *a,
                peer_mss,
                *ctx,
                ack,
                seq_start,
                data@,
            ));
        }
        return;
    }
    let peer: usize = if peer_mss >= TCP_MIN_MSS {
        peer_mss as usize
    } else {
        TCP_MIN_MSS as usize
    };
    let seg: usize = if ctx.guest_mss < peer {
        ctx.guest_mss
    } else {
        peer
    };
    let ghost gseg = segment_size(ctx.guest_mss, peer_mss);
    let ghost all = chunk_frames(*a, *ctx, ack, seq_start, data@, gseg, 0);
    let mut offset: usize = 0;
    while offset < data.len()
        invariant
            seg == gseg,
            1 <= seg <= 65535,
            offset <= data@.len(),
            data@.len() <= MAX_FRAME_PAYLOAD,
            all == chunk_frames(*a, *ctx, ack, seq_start, data@, gseg, 0),
            frames_view(frames@) + chunk_frames(*a, *ctx, ack, seq_start, data@, gseg, offset as int)
                == frames_view(old(frames)@) + all,
        decreases data@.len() - offset,
    {
        let chunk_end: usize = if offset + seg < data.len() {
            offset + seg
        } else {
            data.len()
        };
        let p = make_params(
            a,
            ctx.gw_mac,
            ctx.guest_mac,
            wadd(seq_start, offset as u32),
            ack,
            SHIM_WINDOW,
        );
        let chunk = &data[offset..chunk_end];
        let f = build_tcp_data_frame(&p, chunk);
        let ghost before = frames@;
        proof {
            lemma_frames_view_push(frames@, f);
        }
        frames.push(f);
        proof {
            let rest = chunk_frames(*a, *ctx, ack, seq_start, data@, gseg, chunk_end as int);
            assert(chunk_frames(*a, *ctx, ack, seq_start, data@, gseg, offset as int) == seq![f@]
                + rest);
            assert(frames_view(frames@) + rest =~= frames_view(before) + (seq![f@] + rest));
        }
        offset = chunk_end;
    }
}

/// The payload of a frame built here (everything after the 54 header
/// bytes).
pub open spec fn frame_payload(f: Seq<u8>) -> Seq<u8> {
    f.subrange(54, f.len() as int)
}

/// The payloads of `fr`, joined in order.
pub open spec fn joined_payloads(fr: Seq<Seq<u8>>) -> Seq<u8>
    decreases fr.len(),
{
    if fr.len() == 0 {
        Seq::empty()
    } else {
        frame_payload(fr[0]) + joined_payloads(fr.subrange(1, fr.len() as int))
    }
}

/// A frame built here is the 54 header bytes followed by its payload.
pub proof fn lemma_frame_layout(p: TcpFrameParams, flags: u8, payload: Seq<u8>, full_csum: bool)
    ensures
        tcp_frame_spec(p, flags, payload, full_csum).len() == 54 + payload.len(),
        frame_payload(tcp_frame_spec(p, flags, payload, full_csum)) == payload,
{
    let e = eth_header_spec(p.dst_mac, p.src_mac);
    let ip = ipv4_header_spec((40 + payload.len()) as u16, p.src_ip, p.dst_ip);
    let t = tcp_segment_spec(p, flags, payload, full_csum);
    assert(e.len() == 14);
    assert(ip.len() == 20);
    assert(t.len() == 20 + payload.len());
    assert(t.subrange(20, t.len() as int) =~= payload);
    assert(frame_payload(e + ip + t) =~= t.subrange(20, t.len() as int));
}

proof fn lemma_chunks_join(
    a: FlowAddr,
    ctx: FrameCtx,
    ack: u32,
    seq: u32,
    data: Seq<u8>,
    seg: int,
    off: int,
)
    requires
        seg > 0,
        0 <= off <= data.len(),
    ensures
        joined_payloads(chunk_frames(a, ctx, ack, seq, data, seg, off)) == data.subrange(
            off,
            data.len() as int,
        ),
        forall|i: int|
            0 <= i < chunk_frames(a, ctx, ack, seq, data, seg, off).len() ==> #[trigger] frame_payload(
                chunk_frames(a, ctx, ack, seq, data, seg, off)[i],
            ).len() <= seg,
    decreases data.len() - off,
{
    if off < data.len() {
        let end = if off + seg < data.len() {
            off + seg
        } else {
            data.len() as int
        };
        let p = flow_params(a, ctx.gw_mac, ctx.guest_mac, seq_add(seq, off), ack, SHIM_WINDOW);
        let chunk = data.subrange(off, end);
        lemma_frame_layout(p, TCP_PSH | TCP_ACK, chunk, true);
        lemma_chunks_join(a, ctx, ack, seq, data, seg, end);
        let fr = chunk_frames(a, ctx, ack, seq, data, seg, off);
        let rest = chunk_frames(a, ctx, ack, seq, data, seg, end);
        assert(fr.subrange(1, fr.len() as int) =~= rest);
        assert(data.subrange(off, data.len() as int) =~= chunk + data.subrange(end, data.len() as int));
        assert forall|i: int| 0 <= i < fr.len() implies #[trigger] frame_payload(fr[i]).len() <= seg by {
            if i > 0 {
                assert(fr[i] == rest[i - 1]);
            }
        }
    } else {
        assert(data.subrange(off, data.len() as int) =~= Seq::<u8>::empty());
    }
}

/// Segmentation of host data loses, duplicates and reorders nothing: the
/// frames' payloads, joined, are the data; on the clamped path no frame
/// carries more than the segment size.
pub proof fn lemma_segmentation_exact(
    a: FlowAddr,
    peer_mss: u16,
    ctx: FrameCtx,
    ack: u32,
    seq: u32,
    data: Seq<u8>,
)
    requires
        ctx.wf(),
    ensures
        joined_payloads(data_frames_spec(a, peer_mss, ctx, ack, seq, data)) == data,
        !uses_large_frame(ctx, peer_mss) ==> forall|i: int|
            0 <= i < data_frames_spec(a, peer_mss, ctx, ack, seq, data).len()
                ==> #[trigger] frame_payload(data_frames_spec(a, peer_mss, ctx, ack, seq, data)[i]).len()
                <= segment_size(ctx.guest_mss, peer_mss),
{
    if uses_large_frame(ctx, peer_mss) {
        let p = flow_params(a, ctx.gw_mac, ctx.guest_mac, seq, ack, SHIM_WINDOW);
        lemma_frame_layout(p, TCP_PSH | TCP_ACK, data, 54 + data.len() <= 1500);
        let fr = data_frames_spec(a, peer_mss, ctx, ack, seq, data);
        assert(fr.len() == 1);
        assert(fr[0] == tcp_frame_spec(p, TCP_PSH | TCP_ACK, data, 54 + data.len() <= 1500));
        assert(fr.subrange(1, fr.len() as int) =~= Seq::<Seq<u8>>::empty());
        assert(joined_payloads(Seq::<Seq<u8>>::empty()) == Seq::<u8>::empty());
        assert(joined_payloads(fr) == frame_payload(fr[0]) + Seq::<u8>::empty());
        assert(joined_payloads(fr) =~= data);
    } else {
        lemma_chunks_join(a, ctx, ack, seq, data, segment_size(ctx.guest_mss, peer_mss), 0);
        assert(data.subrange(0, data.len() as int) =~= data);
    }
}

proof fn lemma_chunks_ack_and_checksum(
    a: FlowAddr,
    ctx: FrameCtx,
    ack: u32,
    seq: u32,
    data: Seq<u8>,
    seg: int,
    off: int,
)
    ensures
        forall|i: int|
            0 <= i < chunk_frames(a, ctx, ack, seq, data, seg, off).len() ==> {
                &&& frame_ack(#[trigger] chunk_frames(a, ctx, ack, seq, data, seg, off)[i]) == ack
                &&& frame_tcp_checksum_ok(chunk_frames(a, ctx, ack, seq, data, seg, off)[i])
            },
    decreases data.len() - off,
{
    if seg > 0 && 0 <= off < data.len() {
        let end = if off + seg < data.len() {
            off + seg
        } else {
            data.len() as int
        };
        let p = flow_params(a, ctx.gw_mac, ctx.guest_mac, seq_add(seq, off), ack, SHIM_WINDOW);
        lemma_frame_ack_and_checksum(p, TCP_PSH | TCP_ACK, data.subrange(off, end), true);
        lemma_chunks_ack_and_checksum(a, ctx, ack, seq, data, seg, end);
        let fr = chunk_frames(a, ctx, ack, seq, data, seg, off);
        let rest = chunk_frames(a, ctx, ack, seq, data, seg, end);
        assert forall|i: int| 0 <= i < fr.len() implies {
            &&& frame_ack(#[trigger] fr[i]) == ack
            &&& frame_tcp_checksum_ok(fr[i])
        } by {
            if i > 0 {
                assert(fr[i] == rest[i - 1]);
            }
        }
    }
}

/// Every data frame built for the guest acknowledges `ack`, and passes the
/// guest's TCP checksum check unless it is a single large frame beyond a
/// classic 1500-byte Ethernet frame, whose checksum the guest completes:
/// segments clamped to the MSS, and a large-path frame of at most 1500
/// bytes, carry their full checksum.
pub proof fn lemma_data_frames_ack_and_checksum(
    a: FlowAddr,
    peer_mss: u16,
    ctx: FrameCtx,
    ack: u32,
    seq: u32,
    data: Seq<u8>,
)
    ensures
        forall|i: int|
            0 <= i < data_frames_spec(a, peer_mss, ctx, ack, seq, data).len() ==> frame_ack(
                #[trigger] data_frames_spec(a, peer_mss, ctx, ack, seq, data)[i],
            ) == ack,
        !uses_large_frame(ctx, peer_mss) || 54 + data.len() <= 1500 ==> forall|i: int|
            0 <= i < data_frames_spec(a, peer_mss, ctx, ack, seq, data).len()
                ==> frame_tcp_checksum_ok(#[trigger] data_frames_spec(a, peer_mss, ctx, ack, seq, data)[i]),
{
    if uses_large_frame(ctx, peer_mss) {
        let p = flow_params(a, ctx.gw_mac, ctx.guest_mac, seq, ack, SHIM_WINDOW);
        lemma_frame_ack_and_checksum(p, TCP_PSH | TCP_ACK, data, 54 + data.len() <= 1500);
    } else {
        lemma_chunks_ack_and_checksum(a, ctx, ack, seq, data, segment_size(ctx.guest_mss, peer_mss), 0);
    }
}

/// Control frames (FIN, RST, ACK) acknowledge `ack` and pass the guest's
/// TCP checksum check.
pub proof fn lemma_ctrl_frame_ack_and_checksum(
    a: FlowAddr,
    ctx: FrameCtx,
    flags: u8,
    seq: u32,
    ack: u32,
    window: u16,
)
    ensures
        frame_ack(ctrl_frame_spec(a, ctx, flags, seq, ack, window)) == ack,
        frame_tcp_checksum_ok(ctrl_frame_spec(a, ctx, flags, seq, ack, window)),
{
    lemma_frame_ack_and_checksum(
        flow_params(a, ctx.gw_mac, ctx.guest_mac, seq, ack, window),
        flags,
        Seq::empty(),
        true,
    );
}

proof fn lemma_chunks_seq(
    a: FlowAddr,
    ctx: FrameCtx,
    ack: u32,
    seq: u32,
    data: Seq<u8>,
    seg: int,
    off: int,
)
    requires
        seg > 0,
        0 <= off,
    ensures
        chunk_frames(a, ctx, ack, seq, data, seg, off).len() > 0 ==> frame_seq(
            chunk_frames(a, ctx, ack, seq, data, seg, off)[0],
        ) == seq_add(seq, off),
        forall|i: int|
            0 <= i < chunk_frames(a, ctx, ack, seq, data, seg, off).len() - 1 ==> frame_seq(
                chunk_frames(a, ctx, ack, seq, data, seg, off)[i + 1],
            ) == seq_add(
                frame_seq(#[trigger] chunk_frames(a, ctx, ack, seq, data, seg, off)[i]),
                frame_payload(chunk_frames(a, ctx, ack, seq, data, seg, off)[i]).len() as int,
            ),
    decreases data.len() - off,
{
    if off < data.len() {
        let end = if off + seg < data.len() {
            off + seg
        } else {
            data.len() as int
        };
        let p = flow_params(a, ctx.gw_mac, ctx.guest_mac, seq_add(seq, off), ack, SHIM_WINDOW);
        let chunk = data.subrange(off, end);
        lemma_frame_ack_and_checksum(p, TCP_PSH | TCP_ACK, chunk, true);
        lemma_frame_layout(p, TCP_PSH | TCP_ACK, chunk, true);
        lemma_chunks_seq(a, ctx, ack, seq, data, seg, end);
        lemma_seq_add_add(seq, off, end - off);
        let fr = chunk_frames(a, ctx, ack, seq, data, seg, off);
        let rest = chunk_frames(a, ctx, ack, seq, data, seg, end);
        assert forall|i: int| 0 <= i < fr.len() - 1 implies frame_seq(fr[i + 1]) == seq_add(
            frame_seq(#[trigger] fr[i]),
            frame_payload(fr[i]).len() as int,
        ) by {
            assert(fr[i + 1] == rest[i]);
            if i > 0 {
                assert(fr[i] == rest[i - 1]);
            }
        }
    }
}

/// The data frames carry consecutive sequence space: the first starts at
/// `seq`, and each next one right after the previous one's payload.
pub proof fn lemma_data_frames_contiguous(
    a: FlowAddr,
    peer_mss: u16,
    ctx: FrameCtx,
    ack: u32,
    seq: u32,
    data: Seq<u8>,
)
    requires
        ctx.wf(),
    ensures
        data_frames_spec(a, peer_mss, ctx, ack, seq, data).len() > 0 ==> frame_seq(
            data_frames_spec(a, peer_mss, ctx, ack, seq, data)[0],
        ) == seq,
        forall|i: int|
            0 <= i < data_frames_spec(a, peer_mss, ctx, ack, seq, data).len() - 1 ==> frame_seq(
                data_frames_spec(a, peer_mss, ctx, ack, seq, data)[i + 1],
            ) == seq_add(
                frame_seq(#[trigger] data_frames_spec(a, peer_mss, ctx, ack, seq, data)[i]),
                frame_payload(data_frames_spec(a, peer_mss, ctx, ack, seq, data)[i]).len() as int,
            ),
{
    if uses_large_frame(ctx, peer_mss) {
        let p = flow_params(a, ctx.gw_mac, ctx.guest_mac, seq, ack, SHIM_WINDOW);
        lemma_frame_ack_and_checksum(p, TCP_PSH | TCP_ACK, data, 54 + data.len() <= 1500);
    } else {
        lemma_chunks_seq(a, ctx, ack, seq, data, segment_size(ctx.guest_mss, peer_mss), 0);
        assert(seq_add(seq, 0) == seq) by {
            vstd::arithmetic::div_mod::lemma_small_mod(seq as nat, 0x1_0000_0000nat);
        }
    }
}

} // verus!
