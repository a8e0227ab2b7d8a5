//! Host-to-guest frame delivery: the sink the datapath hands finished
//! frames to, and the segment sizing of owners that read a promoted
//! flow's host stream themselves.

use vstd::prelude::*;
use crate::flow::{
    segment_size, TCP_MIN_MSS, MAX_SEGMENT_PAYLOAD, FlowAddr, FrameCtx, data_frames_spec,
    fin_frame_spec, frames_view, emit_data_frames, fin_frame, rst_frame, rst_frame_spec,
    lemma_frames_view_push,
};
use crate::download::{HostRead, RetxRing, RingModel, READ_CHUNK};
use crate::seqnum::{seq_add, seq_sub, wadd, lemma_budget_within_window};
use crate::inline::InlineConn;
use crate::download::HONORED_WINDOW_CAP;

verus! {

/// Largest frame a Unix datagram socketpair carries toward the guest.
pub const UNIX_DGRAM_MAX_FRAME_LEN: usize = 2048;

/// Ethernet + IPv4 + TCP header overhead of a data frame.
pub const TCP_IPV4_ETH_OVERHEAD: usize = 54;

/// Default payload per host-to-guest frame: what fits one datagram.
pub const FAST_PATH_GUEST_MSS: usize = UNIX_DGRAM_MAX_FRAME_LEN - TCP_IPV4_ETH_OVERHEAD;

/// Sends raw Ethernet frames (without a virtio-net header) from the
/// datapath to whatever injects them into the guest.
pub trait FrameSink: Send + Sync {
    /// Sends a frame; `true` if it was accepted, `false` if the sink is full
    /// and the frame was dropped.
    fn send(&self, frame: Vec<u8>) -> bool;
}

#[verifier::external_type_specification]
#[verifier::external_body]
#[verifier::reject_recursive_types(T)]
pub struct ExCrossbeamSender<T>(crossbeam_channel::Sender<T>);

/// Calls `crossbeam_channel::Sender::try_send`, which hands the frame to the
/// channel without blocking. Whether the channel takes it depends on its
/// fill level and on the receiver still existing, so nothing is stated of
/// the result: `true` exactly when `try_send` returned `Ok`.
#[verifier::external_body]
fn channel_try_send(tx: &crossbeam_channel::Sender<Vec<u8>>, frame: Vec<u8>) -> (accepted: bool) {
    tx.try_send(frame).is_ok()
}

/// [`FrameSink`] backed by a bounded crossbeam channel.
pub struct ChannelFrameSink {
    tx: crossbeam_channel::Sender<Vec<u8>>,
}

impl ChannelFrameSink {
    /// The sending half frames go to.
    pub closed spec fn sender(&self) -> crossbeam_channel::Sender<Vec<u8>> {
        self.tx
    }

    /// A sink over the sending half of a channel.
    pub fn new(tx: crossbeam_channel::Sender<Vec<u8>>) -> (s: Self)
        ensures
            s.sender() == tx,
    {
        ChannelFrameSink { tx }
    }
}

impl FrameSink for ChannelFrameSink {
    fn send(&self, frame: Vec<u8>) -> bool {
        channel_try_send(&self.tx, frame)
    }
}

/// Payload per frame for a link of the given MTU: the MTU minus the IPv4
/// and TCP headers, at least 1 and at most what a 16-bit IPv4 total length
/// allows.
pub open spec fn guest_mss_for_mtu_spec(mtu: usize) -> usize {
    if mtu <= 41 {
        1
    } else if mtu - 40 > MAX_SEGMENT_PAYLOAD {
        MAX_SEGMENT_PAYLOAD
    } else {
        (mtu - 40) as usize
    }
}

pub fn guest_mss_for_mtu(mtu: usize) -> (r: usize)
    ensures
        r == guest_mss_for_mtu_spec(mtu),
        1 <= r <= MAX_SEGMENT_PAYLOAD,
{
    let m = mtu.saturating_sub(40);
    if m < 1 {
        1
    } else if m > MAX_SEGMENT_PAYLOAD {
        MAX_SEGMENT_PAYLOAD
    } else {
        m
    }
}

/// Segment size of an owner whose own link allows `sink_mss` bytes: never
/// more than the peer's MSS (floored at [`TCP_MIN_MSS`]), so a large-MTU
/// sink never oversizes frames for a smaller-link guest.
pub fn sink_segment_size(sink_mss: usize, peer_mss: u16) -> (r: usize)
    ensures
        r == segment_size(sink_mss, peer_mss),
{
    let peer: usize = if peer_mss >= TCP_MIN_MSS {
        peer_mss as usize
    } else {
        TCP_MIN_MSS as usize
    };
    if sink_mss < peer {
        sink_mss
    } else {
        peer
    }
}

/// An owner reading a promoted flow's host stream sends `data`: the bytes
/// are recorded in the shared ring before their frames go out, and take
/// their sequence space.
pub fn owner_send_data(
    a: &FlowAddr,
    peer_mss: u16,
    ctx: &FrameCtx,
    last_ack: u32,
    our_seq: &mut u32,
    ring: &mut RetxRing,
    data: &[u8],
    frames: &mut Vec<Vec<u8>>,
)
    requires
        ctx.wf(),
        data@.len() <= READ_CHUNK,
    ensures
        final(ring)@ == (RingModel { buf: old(ring)@.buf + data@, ..old(ring)@ }),
        *final(our_seq) == seq_add(*old(our_seq), data@.len() as int),
        frames_view(final(frames)@) == frames_view(old(frames)@) + data_frames_spec(
            *a,
            peer_mss,
            *ctx,
            last_ack,
            *old(our_seq),
            data@,
        ),
{
    ring.tee(data);
    emit_data_frames(ctx, a, peer_mss, last_ack, *our_seq, data, frames);
    *our_seq = wadd(*our_seq, data.len() as u32);
}

/// An owner saw the host stream's clean EOF: our FIN goes out at the send
/// cursor, its position is recorded for retransmission, and it takes one
/// sequence number.
pub fn owner_send_fin(
    a: &FlowAddr,
    ctx: &FrameCtx,
    last_ack: u32,
    our_seq: &mut u32,
    ring: &mut RetxRing,
) -> (f: Vec<u8>)
    ensures
        f@ == fin_frame_spec(*a, *ctx, *old(our_seq), last_ack),
        final(ring)@ == (RingModel { fin_seq: Some(*old(our_seq)), ..old(ring)@ }),
        *final(our_seq) == seq_add(*old(our_seq), 1),
{
    let seq_now = *our_seq;
    let f = fin_frame(a, ctx, seq_now, last_ack);
    ring.record_fin(seq_now);
    *our_seq = wadd(seq_now, 1);
    f
}

/// What an owner reading a promoted flow's host stream does with one read:
/// data is recorded and sent ([`owner_send_data`]); a clean EOF sends our
/// FIN ([`owner_send_fin`]) and ends the owner; a failed stream sends a
/// RST at the cursors, marks the flow dead for the bridge to reap, and
/// ends the owner (a FIN would pass a truncated stream off as complete);
/// nothing to read changes nothing. Returns whether the owner stops.
pub fn owner_after_read(
    a: &FlowAddr,
    peer_mss: u16,
    ctx: &FrameCtx,
    last_ack: u32,
    our_seq: &mut u32,
    ring: &mut RetxRing,
    dead: &mut bool,
    r: HostRead,
    data: &[u8],
    frames: &mut Vec<Vec<u8>>,
) -> (stop: bool)
    requires
        ctx.wf(),
        r is Data ==> data@.len() <= READ_CHUNK,
    ensures
        stop == (r is Eof || r is Failed),
        *final(dead) == (*old(dead) || r is Failed),
        match r {
            HostRead::Eof => {
                &&& final(ring)@ == (RingModel { fin_seq: Some(*old(our_seq)), ..old(ring)@ })
                &&& *final(our_seq) == seq_add(*old(our_seq), 1)
                &&& frames_view(final(frames)@) == frames_view(old(frames)@).push(
                    fin_frame_spec(*a, *ctx, *old(our_seq), last_ack),
                )
            },
            HostRead::Data => {
                &&& final(ring)@ == (RingModel { buf: old(ring)@.buf + data@, ..old(ring)@ })
                &&& *final(our_seq) == seq_add(*old(our_seq), data@.len() as int)
                &&& frames_view(final(frames)@) == frames_view(old(frames)@) + data_frames_spec(
                    *a,
                    peer_mss,
                    *ctx,
                    last_ack,
                    *old(our_seq),
                    data@,
                )
            },
            HostRead::WouldBlock => {
                &&& final(ring)@ == old(ring)@
                &&& *final(our_seq) == *old(our_seq)
                &&& final(frames)@ == old(frames)@
            },
            HostRead::Failed => {
                &&& final(ring)@ == old(ring)@
                &&& *final(our_seq) == *old(our_seq)
                &&& frames_view(final(frames)@) == frames_view(old(frames)@).push(
                    rst_frame_spec(*a, *ctx, *old(our_seq), last_ack),
                )
            },
        },
{
    match r {
        HostRead::Eof => {
            let f = owner_send_fin(a, ctx, last_ack, our_seq, ring);
            proof {
                lemma_frames_view_push(frames@, f);
            }
            frames.push(f);
            true
        },
        HostRead::Data => {
            owner_send_data(a, peer_mss, ctx, last_ack, our_seq, ring, data, frames);
            false
        },
        HostRead::WouldBlock => false,
        HostRead::Failed => {
            let f = rst_frame(a, ctx, *our_seq, last_ack);
            proof {
                lemma_frames_view_push(frames@, f);
            }
            frames.push(f);
            *dead = true;
            true
        },
    }
}

/// What an owner reading a promoted flow's host stream does at the top of
/// a pass.
#[derive(Clone, Copy, PartialEq, Eq, Debug)]
pub enum OwnerPass {
    /// The flow was torn down: stop without reading or sending.
    Stop,
    /// The guest's window is full: wait for its ACKs, read nothing.
    Wait,
    /// Read at most this many bytes.
    Read(usize),
}

/// The owner's decision at the top of a pass: a dead flow stops the owner;
/// a zero send budget waits; otherwise read at most the budget, and at
/// most the `buf_len`-byte read buffer.
pub open spec fn owner_pass_spec(dead: bool, conn: InlineConn, buf_len: usize) -> OwnerPass {
    if dead {
        OwnerPass::Stop
    } else if conn.budget_spec() == 0 {
        OwnerPass::Wait
    } else if (conn.budget_spec() as int) < buf_len {
        OwnerPass::Read(conn.budget_spec() as usize)
    } else {
        OwnerPass::Read(buf_len)
    }
}

/// The owner's decision at the top of a pass, from the dead flag and the
/// cursors it shares with the flow (`conn`): a dead flow stops the owner;
/// a zero send budget (see [`InlineConn::send_budget`]) waits; otherwise
/// read at most the budget, and at most the `buf_len`-byte read buffer.
pub fn owner_next_pass(dead: bool, conn: &InlineConn, buf_len: usize) -> (p: OwnerPass)
    ensures
        p == owner_pass_spec(dead, *conn, buf_len),
        p matches OwnerPass::Read(cap) ==> cap <= conn.budget_spec() && cap <= buf_len,
{
    if dead {
        return OwnerPass::Stop;
    }
    let budget = conn.send_budget();
    if budget == 0 {
        OwnerPass::Wait
    } else if (budget as usize) < buf_len {
        OwnerPass::Read(budget as usize)
    } else {
        OwnerPass::Read(buf_len)
    }
}

/// The guest window an owner honors.
pub open spec fn owner_window(conn: InlineConn) -> u32 {
    if conn.guest_window < HONORED_WINDOW_CAP {
        conn.guest_window
    } else {
        HONORED_WINDOW_CAP
    }
}

/// A read the owner's pass allows keeps the bytes in flight within the
/// honored guest window: sending the `n <= cap` bytes read leaves at most
/// the window unacknowledged.
pub proof fn lemma_owner_read_within_window(dead: bool, conn: InlineConn, buf_len: usize, n: int)
    requires
        seq_sub(conn.our_seq, conn.guest_acked) < 0x8000_0000,
        0 <= n,
        owner_pass_spec(dead, conn, buf_len) matches OwnerPass::Read(cap) && n <= cap,
    ensures
        seq_sub(conn.our_seq, conn.guest_acked) + n <= owner_window(conn),
{
    lemma_budget_within_window(conn.our_seq, conn.guest_acked, owner_window(conn));
}

} // verus!
