//! A TCP flow promoted to the fast path: both halves of its state and the
//! decisions taken on every guest frame for it.
//!
//! A guest frame is handled as a short exchange between the driver, which
//! owns the host socket, and the flow: [`FastPathFlow::start_segment`]
//! (liveness, RST, header sanity, download ACK bookkeeping, the upload
//! decision) answers with a [`SegmentStep`]; the driver performs the host
//! write it asks for and reports the answer
//! ([`FastPathFlow::after_segment_write`], [`FastPathFlow::next_parked`],
//! [`FastPathFlow::after_parked_write`]) until the step is `Finish`; then
//! [`FastPathFlow::finish_segment`] handles a FIN and produces the reply.

use vstd::prelude::*;
use crate::segment::{
    SegmentHeader, header_ok, header_matches, payload_ok, payload_start_of, payload_len_of,
    payload_bounds,
};
use crate::upload::{
    UploadState, UploadPlan, UploadResult, DrainStep, HostWrite, plan_post, write_post,
    next_parked_post, parked_write_post, upload_plan_of, write_result_of, drain_step_of,
    OOO_REASSEMBLY_CAP,
};
use crate::download::{
    DownloadState, DownModel, HostRead, READ_CHUNK, ack_step, data_step, eof_step, initial_down,
};
use crate::flow::{
    FlowAddr, FrameCtx, GSO_SEGMENT_MSS, ack_frame, fin_frame, rst_frame, ack_frame_spec,
    fin_frame_spec, rst_frame_spec, data_frames_spec, frames_view, lemma_frames_view_push,
};
use crate::ethernet::{TCP_FIN, TCP_SYN, TCP_RST};
use crate::seqnum::{seq_add, seq_sub, wadd};

verus! {

/// Only a flow whose peer accepts [`GSO_SEGMENT_MSS`]-byte segments may be
/// handed to an inline owner (which emits GSO frames of that size).
pub fn inline_eligible(peer_mss: u16) -> (r: bool)
    ensures
        r == (peer_mss >= GSO_SEGMENT_MSS),
{
    peer_mss >= GSO_SEGMENT_MSS
}

/// Per-flow state of a fast-path connection.
pub struct FastPathFlow {
    /// Addresses as seen by the guest.
    pub addr: FlowAddr,
    /// MSS the guest advertised (bounds host-to-guest segments).
    pub peer_mss: u16,
    /// Window-scale shift the guest advertised (0 when none).
    pub guest_wscale: u8,
    /// An inline owner reads the host stream and sends on the flow's behalf.
    pub inline_owned: bool,
    /// Guest-to-host half.
    pub up: UploadState,
    /// Host-to-guest half.
    pub down: DownloadState,
}

/// How the first step on a guest frame ended.
pub enum SegmentStart {
    /// The guest reset the flow: tear it down, send nothing.
    Reset,
    /// The TCP data offset is malformed: the frame is not taken.
    Malformed,
    /// Continue with the payload at `payload_start`, `payload_len` bytes.
    Accepted { payload_start: usize, payload_len: usize },
}

/// How the last step on a guest frame ended.
pub enum SegmentEnd {
    /// Send this frame (an empty frame means: intercepted, no reply).
    Reply(Vec<u8>),
    /// The guest half-closed: shut the host stream's write side, send this.
    HalfClose(Vec<u8>),
    /// The flow is finished: send this and remove the flow.
    Close(Vec<u8>),
}

/// The segment's FIN sits exactly at the ACK cursor: every byte before it
/// was written and ACKed.
pub open spec fn fin_in_order(h: SegmentHeader, payload_len: usize, last_ack: u32) -> bool {
    h.flags & TCP_FIN != 0 && seq_add(h.seq, (payload_len as u32) as int) == last_ack
}

impl FastPathFlow {
    pub open spec fn wf(&self) -> bool {
        &&& self.up.wf()
        &&& self.down@.wf()
        &&& self.guest_wscale < 32
    }

    /// The configuration fields agree.
    pub open spec fn same_config(&self, other: &FastPathFlow) -> bool {
        &&& self.addr == other.addr
        &&& self.peer_mss == other.peer_mss
        &&& self.guest_wscale == other.guest_wscale
        &&& self.inline_owned == other.inline_owned
    }

    /// A flow promoted at send cursor `our_seq` and ACK cursor `last_ack`.
    pub fn new(
        addr: FlowAddr,
        our_seq: u32,
        last_ack: u32,
        peer_mss: u16,
        peer_wscale: Option<u8>,
        inline_owned: bool,
        now: u64,
    ) -> (f: Self)
        requires
            match peer_wscale {
                Some(w) => w < 32,
                None => true,
            },
        ensures
            f.wf(),
            f.addr == addr,
            f.peer_mss == peer_mss,
            f.guest_wscale == match peer_wscale {
                Some(w) => w,
                None => 0u8,
            },
            f.inline_owned == inline_owned,
            f.up.last_ack == last_ack,
            f.up.parked().len() == 0,
            f.up.up_bytes == 0,
            f.up.up_would_block == 0,
            f.up.up_short_writes == 0,
            f.up.up_out_of_order == 0,
            f.up.up_ooo_dropped == 0,
            f.down@ == initial_down(our_seq, now),
    {
        let wscale = match peer_wscale {
            Some(w) => w,
            None => 0,
        };
        FastPathFlow {
            addr,
            peer_mss,
            guest_wscale: wscale,
            inline_owned,
            up: UploadState::new(last_ack),
            down: DownloadState::new(our_seq, now),
        }
    }

    /// RST toward the guest at the current cursors (host stream failed).
    pub fn reset_frame(&self, ctx: &FrameCtx) -> (f: Vec<u8>)
        ensures
            f@ == rst_frame_spec(self.addr, *ctx, self.down.our_seq, self.up.last_ack),
    {
        rst_frame(&self.addr, ctx, self.down.our_seq, self.up.last_ack)
    }

    /// First step on a guest frame of this flow: any frame is a sign of
    /// life; a RST ends the flow; a malformed data offset rejects the
    /// frame; otherwise the ACK bookkeeping of the download half runs and
    /// the payload's bounds come back.
    pub fn begin_segment(&mut self, frame: &[u8], h: &SegmentHeader, now: u64) -> (r: SegmentStart)
        requires
            old(self).wf(),
            header_ok(frame@),
            header_matches(*h, frame@),
        ensures
            final(self).wf(),
            final(self).same_config(old(self)),
            final(self).up == old(self).up,
            ({
                let d0 = DownModel { last_guest_activity: now, ..old(self).down@ };
                if h.flags & TCP_RST != 0 {
                    &&& r is Reset
                    &&& final(self).down@ == d0
                } else if !payload_ok(frame@, *h) {
                    &&& r is Malformed
                    &&& final(self).down@ == d0
                } else {
                    let len = payload_len_of(frame@, *h);
                    &&& r == (SegmentStart::Accepted {
                        payload_start: payload_start_of(frame@, *h) as usize,
                        payload_len: len as usize,
                    })
                    &&& final(self).down@ == ack_step(
                        d0,
                        old(self).guest_wscale,
                        h.flags,
                        h.ack,
                        h.window,
                        len,
                    )
                    &&& payload_start_of(frame@, *h) + len <= frame@.len()
                    &&& len <= 65549
                }
            }),
    {
        self.down.last_guest_activity = now;
        if h.flags & TCP_RST != 0 {
            return SegmentStart::Reset;
        }
        match payload_bounds(frame, h) {
            None => SegmentStart::Malformed,
            Some((start, len)) => {
                self.down.on_guest_ack(self.guest_wscale, h.flags, h.ack, h.window, len);
                SegmentStart::Accepted { payload_start: start, payload_len: len }
            },
        }
    }

    /// Last step on a guest frame of this flow. A FIN exactly at the ACK
    /// cursor takes one sequence number; a non-inline flow whose host side
    /// is still open is then half-closed (ACK, the host read side keeps
    /// relaying), any other flow finishes with our FIN. A FIN beyond the
    /// cursor waits for the missing bytes. A pure ACK gets no reply; any
    /// other frame (payload, deferred FIN, SYN) gets an ACK at the cursors.
    pub fn finish_segment(
        &mut self,
        h: &SegmentHeader,
        payload_len: usize,
        now: u64,
        ctx: &FrameCtx,
    ) -> (r: SegmentEnd)
        requires
            old(self).wf(),
        ensures
            final(self).wf(),
            final(self).same_config(old(self)),
            final(self).up.parked() == old(self).up.parked(),
            final(self).up.up_bytes == old(self).up.up_bytes,
            ({
                let la = old(self).up.last_ack;
                let seq = old(self).down.our_seq;
                if fin_in_order(*h, payload_len, la) {
                    let la1 = seq_add(la, 1);
                    &&& final(self).up == (UploadState { last_ack: la1, ..old(self).up })
                    &&& if !old(self).down.host_eof && !old(self).inline_owned {
                        &&& final(self).down@ == (DownModel {
                            guest_fin_at: Some(now),
                            ..old(self).down@
                        })
                        &&& r matches SegmentEnd::HalfClose(f) && f@ == ack_frame_spec(
                            old(self).addr,
                            *ctx,
                            seq,
                            la1,
                        )
                    } else {
                        &&& final(self).down@ == old(self).down@
                        &&& r matches SegmentEnd::Close(f) && f@ == fin_frame_spec(
                            old(self).addr,
                            *ctx,
                            seq,
                            la1,
                        )
                    }
                } else {
                    &&& final(self).up == old(self).up
                    &&& final(self).down@ == old(self).down@
                    &&& if payload_len == 0 && h.flags & (TCP_FIN | TCP_SYN) == 0 {
                        r matches SegmentEnd::Reply(f) && f@.len() == 0
                    } else {
                        r matches SegmentEnd::Reply(f) && f@ == ack_frame_spec(
                            old(self).addr,
                            *ctx,
                            seq,
                            la,
                        )
                    }
                }
            }),
    {
        if h.flags & TCP_FIN != 0 {
            let fin_seq = wadd(h.seq, payload_len as u32);
            if fin_seq == self.up.last_ack {
                self.up.last_ack = wadd(self.up.last_ack, 1);
                if !self.down.host_eof && !self.inline_owned {
                    self.down.guest_fin_at = Some(now);
                    return SegmentEnd::HalfClose(
                        ack_frame(&self.addr, ctx, self.down.our_seq, self.up.last_ack),
                    );
                }
                return SegmentEnd::Close(
                    fin_frame(&self.addr, ctx, self.down.our_seq, self.up.last_ack),
                );
            }
        }
        if payload_len == 0 && h.flags & (TCP_FIN | TCP_SYN) == 0 {
            return SegmentEnd::Reply(Vec::new());
        }
        SegmentEnd::Reply(ack_frame(&self.addr, ctx, self.down.our_seq, self.up.last_ack))
    }
}

/// The next step of the driver on a guest frame whose first step
/// ([`FastPathFlow::start_segment`]) accepted it.
pub enum SegmentStep {
    /// The frame is not taken (malformed TCP data offset).
    NotTaken,
    /// The guest reset the flow: remove it; intercepted, no reply.
    Reset,
    /// Write `frame[from..to]` to the host stream and report the answer
    /// with [`FastPathFlow::after_segment_write`].
    WriteSegment { from: usize, to: usize, seq_end: u32 },
    /// Continue with [`FastPathFlow::next_parked`].
    Drain,
    /// Write the front parked segment from byte `start` on and report the
    /// answer with [`FastPathFlow::after_parked_write`].
    WriteParked { start: usize },
    /// The host stream failed: send this RST and remove the flow.
    HostFailed(Vec<u8>),
    /// The payload is dealt with: end with [`FastPathFlow::finish_segment`].
    Finish,
}

impl FastPathFlow {
    /// First steps on a guest frame of this flow (see
    /// [`Self::begin_segment`]), then the upload decision for its payload
    /// (see [`UploadState::plan_upload`]): write the bytes from the ACK
    /// cursor on, or nothing. Also returns the payload length, which the
    /// last step ([`Self::finish_segment`]) takes.
    pub fn start_segment(&mut self, frame: &[u8], h: &SegmentHeader, now: u64) -> (r: (
        SegmentStep,
        usize,
    ))
        requires
            old(self).wf(),
            header_ok(frame@),
            header_matches(*h, frame@),
        ensures
            final(self).wf(),
            final(self).same_config(old(self)),
            ({
                let d0 = DownModel { last_guest_activity: now, ..old(self).down@ };
                if h.flags & TCP_RST != 0 {
                    &&& r.0 is Reset
                    &&& r.1 == 0
                    &&& final(self).down@ == d0
                    &&& final(self).up == old(self).up
                } else if !payload_ok(frame@, *h) {
                    &&& r.0 is NotTaken
                    &&& r.1 == 0
                    &&& final(self).down@ == d0
                    &&& final(self).up == old(self).up
                } else {
                    let start = payload_start_of(frame@, *h);
                    let len = payload_len_of(frame@, *h);
                    let payload = frame@.subrange(start, start + len);
                    let plan = upload_plan_of(old(self).up, h.seq, payload);
                    &&& final(self).down@ == ack_step(
                        d0,
                        old(self).guest_wscale,
                        h.flags,
                        h.ack,
                        h.window,
                        len,
                    )
                    &&& plan_post(old(self).up, final(self).up, h.seq, payload, plan)
                    &&& r.1 == len
                    &&& match plan {
                        UploadPlan::Nothing => r.0 is Finish,
                        UploadPlan::Write { skip } => r.0 == (SegmentStep::WriteSegment {
                            from: (start + skip) as usize,
                            to: (start + len) as usize,
                            seq_end: seq_add(h.seq, len),
                        }),
                    }
                    &&& start + len <= frame@.len()
                }
            }),
    {
        match self.begin_segment(frame, h, now) {
            SegmentStart::Reset => (SegmentStep::Reset, 0),
            SegmentStart::Malformed => (SegmentStep::NotTaken, 0),
            SegmentStart::Accepted { payload_start, payload_len } => {
                let payload = &frame[payload_start..payload_start + payload_len];
                let step = match self.up.plan_upload(h.seq, payload) {
                    UploadPlan::Nothing => SegmentStep::Finish,
                    UploadPlan::Write { skip } => SegmentStep::WriteSegment {
                        from: payload_start + skip,
                        to: payload_start + payload_len,
                        seq_end: wadd(h.seq, payload_len as u32),
                    },
                };
                (step, payload_len)
            },
        }
    }

    /// Applies the host's answer to the write of a segment's fresh bytes
    /// (`fresh_len` of them, the segment ending at `seq_end`; see
    /// [`UploadState::apply_upload_write`]). A failed host stream ends the
    /// flow with a RST; a cursor advance with segments parked goes on to
    /// drain them; otherwise the payload is dealt with.
    pub fn after_segment_write(
        &mut self,
        seq_end: u32,
        fresh_len: usize,
        r: HostWrite,
        ctx: &FrameCtx,
    ) -> (step: SegmentStep)
        requires
            old(self).wf(),
            fresh_len <= OOO_REASSEMBLY_CAP,
            r matches HostWrite::Wrote(n) ==> n <= fresh_len,
        ensures
            final(self).wf(),
            final(self).same_config(old(self)),
            final(self).down@ == old(self).down@,
            write_post(old(self).up, final(self).up, seq_end, fresh_len, r, write_result_of(r)),
            match write_result_of(r) {
                UploadResult::Failed => step matches SegmentStep::HostFailed(f) && f@
                    == rst_frame_spec(old(self).addr, *ctx, old(self).down.our_seq, old(self).up.last_ack),
                UploadResult::Advanced => if final(self).up.parked().len() > 0 {
                    step is Drain
                } else {
                    step is Finish
                },
                UploadResult::Held => step is Finish,
            },
    {
        match self.up.apply_upload_write(seq_end, fresh_len, r) {
            UploadResult::Failed => SegmentStep::HostFailed(self.reset_frame(ctx)),
            UploadResult::Advanced => {
                proof {
                    crate::upload::lemma_parked_len(&self.up);
                }
                if self.up.ooo_segs.len() > 0 {
                    SegmentStep::Drain
                } else {
                    SegmentStep::Finish
                }
            },
            UploadResult::Held => SegmentStep::Finish,
        }
    }

    /// Drops parked segments the cursor already covers and asks for the
    /// write of the front one, if no hole precedes it (see
    /// [`UploadState::next_parked_write`]).
    pub fn next_parked(&mut self) -> (step: SegmentStep)
        requires
            old(self).wf(),
        ensures
            final(self).wf(),
            final(self).same_config(old(self)),
            final(self).down@ == old(self).down@,
            (step matches SegmentStep::WriteParked { start } && next_parked_post(
                old(self).up,
                final(self).up,
                Some(start),
            )) || (step is Finish && next_parked_post(old(self).up, final(self).up, None)),
    {
        match self.up.next_parked_write() {
            Some(start) => SegmentStep::WriteParked { start },
            None => SegmentStep::Finish,
        }
    }

    /// Applies the host's answer to the write of the front parked segment
    /// from byte `start` (see [`UploadState::apply_parked_write`]): go on
    /// draining, stop, or end the flow with a RST when the host failed.
    pub fn after_parked_write(&mut self, start: usize, r: HostWrite, ctx: &FrameCtx) -> (step:
        SegmentStep)
        requires
            old(self).wf(),
            old(self).up.parked().len() > 0,
            start == seq_sub(old(self).up.last_ack, old(self).up.parked()[0].0),
            start < old(self).up.parked()[0].1.len(),
            r matches HostWrite::Wrote(n) ==> n <= old(self).up.parked()[0].1.len() - start,
        ensures
            final(self).wf(),
            final(self).same_config(old(self)),
            final(self).down@ == old(self).down@,
            parked_write_post(
                old(self).up,
                final(self).up,
                start,
                r,
                drain_step_of(old(self).up, start, r),
            ),
            match drain_step_of(old(self).up, start, r) {
                DrainStep::Continue => step is Drain,
                DrainStep::Stop => step is Finish,
                DrainStep::Failed => step matches SegmentStep::HostFailed(f) && f@ == rst_frame_spec(
                    old(self).addr,
                    *ctx,
                    old(self).down.our_seq,
                    old(self).up.last_ack,
                ),
            },
    {
        match self.up.apply_parked_write(start, r) {
            DrainStep::Continue => SegmentStep::Drain,
            DrainStep::Stop => SegmentStep::Finish,
            DrainStep::Failed => SegmentStep::HostFailed(self.reset_frame(ctx)),
        }
    }
    /// Applies what the read a poll pass asked for gave: EOF sends our FIN,
    /// data goes out as data frames, nothing to read changes nothing, and
    /// a failed host stream resets the guest and ends the flow (`true`).
    pub fn after_host_read(
        &mut self,
        r: HostRead,
        data: &[u8],
        ctx: &FrameCtx,
        now: u64,
        frames: &mut Vec<Vec<u8>>,
    ) -> (remove: bool)
        requires
            old(self).wf(),
            ctx.wf(),
            r is Data ==> data@.len() <= READ_CHUNK,
        ensures
            final(self).wf(),
            final(self).same_config(old(self)),
            final(self).up == old(self).up,
            remove == (r is Failed),
            match r {
                HostRead::Eof => {
                    &&& final(self).down@ == eof_step(old(self).down@)
                    &&& frames_view(final(frames)@) == frames_view(old(frames)@).push(
                        fin_frame_spec(old(self).addr, *ctx, old(self).down.our_seq, old(self).up.last_ack),
                    )
                },
                HostRead::Data => {
                    &&& final(self).down@ == data_step(old(self).down@, data@, now)
                    &&& frames_view(final(frames)@) == frames_view(old(frames)@) + data_frames_spec(
                        old(self).addr,
                        old(self).peer_mss,
                        *ctx,
                        old(self).up.last_ack,
                        old(self).down.our_seq,
                        data@,
                    )
                },
                HostRead::WouldBlock => {
                    &&& final(self).down@ == old(self).down@
                    &&& final(frames)@ == old(frames)@
                },
                HostRead::Failed => {
                    &&& final(self).down@ == old(self).down@
                    &&& frames_view(final(frames)@) == frames_view(old(frames)@).push(
                        rst_frame_spec(old(self).addr, *ctx, old(self).down.our_seq, old(self).up.last_ack),
                    )
                },
            },
    {
        let last_ack = self.up.last_ack;
        match r {
            HostRead::Eof => {
                self.down.on_host_eof(&self.addr, ctx, last_ack, frames);
                false
            },
            HostRead::Data => {
                self.down.on_host_data(data, &self.addr, self.peer_mss, ctx, last_ack, now, frames);
                false
            },
            HostRead::WouldBlock => false,
            HostRead::Failed => {
                let f = self.reset_frame(ctx);
                proof {
                    lemma_frames_view_push(frames@, f);
                }
                frames.push(f);
                true
            },
        }
    }
}

} // verus!
