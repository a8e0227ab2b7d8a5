//! Host-to-guest (download) half of a fast-path flow.
//!
//! For this direction the shim is the sending TCP: it never sends beyond
//! the guest's advertised receive window (scaled by its SYN window scale,
//! capped at [`HONORED_WINDOW_CAP`]) and it keeps every unacknowledged
//! byte for retransmission (triple duplicate ACK fast retransmit, RTO
//! with backoff otherwise). Times are nanoseconds on a monotonic clock.

use vstd::prelude::*;
use std::collections::VecDeque;
use crate::seqnum::{
    seq_sub, seq_add, wsub, wadd, send_budget, send_budget_spec, lemma_budget_within_window,
    lemma_seq_sub_chain, lemma_seq_add_distance,
};
use crate::upload::{bump, bump_counter};
use crate::flow::{
    FlowAddr, FrameCtx, data_frames_spec, fin_frame_spec, rst_frame_spec, frames_view,
    emit_data_frames, fin_frame, rst_frame, lemma_frames_view_push, flow_params, make_params,
    SHIM_WINDOW, lemma_data_frames_ack_and_checksum, lemma_ctrl_frame_ack_and_checksum,
};
use crate::ethernet::{
    tcp_frame_spec, build_tcp_data_frame, TCP_PSH, TCP_ACK, TCP_FIN, TCP_RST, frame_ack,
    lemma_frame_ack_and_checksum,
};

verus! {

/// Cap on the guest receive window the download path honors.
pub const HONORED_WINDOW_CAP: u32 = 262144;

/// Initial retransmission timeout (200 ms); doubles per retransmission.
pub const INITIAL_RTO: u64 = 200_000_000;

/// Largest retransmission timeout (2 s).
pub const MAX_RTO: u64 = 2_000_000_000;

/// Delay before a zero-window persist probe (200 ms).
pub const ZERO_WINDOW_PERSIST_INTERVAL: u64 = 200_000_000;

/// Idle deadline of a half-closed flow (120 s).
pub const HALF_CLOSE_TIMEOUT: u64 = 120_000_000_000;

/// Give-up deadline for a flow whose guest stays silent while solicited
/// (300 s).
pub const DEAD_FLOW_TIMEOUT: u64 = 300_000_000_000;

/// Most host bytes read per poll of one flow.
pub const READ_CHUNK: usize = 32768;

/// Receive window assumed until the guest's first post-handshake ACK (one
/// unscaled window).
pub const INITIAL_GUEST_WINDOW: u32 = 65535;

/// Time from `since` to `now`, zero if `since` is later.
pub open spec fn elapsed(now: u64, since: u64) -> u64 {
    if now >= since {
        (now - since) as u64
    } else {
        0
    }
}

pub fn elapsed_since(now: u64, since: u64) -> (r: u64)
    ensures
        r == elapsed(now, since),
{
    now.saturating_sub(since)
}

/// A sequence distance that counts as "ahead": strictly positive and less
/// than half the sequence space.
pub open spec fn ahead(d: int) -> bool {
    0 < d < 0x8000_0000
}

/// Download state of a fast-path flow.
pub struct DownloadState {
    /// Next sequence number we send to the guest (SND.NXT).
    pub our_seq: u32,
    /// Highest ACK the guest sent for our stream.
    pub guest_acked: u32,
    /// The guest's most recent receive window, already scaled.
    pub guest_window: u32,
    /// Consecutive duplicate ACKs while data is in flight.
    pub dup_acks: u8,
    /// The duplicate-ACK threshold fired; the next poll retransmits.
    pub fast_retransmit: bool,
    /// Sent, not yet drained bytes, starting at `retransmit_seq`.
    pub retransmit_buf: VecDeque<u8>,
    /// Sequence number of `retransmit_buf[0]`.
    pub retransmit_seq: u32,
    /// Last time the guest's ACK advanced (RTO clock).
    pub last_progress: u64,
    /// Current retransmission timeout.
    pub rto: u64,
    /// Sequence number of our FIN once the host reached EOF.
    pub fin_seq: Option<u32>,
    /// Retransmissions performed.
    pub retransmits: u64,
    /// The flow sits at a zero send budget.
    pub window_stalled: bool,
    /// When the window closed with nothing in flight (persist timer).
    pub window_stalled_at: Option<u64>,
    /// The host stream reached EOF.
    pub host_eof: bool,
    /// Host-to-guest bytes forwarded by this state machine.
    pub down_bytes: u64,
    /// Set while the guest has half-closed: the idle clock of that state.
    pub guest_fin_at: Option<u64>,
    /// Last time any guest frame for the flow arrived.
    pub last_guest_activity: u64,
    /// Start of the current uninterrupted stretch of soliciting.
    pub soliciting_since: Option<u64>,
}

/// [`DownloadState`] as plain values.
pub struct DownModel {
    pub our_seq: u32,
    pub guest_acked: u32,
    pub guest_window: u32,
    pub dup_acks: u8,
    pub fast_retransmit: bool,
    pub retransmit_buf: Seq<u8>,
    pub retransmit_seq: u32,
    pub last_progress: u64,
    pub rto: u64,
    pub fin_seq: Option<u32>,
    pub retransmits: u64,
    pub window_stalled: bool,
    pub window_stalled_at: Option<u64>,
    pub host_eof: bool,
    pub down_bytes: u64,
    pub guest_fin_at: Option<u64>,
    pub last_guest_activity: u64,
    pub soliciting_since: Option<u64>,
}

impl View for DownloadState {
    type V = DownModel;

    open spec fn view(&self) -> DownModel {
        DownModel {
            our_seq: self.our_seq,
            guest_acked: self.guest_acked,
            guest_window: self.guest_window,
            dup_acks: self.dup_acks,
            fast_retransmit: self.fast_retransmit,
            retransmit_buf: self.retransmit_buf@,
            retransmit_seq: self.retransmit_seq,
            last_progress: self.last_progress,
            rto: self.rto,
            fin_seq: self.fin_seq,
            retransmits: self.retransmits,
            window_stalled: self.window_stalled,
            window_stalled_at: self.window_stalled_at,
            host_eof: self.host_eof,
            down_bytes: self.down_bytes,
            guest_fin_at: self.guest_fin_at,
            last_guest_activity: self.last_guest_activity,
            soliciting_since: self.soliciting_since,
        }
    }
}

impl DownModel {
    /// The RTO stays within its backoff range.
    pub open spec fn wf(self) -> bool {
        INITIAL_RTO <= self.rto <= MAX_RTO
    }
}

/// Window scaling of a raw 16-bit TCP window.
pub open spec fn scaled_window(window: u16, wscale: u8) -> u32 {
    (window as u32) << wscale
}

/// Saturating increment of the duplicate-ACK counter.
pub open spec fn dup_inc(n: u8) -> u8 {
    if n < 255 {
        (n + 1) as u8
    } else {
        255
    }
}

/// The ACK `ack` is taken: it does not move backwards and does not cover
/// data past what we sent.
pub open spec fn ack_acceptable(d: DownModel, ack: u32) -> bool {
    let advance = seq_sub(ack, d.guest_acked);
    let beyond = seq_sub(ack, d.our_seq);
    advance < 0x8000_0000 && !ahead(beyond)
}

/// Download bookkeeping for a guest frame carrying the ACK flag: a taken
/// ACK becomes the new acknowledged point and its window (scaled) the new
/// receive window. A pure ACK repeating the acknowledged point and the
/// window while data is in flight is a duplicate ACK; the third triggers
/// fast retransmit. Any advance resets the duplicate count.
pub open spec fn ack_step(
    d: DownModel,
    wscale: u8,
    flags: u8,
    ack: u32,
    window: u16,
    payload_len: int,
) -> DownModel {
    if flags & 0x10 == 0 || !ack_acceptable(d, ack) {
        d
    } else {
        let advance = seq_sub(ack, d.guest_acked);
        let scaled = scaled_window(window, wscale);
        let d1 = if advance == 0 && payload_len == 0 && flags & 0x07 == 0 && scaled
            == d.guest_window {
            if ahead(seq_sub(d.our_seq, ack)) {
                DownModel {
                    dup_acks: dup_inc(d.dup_acks),
                    fast_retransmit: d.fast_retransmit || dup_inc(d.dup_acks) >= 3,
                    ..d
                }
            } else {
                d
            }
        } else if advance > 0 {
            DownModel { dup_acks: 0, ..d }
        } else {
            d
        };
        DownModel { guest_acked: ack, guest_window: scaled, ..d1 }
    }
}

/// Download state right after the handshake at send cursor `our_seq`.
pub open spec fn initial_down(our_seq: u32, now: u64) -> DownModel {
    DownModel {
        our_seq,
        guest_acked: our_seq,
        guest_window: INITIAL_GUEST_WINDOW,
        dup_acks: 0,
        fast_retransmit: false,
        retransmit_buf: Seq::empty(),
        retransmit_seq: our_seq,
        last_progress: now,
        rto: INITIAL_RTO,
        fin_seq: None,
        retransmits: 0,
        window_stalled: false,
        window_stalled_at: None,
        host_eof: false,
        down_bytes: 0,
        guest_fin_at: None,
        last_guest_activity: now,
        soliciting_since: None,
    }
}

impl DownloadState {
    /// Download state right after the handshake at send cursor `our_seq`:
    /// nothing in flight, one unscaled window assumed, clocks at `now`.
    pub fn new(our_seq: u32, now: u64) -> (s: Self)
        ensures
            s@.wf(),
            s@ == initial_down(our_seq, now),
    {
        DownloadState {
            our_seq,
            guest_acked: our_seq,
            guest_window: INITIAL_GUEST_WINDOW,
            dup_acks: 0,
            fast_retransmit: false,
            retransmit_buf: VecDeque::new(),
            retransmit_seq: our_seq,
            last_progress: now,
            rto: INITIAL_RTO,
            fin_seq: None,
            retransmits: 0,
            window_stalled: false,
            window_stalled_at: None,
            host_eof: false,
            down_bytes: 0,
            guest_fin_at: None,
            last_guest_activity: now,
            soliciting_since: None,
        }
    }

    /// Applies the ACK bookkeeping of a guest frame (see [`ack_step`]).
    pub fn on_guest_ack(&mut self, wscale: u8, flags: u8, ack: u32, window: u16, payload_len: usize)
        requires
            wscale < 32,
        ensures
            final(self)@ == ack_step(old(self)@, wscale, flags, ack, window, payload_len as int),
    {
        if flags & 0x10 == 0 {
            return;
        }
        let advance = wsub(ack, self.guest_acked);
        let beyond = wsub(ack, self.our_seq);
        if advance >= 0x8000_0000 || (beyond != 0 && beyond < 0x8000_0000) {
            return;
        }
        let scaled: u32 = (window as u32) << wscale;
        if advance == 0 && payload_len == 0 && flags & 0x07 == 0 && scaled == self.guest_window {
            let in_flight = wsub(self.our_seq, ack);
            if in_flight > 0 && in_flight < 0x8000_0000 {
                self.dup_acks = if self.dup_acks < 255 {
                    self.dup_acks + 1
                } else {
                    255
                };
                if self.dup_acks >= 3 {
                    self.fast_retransmit = true;
                }
            }
        } else if advance > 0 {
            self.dup_acks = 0;
        }
        self.guest_acked = ack;
        self.guest_window = scaled;
    }
}

/// What a poll pass asks of the driver for one flow.
#[derive(Clone, Copy, PartialEq, Eq, Debug)]
pub enum PollAction {
    /// Remove the flow (after sending the frames produced).
    Remove,
    /// Nothing to read this pass.
    Idle,
    /// Read at most this many bytes from the host stream.
    Read(usize),
}

/// What a read of the host stream gave.
#[derive(Clone, Copy, PartialEq, Eq, Debug)]
pub enum HostRead {
    /// The host closed its write side (a read of zero bytes).
    Eof,
    /// Some bytes arrived.
    Data,
    /// Nothing to read right now.
    WouldBlock,
    /// Any other error: the host stream is dead.
    Failed,
}

/// A half-closed flow is finished: the host has EOF'd and the guest ACKed
/// our FIN, or the half-close sat idle for [`HALF_CLOSE_TIMEOUT`].
pub open spec fn half_close_reap(d: DownModel, now: u64) -> bool {
    match d.guest_fin_at {
        None => false,
        Some(fin_at) => (d.host_eof && match d.fin_seq {
            Some(f) => ahead(seq_sub(d.guest_acked, f)),
            None => false,
        }) || elapsed(now, fin_at) >= HALF_CLOSE_TIMEOUT,
    }
}

/// Releases the acknowledged prefix of a retransmission buffer starting at
/// `base`: how many bytes go.
pub open spec fn drain_count(acked: u32, base: u32, len: nat) -> int {
    let drained = seq_sub(acked, base);
    if drained < len {
        drained
    } else {
        len as int
    }
}

/// ACK progress releases the acknowledged prefix of the retransmission
/// buffer and resets the loss-recovery clocks.
pub open spec fn drain_step(d: DownModel, now: u64) -> DownModel {
    if ahead(seq_sub(d.guest_acked, d.retransmit_seq)) {
        let n = drain_count(d.guest_acked, d.retransmit_seq, d.retransmit_buf.len());
        DownModel {
            retransmit_buf: d.retransmit_buf.subrange(n, d.retransmit_buf.len() as int),
            retransmit_seq: d.guest_acked,
            last_progress: now,
            rto: INITIAL_RTO,
            dup_acks: 0,
            ..d
        }
    } else {
        d
    }
}

/// Tracks the start of the current stretch of soliciting a guest reply.
pub open spec fn solicit_step(d: DownModel, soliciting: bool, now: u64) -> DownModel {
    if !soliciting {
        DownModel { soliciting_since: None, ..d }
    } else if d.soliciting_since is None {
        DownModel { soliciting_since: Some(now), ..d }
    } else {
        d
    }
}

/// The guest has been solicited and silent for `timeout`: it is gone.
pub open spec fn dead_flow_due(d: DownModel, now: u64, timeout: u64) -> bool {
    match d.soliciting_since {
        Some(since) => elapsed(now, since) >= timeout && elapsed(now, d.last_guest_activity)
            >= timeout,
        None => false,
    }
}

/// A retransmission fires: duplicate-ACK threshold reached or RTO expired.
pub open spec fn retransmit_due(d: DownModel, now: u64) -> bool {
    d.fast_retransmit || elapsed(now, d.last_progress) >= d.rto
}

/// Doubled RTO, capped at [`MAX_RTO`].
pub open spec fn backoff(rto: u64) -> u64 {
    if rto * 2 < MAX_RTO {
        (rto * 2) as u64
    } else {
        MAX_RTO
    }
}

/// Bookkeeping after a retransmission.
pub open spec fn retransmitted(d: DownModel, now: u64) -> DownModel {
    DownModel {
        fast_retransmit: false,
        dup_acks: 0,
        retransmits: bump(d.retransmits, 1),
        last_progress: now,
        rto: backoff(d.rto),
        ..d
    }
}

/// Nothing in flight: the RTO clock stays parked at `now`.
pub open spec fn idle_clock(d: DownModel, now: u64) -> DownModel {
    DownModel { last_progress: now, fast_retransmit: false, ..d }
}

/// End of the resent data: the buffer's end, or the committed sequence
/// space `sent`, whichever comes first.
pub open spec fn resend_end(offset: int, in_flight: int, len: nat) -> int {
    if offset + in_flight < len {
        offset + in_flight
    } else {
        len as int
    }
}

/// Frames of a retransmission from the guest's ACK point `acked`: the
/// buffered bytes from there (never beyond the committed sequence space
/// `sent`), then the FIN when it was sent and is still unacknowledged.
pub open spec fn resend_frames(
    a: FlowAddr,
    peer_mss: u16,
    ctx: FrameCtx,
    last_ack: u32,
    buf: Seq<u8>,
    base: u32,
    fin_seq: Option<u32>,
    sent: u32,
    acked: u32,
) -> Seq<Seq<u8>> {
    let offset = seq_sub(acked, base);
    let data = if offset < buf.len() {
        data_frames_spec(
            a,
            peer_mss,
            ctx,
            last_ack,
            acked,
            buf.subrange(offset, resend_end(offset, seq_sub(sent, acked), buf.len())),
        )
    } else {
        Seq::empty()
    };
    let fin = match fin_seq {
        Some(f) => if seq_sub(sent, f) < 0x8000_0000 && seq_sub(f, acked) < 0x8000_0000 {
            seq![fin_frame_spec(a, ctx, f, last_ack)]
        } else {
            Seq::empty()
        },
        None => Seq::empty(),
    };
    data + fin
}

/// Appends the frames of [`resend_frames`] to `frames`.
pub fn resend(
    a: &FlowAddr,
    peer_mss: u16,
    ctx: &FrameCtx,
    last_ack: u32,
    buf: &VecDeque<u8>,
    base: u32,
    fin_seq: Option<u32>,
    sent: u32,
    acked: u32,
    frames: &mut Vec<Vec<u8>>,
)
    requires
        ctx.wf(),
        ahead(seq_sub(sent, acked)),
    ensures
        frames_view(final(frames)@) == frames_view(old(frames)@) + resend_frames(
            *a,
            peer_mss,
            *ctx,
            last_ack,
            buf@,
            base,
            fin_seq,
            sent,
            acked,
        ),
{
    let offset = wsub(acked, base) as usize;
    let ghost start = frames_view(frames@);
    let len = buf.len();
    if offset < len {
        let in_flight = wsub(sent, acked) as usize;
        let end: usize = if in_flight < len - offset {
            offset + in_flight
        } else {
            len
        };
        let mut data: Vec<u8> = Vec::new();
        let mut i: usize = offset;
        while i < end
            invariant
                offset <= i <= end <= len,
                len == buf@.len(),
                data@ == buf@.subrange(offset as int, i as int),
            decreases end - i,
        {
            data.push(buf[i]);
            i = i + 1;
            proof {
                assert(data@ =~= buf@.subrange(offset as int, i as int));
            }
        }
        emit_data_frames(ctx, a, peer_mss, last_ack, acked, data.as_slice(), frames);
    }
    let ghost mid = frames_view(frames@);
    if let Some(f) = fin_seq {
        if wsub(sent, f) < 0x8000_0000 && wsub(f, acked) < 0x8000_0000 {
            let fr = fin_frame(a, ctx, f, last_ack);
            proof {
                lemma_frames_view_push(frames@, fr);
            }
            frames.push(fr);
        }
    }
    proof {
        assert(frames_view(frames@) =~= frames_view(old(frames)@) + resend_frames(
            *a,
            peer_mss,
            *ctx,
            last_ack,
            buf@,
            base,
            fin_seq,
            sent,
            acked,
        ));
    }
}

/// The send budget under the honored window cap.
pub open spec fn capped_budget(d: DownModel) -> u32 {
    let window = if d.guest_window < HONORED_WINDOW_CAP {
        d.guest_window
    } else {
        HONORED_WINDOW_CAP
    };
    send_budget_spec(d.our_seq, d.guest_acked, window)
}

/// Nothing of ours is unacknowledged (or the snapshot has the ACK ahead).
pub open spec fn nothing_in_flight(d: DownModel) -> bool {
    !ahead(seq_sub(d.our_seq, d.guest_acked))
}

/// How much to read from the host this pass: the send budget (at most
/// [`READ_CHUNK`]); at a zero budget nothing, except one byte past a
/// window that has stayed closed with nothing in flight for
/// [`ZERO_WINDOW_PERSIST_INTERVAL`] (a persist probe). Tracks the stall.
pub open spec fn read_plan(d: DownModel, now: u64) -> (DownModel, PollAction) {
    let budget = capped_budget(d);
    if budget == 0 {
        let d1 = if !d.window_stalled {
            DownModel { window_stalled: true, window_stalled_at: Some(now), ..d }
        } else {
            d
        };
        let due = match d1.window_stalled_at {
            Some(at) => elapsed(now, at) >= ZERO_WINDOW_PERSIST_INTERVAL,
            None => false,
        };
        if nothing_in_flight(d) && due {
            (DownModel { window_stalled_at: Some(now), ..d1 }, PollAction::Read(1))
        } else {
            (d1, PollAction::Idle)
        }
    } else {
        let d1 = if d.window_stalled {
            DownModel { window_stalled: false, window_stalled_at: None, ..d }
        } else {
            d
        };
        let cap = if budget < READ_CHUNK {
            budget as usize
        } else {
            READ_CHUNK
        };
        (d1, PollAction::Read(cap))
    }
}

/// One poll pass over a flow whose host stream this state machine reads:
/// reap a finished half-close; release ACKed bytes; give up on a guest
/// that stayed silent while solicited (RST); retransmit on duplicate ACKs
/// or RTO; then plan the host read (see [`read_plan`]).
pub open spec fn poll_spec(
    d: DownModel,
    a: FlowAddr,
    peer_mss: u16,
    ctx: FrameCtx,
    last_ack: u32,
    now: u64,
    timeout: u64,
) -> (DownModel, Seq<Seq<u8>>, PollAction) {
    if half_close_reap(d, now) {
        (d, Seq::empty(), PollAction::Remove)
    } else {
        let d1 = drain_step(d, now);
        let in_flight = seq_sub(d1.our_seq, d1.guest_acked);
        let d2 = solicit_step(d1, ahead(in_flight) || d1.window_stalled_at is Some, now);
        if dead_flow_due(d2, now, timeout) {
            (d2, seq![rst_frame_spec(a, ctx, d2.our_seq, last_ack)], PollAction::Remove)
        } else {
            let (d3, fr) = if ahead(in_flight) {
                if retransmit_due(d2, now) {
                    (
                        retransmitted(d2, now),
                        resend_frames(
                            a,
                            peer_mss,
                            ctx,
                            last_ack,
                            d2.retransmit_buf,
                            d2.retransmit_seq,
                            d2.fin_seq,
                            d2.our_seq,
                            d2.guest_acked,
                        ),
                    )
                } else {
                    (d2, Seq::empty())
                }
            } else {
                (idle_clock(d2, now), Seq::empty())
            };
            if d3.host_eof {
                (d3, fr, PollAction::Idle)
            } else {
                let (d4, act) = read_plan(d3, now);
                (d4, fr, act)
            }
        }
    }
}

impl DownloadState {
    fn drain_acked(&mut self, now: u64)
        ensures
            final(self)@ == drain_step(old(self)@, now),
    {
        let drained = wsub(self.guest_acked, self.retransmit_seq);
        if drained > 0 && drained < 0x8000_0000 {
            let len = self.retransmit_buf.len();
            let n: usize = if (drained as usize) < len {
                drained as usize
            } else {
                len
            };
            let rest = self.retransmit_buf.split_off(n);
            self.retransmit_buf = rest;
            self.retransmit_seq = self.guest_acked;
            self.last_progress = now;
            self.rto = INITIAL_RTO;
            self.dup_acks = 0;
        }
    }

    fn update_soliciting(&mut self, soliciting: bool, now: u64)
        ensures
            final(self)@ == solicit_step(old(self)@, soliciting, now),
    {
        if !soliciting {
            self.soliciting_since = None;
        } else if self.soliciting_since.is_none() {
            self.soliciting_since = Some(now);
        }
    }

    fn dead_flow(&self, now: u64, timeout: u64) -> (r: bool)
        ensures
            r == dead_flow_due(self@, now, timeout),
    {
        match self.soliciting_since {
            Some(since) => elapsed_since(now, since) >= timeout && elapsed_since(
                now,
                self.last_guest_activity,
            ) >= timeout,
            None => false,
        }
    }

    fn note_retransmit(&mut self, now: u64)
        requires
            old(self)@.wf(),
        ensures
            final(self)@ == retransmitted(old(self)@, now),
            final(self)@.wf(),
    {
        self.fast_retransmit = false;
        self.dup_acks = 0;
        self.retransmits = bump_counter(self.retransmits, 1);
        self.last_progress = now;
        self.rto = if self.rto * 2 < MAX_RTO {
            self.rto * 2
        } else {
            MAX_RTO
        };
    }

    fn plan_read(&mut self, now: u64) -> (act: PollAction)
        ensures
            (final(self)@, act) == read_plan(old(self)@, now),
    {
        let window = if self.guest_window < HONORED_WINDOW_CAP {
            self.guest_window
        } else {
            HONORED_WINDOW_CAP
        };
        let budget = send_budget(self.our_seq, self.guest_acked, window);
        if budget == 0 {
            if !self.window_stalled {
                self.window_stalled = true;
                self.window_stalled_at = Some(now);
            }
            let in_flight = wsub(self.our_seq, self.guest_acked);
            let nothing = in_flight == 0 || in_flight >= 0x8000_0000;
            let due = match self.window_stalled_at {
                Some(at) => elapsed_since(now, at) >= ZERO_WINDOW_PERSIST_INTERVAL,
                None => false,
            };
            if nothing && due {
                self.window_stalled_at = Some(now);
                PollAction::Read(1)
            } else {
                PollAction::Idle
            }
        } else {
            if self.window_stalled {
                self.window_stalled = false;
                self.window_stalled_at = None;
            }
            PollAction::Read(
                if (budget as usize) < READ_CHUNK {
                    budget as usize
                } else {
                    READ_CHUNK
                },
            )
        }
    }

    /// One poll pass (see [`poll_spec`]); the frames to send go to
    /// `frames`. The driver then performs the read the action asks for and
    /// reports it with [`Self::on_host_data`], [`Self::on_host_eof`] or,
    /// on a failure, sends [`crate::flow::rst_frame`] and removes the flow.
    pub fn poll(
        &mut self,
        a: &FlowAddr,
        peer_mss: u16,
        ctx: &FrameCtx,
        last_ack: u32,
        now: u64,
        timeout: u64,
        frames: &mut Vec<Vec<u8>>,
    ) -> (act: PollAction)
        requires
            old(self)@.wf(),
            ctx.wf(),
        ensures
            final(self)@.wf(),
            ({
                let (d, fr, act2) = poll_spec(old(self)@, *a, peer_mss, *ctx, last_ack, now, timeout);
                &&& final(self)@ == d
                &&& frames_view(final(frames)@) == frames_view(old(frames)@) + fr
                &&& act == act2
            }),
    {
        let ghost d0 = self@;
        let ghost f0 = frames_view(frames@);
        if let Some(fin_at) = self.guest_fin_at {
            if self.host_eof {
                if let Some(f) = self.fin_seq {
                    let past = wsub(self.guest_acked, f);
                    if past > 0 && past < 0x8000_0000 {
                        return PollAction::Remove;
                    }
                }
            }
            if elapsed_since(now, fin_at) >= HALF_CLOSE_TIMEOUT {
                return PollAction::Remove;
            }
        }
        self.drain_acked(now);
        let acked = self.guest_acked;
        let sent = self.our_seq;
        let in_flight = wsub(sent, acked);
        let ahead_now = in_flight > 0 && in_flight < 0x8000_0000;
        self.update_soliciting(ahead_now || self.window_stalled_at.is_some(), now);
        if self.dead_flow(now, timeout) {
            let r = rst_frame(a, ctx, sent, last_ack);
            proof {
                lemma_frames_view_push(frames@, r);
            }
            frames.push(r);
            return PollAction::Remove;
        }
        let ghost d2 = self@;
        if ahead_now {
            if self.fast_retransmit || elapsed_since(now, self.last_progress) >= self.rto {
                resend(
                    a,
                    peer_mss,
                    ctx,
                    last_ack,
                    &self.retransmit_buf,
                    self.retransmit_seq,
                    self.fin_seq,
                    sent,
                    acked,
                    frames,
                );
                self.note_retransmit(now);
            }
        } else {
            self.last_progress = now;
            self.fast_retransmit = false;
        }
        if self.host_eof {
            return PollAction::Idle;
        }
        self.plan_read(now)
    }
}

/// Appends `data` to the back of `buf`.
pub fn append_bytes(buf: &mut VecDeque<u8>, data: &[u8])
    ensures
        final(buf)@ == old(buf)@ + data@,
{
    let n = data.len();
    let mut i: usize = 0;
    while i < n
        invariant
            n == data@.len(),
            i <= n,
            buf@ == old(buf)@ + data@.subrange(0, i as int),
        decreases n - i,
    {
        buf.push_back(data[i]);
        i = i + 1;
        proof {
            assert(buf@ =~= old(buf)@ + data@.subrange(0, i as int));
        }
    }
    proof {
        assert(data@.subrange(0, n as int) =~= data@);
    }
}

/// The host reached EOF: our FIN goes out at the send cursor and takes one
/// sequence number; its position is kept for retransmission.
pub open spec fn eof_step(d: DownModel) -> DownModel {
    DownModel { host_eof: true, fin_seq: Some(d.our_seq), our_seq: seq_add(d.our_seq, 1), ..d }
}

/// The host delivered `data`: it is kept for retransmission and takes its
/// sequence space; host-to-guest progress refreshes a half-close's idle
/// clock.
pub open spec fn data_step(d: DownModel, data: Seq<u8>, now: u64) -> DownModel {
    DownModel {
        down_bytes: bump(d.down_bytes, data.len() as u64),
        guest_fin_at: if d.guest_fin_at is Some {
            Some(now)
        } else {
            None
        },
        retransmit_buf: d.retransmit_buf + data,
        our_seq: seq_add(d.our_seq, data.len() as int),
        ..d
    }
}

impl DownloadState {
    /// Host EOF (see [`eof_step`]); the FIN frame goes to `frames`.
    pub fn on_host_eof(
        &mut self,
        a: &FlowAddr,
        ctx: &FrameCtx,
        last_ack: u32,
        frames: &mut Vec<Vec<u8>>,
    )
        requires
            old(self)@.wf(),
        ensures
            final(self)@.wf(),
            final(self)@ == eof_step(old(self)@),
            frames_view(final(frames)@) == frames_view(old(frames)@).push(
                fin_frame_spec(*a, *ctx, old(self).our_seq, last_ack),
            ),
    {
        self.host_eof = true;
        let seq_now = self.our_seq;
        let fr = fin_frame(a, ctx, seq_now, last_ack);
        self.fin_seq = Some(seq_now);
        self.our_seq = wadd(seq_now, 1);
        proof {
            lemma_frames_view_push(frames@, fr);
        }
        frames.push(fr);
    }

    /// Host data (see [`data_step`]); its data frames go to `frames`.
    pub fn on_host_data(
        &mut self,
        data: &[u8],
        a: &FlowAddr,
        peer_mss: u16,
        ctx: &FrameCtx,
        last_ack: u32,
        now: u64,
        frames: &mut Vec<Vec<u8>>,
    )
        requires
            old(self)@.wf(),
            ctx.wf(),
            data@.len() <= READ_CHUNK,
        ensures
            final(self)@.wf(),
            final(self)@ == data_step(old(self)@, data@, now),
            frames_view(final(frames)@) == frames_view(old(frames)@) + data_frames_spec(
                *a,
                peer_mss,
                *ctx,
                last_ack,
                old(self).our_seq,
                data@,
            ),
    {
        let n = data.len();
        self.down_bytes = bump_counter(self.down_bytes, n as u64);
        if self.guest_fin_at.is_some() {
            self.guest_fin_at = Some(now);
        }
        let seq_now = self.our_seq;
        append_bytes(&mut self.retransmit_buf, data);
        emit_data_frames(ctx, a, peer_mss, last_ack, seq_now, data, frames);
        self.our_seq = wadd(seq_now, n as u32);
    }
}

/// Retransmission ring shared between an inline owner, which sends on the
/// flow's behalf and records what it sent, and the flow's poll, which
/// releases acknowledged bytes and re-emits lost ones.
pub struct RetxRing {
    /// Sequence number of `buf[0]`.
    pub base: u32,
    /// Sent, not yet released bytes.
    pub buf: VecDeque<u8>,
    /// Position of the owner's FIN once sent.
    pub fin_seq: Option<u32>,
}

/// [`RetxRing`] as plain values.
pub struct RingModel {
    pub base: u32,
    pub buf: Seq<u8>,
    pub fin_seq: Option<u32>,
}

impl View for RetxRing {
    type V = RingModel;

    open spec fn view(&self) -> RingModel {
        RingModel { base: self.base, buf: self.buf@, fin_seq: self.fin_seq }
    }
}

impl RetxRing {
    /// An empty ring whose first byte will have sequence number `base`.
    pub fn new(base: u32) -> (r: Self)
        ensures
            r@ == (RingModel { base, buf: Seq::empty(), fin_seq: None }),
    {
        RetxRing { base, buf: VecDeque::new(), fin_seq: None }
    }

    /// Records bytes the owner sent.
    pub fn tee(&mut self, data: &[u8])
        ensures
            final(self)@ == (RingModel { buf: old(self)@.buf + data@, ..old(self)@ }),
    {
        append_bytes(&mut self.buf, data);
    }

    /// Records the position of the owner's FIN.
    pub fn record_fin(&mut self, seq: u32)
        ensures
            final(self)@ == (RingModel { fin_seq: Some(seq), ..old(self)@ }),
    {
        self.fin_seq = Some(seq);
    }
}

/// The one-byte zero-window probe: an old duplicate byte at `sent - 1`
/// that a zero-window guest must answer with a window-bearing ACK.
pub open spec fn probe_frame_spec(a: FlowAddr, ctx: FrameCtx, sent: u32, last_ack: u32) -> Seq<u8> {
    tcp_frame_spec(
        flow_params(a, ctx.gw_mac, ctx.guest_mac, seq_add(sent, -1), last_ack, SHIM_WINDOW),
        TCP_PSH | TCP_ACK,
        seq![0u8],
        true,
    )
}

/// Releases the acknowledged prefix of the shared ring.
pub open spec fn ring_drain(d: DownModel, r: RingModel, now: u64) -> (DownModel, RingModel) {
    if ahead(seq_sub(d.guest_acked, r.base)) {
        let n = drain_count(d.guest_acked, r.base, r.buf.len());
        (
            DownModel { last_progress: now, rto: INITIAL_RTO, dup_acks: 0, ..d },
            RingModel {
                base: d.guest_acked,
                buf: r.buf.subrange(n, r.buf.len() as int),
                ..r
            },
        )
    } else {
        (d, r)
    }
}

/// Zero-window persist of an inline flow: with a zero budget and nothing
/// in flight the stall clock starts, and every
/// [`ZERO_WINDOW_PERSIST_INTERVAL`] a probe goes out; otherwise the clock
/// is cleared.
pub open spec fn inline_persist(
    d: DownModel,
    stalled: bool,
    a: FlowAddr,
    ctx: FrameCtx,
    last_ack: u32,
    now: u64,
) -> (DownModel, Seq<Seq<u8>>) {
    if stalled {
        match d.window_stalled_at {
            None => (DownModel { window_stalled_at: Some(now), ..d }, Seq::empty()),
            Some(at) => if elapsed(now, at) >= ZERO_WINDOW_PERSIST_INTERVAL {
                (
                    DownModel { window_stalled_at: Some(now), ..d },
                    seq![probe_frame_spec(a, ctx, d.our_seq, last_ack)],
                )
            } else {
                (d, Seq::empty())
            },
        }
    } else {
        (DownModel { window_stalled_at: None, ..d }, Seq::empty())
    }
}

/// One poll pass over a flow whose host stream an inline owner reads:
/// reap it when the owner marked it dead; give up on a guest that stayed
/// silent while solicited (RST); release ACKed ring bytes; retransmit from
/// the ring on duplicate ACKs or RTO; probe a closed window. The result's
/// last component says whether to remove the flow.
pub open spec fn inline_poll_spec(
    d: DownModel,
    r: RingModel,
    dead: bool,
    a: FlowAddr,
    peer_mss: u16,
    ctx: FrameCtx,
    last_ack: u32,
    now: u64,
    timeout: u64,
) -> (DownModel, RingModel, Seq<Seq<u8>>, bool) {
    if dead {
        (d, r, Seq::empty(), true)
    } else {
        let nothing = nothing_in_flight(d);
        let d1 = solicit_step(d, !nothing || d.window_stalled_at is Some, now);
        if dead_flow_due(d1, now, timeout) {
            (d1, r, seq![rst_frame_spec(a, ctx, d.our_seq, last_ack)], true)
        } else {
            let (d2, r2) = ring_drain(d1, r, now);
            let (d3, fr) = if !nothing {
                if retransmit_due(d2, now) {
                    (
                        retransmitted(d2, now),
                        resend_frames(
                            a,
                            peer_mss,
                            ctx,
                            last_ack,
                            r2.buf,
                            r2.base,
                            r2.fin_seq,
                            d.our_seq,
                            d.guest_acked,
                        ),
                    )
                } else {
                    (d2, Seq::empty())
                }
            } else {
                (idle_clock(d2, now), Seq::empty())
            };
            let (d4, probe) = inline_persist(
                d3,
                capped_budget(d) == 0 && nothing,
                a,
                ctx,
                last_ack,
                now,
            );
            (d4, r2, fr + probe, false)
        }
    }
}

impl DownloadState {
    /// One poll pass over an inline flow (see [`inline_poll_spec`]);
    /// `our_seq` must hold the owner's current send cursor. Returns whether
    /// to remove the flow.
    #[verifier::rlimit(40)]
    pub fn poll_inline(
        &mut self,
        ring: &mut RetxRing,
        dead: bool,
        a: &FlowAddr,
        peer_mss: u16,
        ctx: &FrameCtx,
        last_ack: u32,
        now: u64,
        timeout: u64,
        frames: &mut Vec<Vec<u8>>,
    ) -> (remove: bool)
        requires
            old(self)@.wf(),
            ctx.wf(),
        ensures
            final(self)@.wf(),
            ({
                let (d, r, fr, rm) = inline_poll_spec(
                    old(self)@,
                    old(ring)@,
                    dead,
                    *a,
                    peer_mss,
                    *ctx,
                    last_ack,
                    now,
                    timeout,
                );
                &&& final(self)@ == d
                &&& final(ring)@ == r
                &&& frames_view(final(frames)@) == frames_view(old(frames)@) + fr
                &&& remove == rm
            }),
    {
        if dead {
            return true;
        }
        let ghost d0 = self@;
        let sent = self.our_seq;
        let acked = self.guest_acked;
        let window = if self.guest_window < HONORED_WINDOW_CAP {
            self.guest_window
        } else {
            HONORED_WINDOW_CAP
        };
        let in_flight = wsub(sent, acked);
        let nothing = in_flight == 0 || in_flight >= 0x8000_0000;
        self.update_soliciting(!nothing || self.window_stalled_at.is_some(), now);
        if self.dead_flow(now, timeout) {
            let r = rst_frame(a, ctx, sent, last_ack);
            proof {
                lemma_frames_view_push(frames@, r);
            }
            frames.push(r);
            return true;
        }
        let drained = wsub(acked, ring.base);
        if drained > 0 && drained < 0x8000_0000 {
            let len = ring.buf.len();
            let n: usize = if (drained as usize) < len {
                drained as usize
            } else {
                len
            };
            let rest = ring.buf.split_off(n);
            ring.buf = rest;
            ring.base = acked;
            self.last_progress = now;
            self.rto = INITIAL_RTO;
            self.dup_acks = 0;
        }
        let ghost f1 = frames_view(frames@);
        if !nothing {
            if self.fast_retransmit || elapsed_since(now, self.last_progress) >= self.rto {
                resend(a, peer_mss, ctx, last_ack, &ring.buf, ring.base, ring.fin_seq, sent, acked, frames);
                self.note_retransmit(now);
            }
        } else {
            self.last_progress = now;
            self.fast_retransmit = false;
        }
        if send_budget(sent, acked, window) == 0 && nothing {
            match self.window_stalled_at {
                None => {
                    self.window_stalled_at = Some(now);
                },
                Some(at) => {
                    if elapsed_since(now, at) >= ZERO_WINDOW_PERSIST_INTERVAL {
                        self.window_stalled_at = Some(now);
                        let p = make_params(a, ctx.gw_mac, ctx.guest_mac, wsub(sent, 1), last_ack, SHIM_WINDOW);
                        let probe: [u8; 1] = [0u8];
                        proof {
                            assert(probe@ =~= seq![0u8]);
                        }
                        let fr = build_tcp_data_frame(&p, &probe);
                        proof {
                            lemma_frames_view_push(frames@, fr);
                        }
                        frames.push(fr);
                    }
                },
            }
        } else {
            self.window_stalled_at = None;
        }
        proof {
            let (d, r, fr, rm) = inline_poll_spec(d0, old(ring)@, dead, *a, peer_mss, *ctx, last_ack, now, timeout);
            assert(frames_view(frames@) =~= frames_view(old(frames)@) + fr);
        }
        false
    }
}

/// The guest window the download path honors.
pub open spec fn capped_window(d: DownModel) -> u32 {
    if d.guest_window < HONORED_WINDOW_CAP {
        d.guest_window
    } else {
        HONORED_WINDOW_CAP
    }
}

/// An ACK never moves the acknowledged point backwards nor past what we
/// sent, and never touches the send cursor.
pub proof fn lemma_ack_monotone(
    d: DownModel,
    wscale: u8,
    flags: u8,
    ack: u32,
    window: u16,
    payload_len: int,
)
    ensures
        ({
            let d2 = ack_step(d, wscale, flags, ack, window, payload_len);
            &&& seq_sub(d2.guest_acked, d.guest_acked) < 0x8000_0000
            &&& d2.our_seq == d.our_seq
            &&& d2.guest_acked != d.guest_acked ==> !ahead(seq_sub(d2.guest_acked, d2.our_seq))
        }),
{
}

/// Three duplicate ACKs (same acknowledged point, same window, no payload,
/// plain ACK) while data is in flight trigger fast retransmit.
pub proof fn lemma_third_duplicate_ack_fires(d: DownModel, wscale: u8, window: u16)
    requires
        d.dup_acks == 0,
        scaled_window(window, wscale) == d.guest_window,
        ahead(seq_sub(d.our_seq, d.guest_acked)),
    ensures
        ({
            let ack = d.guest_acked;
            let d1 = ack_step(d, wscale, 0x10, ack, window, 0);
            let d2 = ack_step(d1, wscale, 0x10, ack, window, 0);
            let d3 = ack_step(d2, wscale, 0x10, ack, window, 0);
            &&& !d1.fast_retransmit || d.fast_retransmit
            &&& d3.fast_retransmit
        }),
{
    let ack = d.guest_acked;
    assert(0x10u8 & 0x10 != 0 && 0x10u8 & 0x07 == 0) by (bit_vector);
    assert(!ahead(seq_sub(ack, d.our_seq)));
}

/// A retransmission resends bytes only inside the committed sequence
/// space: from the ACK point `acked`, at most `sent - acked` of them.
pub proof fn lemma_resend_within_sent(buf: Seq<u8>, base: u32, sent: u32, acked: u32)
    requires
        seq_sub(acked, base) < buf.len(),
    ensures
        ({
            let offset = seq_sub(acked, base);
            let end = resend_end(offset, seq_sub(sent, acked), buf.len());
            &&& offset <= end <= buf.len()
            &&& end - offset <= seq_sub(sent, acked)
        }),
{
}

/// Whatever a poll pass asks to read keeps the bytes in flight within the
/// honored guest window, except the one-byte persist probe sent when the
/// window is closed and nothing is in flight.
pub proof fn lemma_poll_read_within_window(
    d: DownModel,
    a: FlowAddr,
    peer_mss: u16,
    ctx: FrameCtx,
    last_ack: u32,
    now: u64,
    timeout: u64,
    n: int,
)
    requires
        seq_sub(d.our_seq, d.guest_acked) < 0x8000_0000,
        poll_spec(d, a, peer_mss, ctx, last_ack, now, timeout).2 matches PollAction::Read(cap)
            && 0 <= n <= cap,
    ensures
        seq_sub(d.our_seq, d.guest_acked) + n <= capped_window(d) || (seq_sub(
            d.our_seq,
            d.guest_acked,
        ) == 0 && n <= 1),
{
    lemma_budget_within_window(d.our_seq, d.guest_acked, capped_window(d));
}

/// The window has stayed closed with nothing sent into it for
/// [`ZERO_WINDOW_PERSIST_INTERVAL`]: a persist probe is due.
pub open spec fn persist_probe_due(d: DownModel, now: u64) -> bool {
    &&& d.window_stalled
    &&& d.window_stalled_at matches Some(at) && elapsed(now, at) >= ZERO_WINDOW_PERSIST_INTERVAL
}

/// Across a poll pass and the host read it asks for, the send cursor moves
/// only by what the read delivered: a poll pass leaves it where it was; the
/// bytes read advance it by exactly their number, which is at most the send
/// budget under the honored window, or, at a zero budget, the one-byte
/// persist probe, sent only when nothing is in flight and the probe is due;
/// a host EOF advances it by one (our FIN).
pub proof fn lemma_poll_then_read_advance(
    d: DownModel,
    a: FlowAddr,
    peer_mss: u16,
    ctx: FrameCtx,
    last_ack: u32,
    now: u64,
    timeout: u64,
    data: Seq<u8>,
    later: u64,
)
    ensures
        ({
            let p = poll_spec(d, a, peer_mss, ctx, last_ack, now, timeout);
            &&& p.0.our_seq == d.our_seq
            &&& p.2 matches PollAction::Read(cap) ==> (data.len() <= cap ==> (seq_sub(
                data_step(p.0, data, later).our_seq,
                d.our_seq,
            ) == data.len() && seq_sub(eof_step(p.0).our_seq, d.our_seq) == 1 && (data.len()
                <= capped_budget(d) || data.len() <= 1)))
            &&& p.2 is Read && capped_budget(d) == 0 ==> nothing_in_flight(d) && persist_probe_due(
                d,
                now,
            )
        }),
{
    let p = poll_spec(d, a, peer_mss, ctx, last_ack, now, timeout);
    lemma_poll_cursors(d, a, peer_mss, ctx, last_ack, now, timeout);
    if p.2 is Read && data.len() <= p.2->Read_0 {
        lemma_seq_add_distance(d.our_seq, data.len() as int);
        lemma_seq_add_distance(d.our_seq, 1);
    }
}

/// A quiescent flow (nothing in flight, window open, not half-closed) is
/// never reaped, however long the guest stays silent.
pub proof fn lemma_quiescent_flow_kept(
    d: DownModel,
    a: FlowAddr,
    peer_mss: u16,
    ctx: FrameCtx,
    last_ack: u32,
    now: u64,
    timeout: u64,
)
    requires
        d.guest_fin_at is None,
        d.window_stalled_at is None,
        nothing_in_flight(d),
    ensures
        poll_spec(d, a, peer_mss, ctx, last_ack, now, timeout).2 != PollAction::Remove,
{
}

/// A flow whose guest sent a frame less than `timeout` ago is not given
/// up (nor is an inline flow whose owner has not marked it dead).
pub proof fn lemma_live_guest_kept(
    d: DownModel,
    r: RingModel,
    a: FlowAddr,
    peer_mss: u16,
    ctx: FrameCtx,
    last_ack: u32,
    now: u64,
    timeout: u64,
)
    requires
        d.guest_fin_at is None,
        elapsed(now, d.last_guest_activity) < timeout,
    ensures
        poll_spec(d, a, peer_mss, ctx, last_ack, now, timeout).2 != PollAction::Remove,
        !inline_poll_spec(d, r, false, a, peer_mss, ctx, last_ack, now, timeout).3,
{
}

/// The retransmission buffer of a flow whose host stream this state
/// machine reads holds exactly the sent, unreleased bytes: the send cursor
/// is `retransmit_seq` plus the buffered bytes (plus our FIN once sent,
/// until it is released), and the guest's ACK point lies between the two.
/// The honored window bounds it: at most [`HONORED_WINDOW_CAP`] bytes
/// beyond the release point, plus the FIN.
pub open spec fn retx_consistent(d: DownModel) -> bool {
    let span = seq_sub(d.our_seq, d.retransmit_seq);
    let len = d.retransmit_buf.len();
    &&& span <= HONORED_WINDOW_CAP + 1
    &&& seq_sub(d.guest_acked, d.retransmit_seq) <= span
    &&& match d.fin_seq {
        None => span == len,
        Some(f) => d.host_eof && seq_add(f, 1) == d.our_seq && (span == len + 1 || (span == 0
            && len == 0)),
    }
}

/// A fresh flow's buffer is consistent.
pub proof fn lemma_retx_consistent_initially(our_seq: u32, now: u64)
    ensures
        retx_consistent(initial_down(our_seq, now)),
{
}

/// Taking a guest ACK keeps the buffer consistent.
pub proof fn lemma_retx_consistent_ack(
    d: DownModel,
    wscale: u8,
    flags: u8,
    ack: u32,
    window: u16,
    payload_len: int,
)
    requires
        retx_consistent(d),
    ensures
        retx_consistent(ack_step(d, wscale, flags, ack, window, payload_len)),
{
    if flags & 0x10 != 0 && ack_acceptable(d, ack) {
        let base = d.retransmit_seq;
        let span = seq_sub(d.our_seq, base);
        let a0 = seq_sub(d.guest_acked, base);
        lemma_seq_sub_chain(ack, d.guest_acked, base);
        lemma_seq_sub_chain(ack, base, d.our_seq);
        lemma_seq_sub_chain(base, d.our_seq, base);
        assert(seq_sub(base, base) == 0);
        assert(seq_sub(ack, base) == seq_sub(ack, d.guest_acked) + a0);
        if seq_sub(ack, base) > span {
            assert(seq_sub(base, d.our_seq) == 0x1_0000_0000 - span || span == 0);
            assert(ahead(seq_sub(ack, d.our_seq)));
        }
    }
}

/// Releasing acknowledged bytes keeps the buffer consistent and puts its
/// start at the ACK point.
proof fn lemma_retx_consistent_drain(d: DownModel, now: u64)
    requires
        retx_consistent(d),
    ensures
        retx_consistent(drain_step(d, now)),
        drain_step(d, now).retransmit_seq == d.guest_acked,
        drain_step(d, now).our_seq == d.our_seq,
        drain_step(d, now).guest_acked == d.guest_acked,
        drain_step(d, now).fin_seq == d.fin_seq,
        drain_step(d, now).host_eof == d.host_eof,
{
    let base = d.retransmit_seq;
    let a0 = seq_sub(d.guest_acked, base);
    lemma_seq_sub_chain(d.our_seq, d.guest_acked, base);
    if a0 == 0 {
        lemma_seq_sub_chain(d.guest_acked, base, d.guest_acked);
        assert(d.guest_acked == base);
    }
}

/// A poll pass keeps the buffer consistent.
pub proof fn lemma_retx_consistent_poll(
    d: DownModel,
    a: FlowAddr,
    peer_mss: u16,
    ctx: FrameCtx,
    last_ack: u32,
    now: u64,
    timeout: u64,
)
    requires
        retx_consistent(d),
    ensures
        retx_consistent(poll_spec(d, a, peer_mss, ctx, last_ack, now, timeout).0),
{
    lemma_retx_consistent_drain(d, now);
}

/// What a poll pass leaves of the cursors and the buffer, and when it
/// asks for a read.
proof fn lemma_poll_cursors(
    d: DownModel,
    a: FlowAddr,
    peer_mss: u16,
    ctx: FrameCtx,
    last_ack: u32,
    now: u64,
    timeout: u64,
)
    ensures
        ({
            let p = poll_spec(d, a, peer_mss, ctx, last_ack, now, timeout);
            let d1 = drain_step(d, now);
            &&& p.2 is Read ==> {
                &&& p.0.our_seq == d1.our_seq
                &&& p.0.guest_acked == d1.guest_acked
                &&& p.0.retransmit_seq == d1.retransmit_seq
                &&& p.0.retransmit_buf == d1.retransmit_buf
                &&& p.0.fin_seq == d1.fin_seq
                &&& !p.0.host_eof
            }
            &&& p.2 matches PollAction::Read(cap) ==> (capped_budget(d) > 0 && cap
                <= capped_budget(d)) || (capped_budget(d) == 0 && cap == 1 && nothing_in_flight(d))
        }),
{
}

/// The read a poll pass asks for, and the EOF it may find, keep the buffer
/// consistent.
pub proof fn lemma_retx_consistent_read(
    d: DownModel,
    a: FlowAddr,
    peer_mss: u16,
    ctx: FrameCtx,
    last_ack: u32,
    now: u64,
    timeout: u64,
    data: Seq<u8>,
    later: u64,
)
    requires
        retx_consistent(d),
        poll_spec(d, a, peer_mss, ctx, last_ack, now, timeout).2 matches PollAction::Read(cap)
            && data.len() <= cap,
    ensures
        retx_consistent(data_step(poll_spec(d, a, peer_mss, ctx, last_ack, now, timeout).0, data, later)),
        retx_consistent(eof_step(poll_spec(d, a, peer_mss, ctx, last_ack, now, timeout).0)),
{
    let p = poll_spec(d, a, peer_mss, ctx, last_ack, now, timeout);
    let d4 = p.0;
    lemma_poll_cursors(d, a, peer_mss, ctx, last_ack, now, timeout);
    lemma_retx_consistent_drain(d, now);
    lemma_read_keeps_consistency(d, d4, data, later);
}

#[verifier::rlimit(40)]
proof fn lemma_read_keeps_consistency(d: DownModel, d4: DownModel, data: Seq<u8>, later: u64)
    requires
        retx_consistent(d),
        retx_consistent(d4),
        d4.our_seq == d.our_seq,
        d4.guest_acked == d.guest_acked,
        d4.retransmit_seq == d.guest_acked,
        !d4.host_eof,
        (capped_budget(d) > 0 && data.len() <= capped_budget(d)) || (capped_budget(d) == 0
            && data.len() <= 1 && nothing_in_flight(d)),
    ensures
        retx_consistent(data_step(d4, data, later)),
        retx_consistent(eof_step(d4)),
{
    let in_flight = seq_sub(d.our_seq, d.guest_acked);
    lemma_seq_sub_chain(d.our_seq, d.guest_acked, d.retransmit_seq);
    lemma_budget_within_window(d.our_seq, d.guest_acked, capped_window(d));
    assert(in_flight + data.len() <= HONORED_WINDOW_CAP);
    let n = data.len() as int;
    lemma_seq_add_distance(d4.our_seq, n);
    lemma_seq_sub_chain(seq_add(d4.our_seq, n), d4.our_seq, d4.retransmit_seq);
    lemma_seq_add_distance(d4.our_seq, 1);
    lemma_seq_sub_chain(seq_add(d4.our_seq, 1), d4.our_seq, d4.retransmit_seq);
}

/// For such a flow a retransmission resends exactly the buffered bytes
/// from the ACK point: the cap at the committed sequence space never cuts.
pub proof fn lemma_resend_is_whole_buffer(d: DownModel)
    requires
        retx_consistent(d),
        seq_sub(d.guest_acked, d.retransmit_seq) < d.retransmit_buf.len(),
    ensures
        resend_end(
            seq_sub(d.guest_acked, d.retransmit_seq),
            seq_sub(d.our_seq, d.guest_acked),
            d.retransmit_buf.len(),
        ) == d.retransmit_buf.len(),
{
    lemma_seq_sub_chain(d.our_seq, d.guest_acked, d.retransmit_seq);
}

/// Only a pure duplicate ACK counts toward fast retransmit: a guest frame
/// that raises the duplicate count or newly triggers fast retransmit
/// carries the ACK flag and no SYN, FIN or RST, no payload, repeats the
/// acknowledged point and the window, and comes while data is in flight.
/// In particular a segment carrying data never counts.
pub proof fn lemma_dup_ack_only_on_pure_duplicate(
    d: DownModel,
    wscale: u8,
    flags: u8,
    ack: u32,
    window: u16,
    payload_len: int,
)
    ensures
        ({
            let d2 = ack_step(d, wscale, flags, ack, window, payload_len);
            ((d2.dup_acks != d.dup_acks && d2.dup_acks != 0) || (d2.fast_retransmit
                && !d.fast_retransmit)) ==> {
                &&& flags & 0x10 != 0
                &&& flags & 0x07 == 0
                &&& payload_len == 0
                &&& ack == d.guest_acked
                &&& scaled_window(window, wscale) == d.guest_window
                &&& ahead(seq_sub(d.our_seq, d.guest_acked))
            }
        }),
        payload_len > 0 ==> ({
            let d2 = ack_step(d, wscale, flags, ack, window, payload_len);
            &&& d2.fast_retransmit == d.fast_retransmit
            &&& d2.dup_acks == d.dup_acks || d2.dup_acks == 0
        }),
{
    let advance = seq_sub(ack, d.guest_acked);
    if advance == 0 {
        lemma_seq_sub_chain(ack, d.guest_acked, d.guest_acked);
        assert(seq_sub(d.guest_acked, d.guest_acked) == 0);
        assert((ack as int - d.guest_acked as int) % 0x1_0000_0000 == 0);
        assert(ack == d.guest_acked) by (nonlinear_arith)
            requires
                (ack as int - d.guest_acked as int) % 0x1_0000_0000 == 0,
                0 <= ack < 0x1_0000_0000,
                0 <= d.guest_acked < 0x1_0000_0000,
        ;
    }
}

/// The stall clock of a flow whose host stream this state machine reads
/// runs only while the flow is marked stalled.
pub open spec fn stall_clock_consistent(d: DownModel) -> bool {
    d.window_stalled_at is Some ==> d.window_stalled
}

/// A fresh flow's stall clock is consistent, and poll passes, guest ACKs,
/// host data and host EOF keep it so.
pub proof fn lemma_stall_clock_kept(
    d: DownModel,
    a: FlowAddr,
    peer_mss: u16,
    ctx: FrameCtx,
    last_ack: u32,
    now: u64,
    timeout: u64,
    wscale: u8,
    flags: u8,
    ack: u32,
    window: u16,
    payload_len: int,
    data: Seq<u8>,
)
    requires
        stall_clock_consistent(d),
    ensures
        stall_clock_consistent(initial_down(d.our_seq, now)),
        stall_clock_consistent(poll_spec(d, a, peer_mss, ctx, last_ack, now, timeout).0),
        stall_clock_consistent(ack_step(d, wscale, flags, ack, window, payload_len)),
        stall_clock_consistent(data_step(d, data, now)),
        stall_clock_consistent(eof_step(d)),
{
    lemma_poll_read_state(d, a, peer_mss, ctx, last_ack, now, timeout);
}

/// What a poll pass that goes on to its read plan leaves of the window
/// bookkeeping: the state the read plan saw has the flow's cursors, window
/// and stall fields.
proof fn lemma_poll_read_state(
    d: DownModel,
    a: FlowAddr,
    peer_mss: u16,
    ctx: FrameCtx,
    last_ack: u32,
    now: u64,
    timeout: u64,
)
    ensures
        ({
            let p = poll_spec(d, a, peer_mss, ctx, last_ack, now, timeout);
            let d1 = drain_step(d, now);
            let in_flight = seq_sub(d1.our_seq, d1.guest_acked);
            let d2 = solicit_step(d1, ahead(in_flight) || d1.window_stalled_at is Some, now);
            let d3 = if ahead(in_flight) {
                if retransmit_due(d2, now) {
                    retransmitted(d2, now)
                } else {
                    d2
                }
            } else {
                idle_clock(d2, now)
            };
            &&& d3.our_seq == d.our_seq
            &&& d3.guest_acked == d.guest_acked
            &&& d3.guest_window == d.guest_window
            &&& d3.window_stalled == d.window_stalled
            &&& d3.window_stalled_at == d.window_stalled_at
            &&& capped_budget(d3) == capped_budget(d)
            &&& (p.0 == d || p.0 == d2 || p.0 == d3 || p.0 == read_plan(d3, now).0)
            &&& (p.2 is Read ==> p.0 == read_plan(d3, now).0)
        }),
{
}

/// A poll pass that finds the window open again (positive send budget) and
/// goes on to read ends the zero-window stall: afterwards the flow is not
/// stalled and no stall clock runs, so an idle flow is not taken for one
/// that solicits a reply.
pub proof fn lemma_open_window_clears_stall(
    d: DownModel,
    a: FlowAddr,
    peer_mss: u16,
    ctx: FrameCtx,
    last_ack: u32,
    now: u64,
    timeout: u64,
)
    requires
        stall_clock_consistent(d),
        capped_budget(d) > 0,
        poll_spec(d, a, peer_mss, ctx, last_ack, now, timeout).2 is Read,
    ensures
        !poll_spec(d, a, peer_mss, ctx, last_ack, now, timeout).0.window_stalled,
        poll_spec(d, a, peer_mss, ctx, last_ack, now, timeout).0.window_stalled_at is None,
{
    lemma_poll_read_state(d, a, peer_mss, ctx, last_ack, now, timeout);
}

/// After a poll pass with the window open, a flow with nothing in flight
/// and no half-close is kept by the next pass, however long the guest
/// stays silent and whatever stall it went through before.
pub proof fn lemma_reopened_idle_flow_kept(
    d: DownModel,
    a: FlowAddr,
    peer_mss: u16,
    ctx: FrameCtx,
    last_ack: u32,
    now: u64,
    later: u64,
    timeout: u64,
)
    requires
        stall_clock_consistent(d),
        capped_budget(d) > 0,
        poll_spec(d, a, peer_mss, ctx, last_ack, now, timeout).2 is Read,
        nothing_in_flight(poll_spec(d, a, peer_mss, ctx, last_ack, now, timeout).0),
        poll_spec(d, a, peer_mss, ctx, last_ack, now, timeout).0.guest_fin_at is None,
    ensures
        poll_spec(poll_spec(d, a, peer_mss, ctx, last_ack, now, timeout).0, a, peer_mss, ctx, last_ack, later, timeout).2
            != PollAction::Remove,
{
    lemma_open_window_clears_stall(d, a, peer_mss, ctx, last_ack, now, timeout);
    lemma_quiescent_flow_kept(
        poll_spec(d, a, peer_mss, ctx, last_ack, now, timeout).0,
        a,
        peer_mss,
        ctx,
        last_ack,
        later,
        timeout,
    );
}

proof fn lemma_resend_frames_ack(
    a: FlowAddr,
    peer_mss: u16,
    ctx: FrameCtx,
    last_ack: u32,
    buf: Seq<u8>,
    base: u32,
    fin_seq: Option<u32>,
    sent: u32,
    acked: u32,
)
    ensures
        forall|i: int|
            0 <= i < resend_frames(a, peer_mss, ctx, last_ack, buf, base, fin_seq, sent, acked).len()
                ==> frame_ack(
                #[trigger] resend_frames(a, peer_mss, ctx, last_ack, buf, base, fin_seq, sent, acked)[i],
            ) == last_ack,
{
    let offset = seq_sub(acked, base);
    let data = buf.subrange(offset, resend_end(offset, seq_sub(sent, acked), buf.len()));
    lemma_data_frames_ack_and_checksum(a, peer_mss, ctx, last_ack, acked, data);
    let fr = resend_frames(a, peer_mss, ctx, last_ack, buf, base, fin_seq, sent, acked);
    let df = if offset < buf.len() {
        data_frames_spec(a, peer_mss, ctx, last_ack, acked, data)
    } else {
        Seq::empty()
    };
    if let Some(f) = fin_seq {
        lemma_ctrl_frame_ack_and_checksum(a, ctx, TCP_FIN | TCP_ACK, f, last_ack, SHIM_WINDOW);
    }
    assert forall|i: int| 0 <= i < fr.len() implies frame_ack(#[trigger] fr[i]) == last_ack by {
        if i < df.len() {
            assert(fr[i] == df[i]);
        }
    }
}

/// Every frame a poll pass sends (retransmitted data, a retransmitted FIN,
/// or the RST giving up on a silent guest) acknowledges the flow's ACK
/// cursor `last_ack`, for flows whose host stream this state machine reads
/// and for inline flows alike (zero-window probes included).
pub proof fn lemma_poll_frames_ack(
    d: DownModel,
    r: RingModel,
    dead: bool,
    a: FlowAddr,
    peer_mss: u16,
    ctx: FrameCtx,
    last_ack: u32,
    now: u64,
    timeout: u64,
)
    ensures
        forall|i: int|
            0 <= i < poll_spec(d, a, peer_mss, ctx, last_ack, now, timeout).1.len() ==> frame_ack(
                #[trigger] poll_spec(d, a, peer_mss, ctx, last_ack, now, timeout).1[i],
            ) == last_ack,
        forall|i: int|
            0 <= i < inline_poll_spec(d, r, dead, a, peer_mss, ctx, last_ack, now, timeout).2.len()
                ==> frame_ack(
                #[trigger] inline_poll_spec(d, r, dead, a, peer_mss, ctx, last_ack, now, timeout).2[i],
            ) == last_ack,
{
    let d1 = drain_step(d, now);
    let d2 = solicit_step(d1, ahead(seq_sub(d1.our_seq, d1.guest_acked)) || d1.window_stalled_at is Some, now);
    lemma_ctrl_frame_ack_and_checksum(a, ctx, TCP_RST | TCP_ACK, d2.our_seq, last_ack, 0);
    lemma_ctrl_frame_ack_and_checksum(a, ctx, TCP_RST | TCP_ACK, d.our_seq, last_ack, 0);
    lemma_resend_frames_ack(
        a,
        peer_mss,
        ctx,
        last_ack,
        d2.retransmit_buf,
        d2.retransmit_seq,
        d2.fin_seq,
        d2.our_seq,
        d2.guest_acked,
    );
    let nothing = nothing_in_flight(d);
    let e1 = solicit_step(d, !nothing || d.window_stalled_at is Some, now);
    let (e2, r2) = ring_drain(e1, r, now);
    lemma_resend_frames_ack(a, peer_mss, ctx, last_ack, r2.buf, r2.base, r2.fin_seq, d.our_seq, d.guest_acked);
    lemma_frame_ack_and_checksum(
        flow_params(a, ctx.gw_mac, ctx.guest_mac, seq_add(d.our_seq, -1), last_ack, SHIM_WINDOW),
        TCP_PSH | TCP_ACK,
        seq![0u8],
        true,
    );
    let ip = inline_poll_spec(d, r, dead, a, peer_mss, ctx, last_ack, now, timeout);
    if !dead && !dead_flow_due(e1, now, timeout) {
        let e3 = if !nothing && retransmit_due(e2, now) {
            retransmitted(e2, now)
        } else if !nothing {
            e2
        } else {
            idle_clock(e2, now)
        };
        let fr = if !nothing && retransmit_due(e2, now) {
            resend_frames(a, peer_mss, ctx, last_ack, r2.buf, r2.base, r2.fin_seq, d.our_seq, d.guest_acked)
        } else {
            Seq::empty()
        };
        let probe = inline_persist(e3, capped_budget(d) == 0 && nothing, a, ctx, last_ack, now).1;
        assert(ip.2 == fr + probe);
        assert forall|i: int| 0 <= i < ip.2.len() implies frame_ack(#[trigger] ip.2[i]) == last_ack by {
            if i < fr.len() {
                assert(ip.2[i] == fr[i]);
            } else {
                assert(ip.2[i] == probe[i - fr.len()]);
            }
        }
    }
}

} // verus!
