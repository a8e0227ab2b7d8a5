//! Guest-to-host (upload) half of a fast-path flow.
//!
//! The discipline that keeps uploads lossless: the ACK cursor `last_ack`
//! advances only over bytes the host socket actually accepted, in order.
//! Segments that arrive beyond the cursor are parked (bounded) until the
//! hole before them fills; everything else is left for the guest's own
//! retransmission machinery.

use vstd::prelude::*;
use std::collections::VecDeque;
use crate::seqnum::{seq_add, seq_sub, wadd, wsub, lemma_seq_add_distance, lemma_seq_sub_chain};

verus! {

/// Upper bound on parked out-of-order upload bytes per flow, and on how far
/// past `last_ack` a parked segment may end.
pub const OOO_REASSEMBLY_CAP: usize = 4 * 1024 * 1024;

/// Upper bound on the number of parked out-of-order segments per flow.
pub const OOO_MAX_SEGMENTS: usize = 4096;

/// What a non-blocking write to the host socket reported.
#[derive(Clone, Copy, Debug)]
pub enum HostWrite {
    /// `n` bytes were taken (`n` at most what was offered).
    Wrote(usize),
    /// The socket buffer is full; nothing was taken.
    WouldBlock,
    /// The peer closed its read side.
    BrokenPipe,
    /// Any other error: the host stream is dead.
    Failed,
}

/// Diagnostic counter increment (wraps instead of failing).
pub open spec fn bump(x: u64, n: u64) -> u64 {
    ((x as int + n as int) % 0x1_0000_0000_0000_0000) as u64
}

pub fn bump_counter(x: u64, n: u64) -> (r: u64)
    ensures
        r == bump(x, n),
{
    x.wrapping_add(n)
}

/// A parked segment as plain values: start sequence number and payload.
pub open spec fn parked_view(s: Seq<(u32, Vec<u8>)>) -> Seq<(u32, Seq<u8>)> {
    s.map_values(|p: (u32, Vec<u8>)| (p.0, p.1@))
}

/// Total payload bytes of parked segments.
pub open spec fn parked_bytes(s: Seq<(u32, Seq<u8>)>) -> nat
    decreases s.len(),
{
    if s.len() == 0 {
        0
    } else {
        s[0].1.len() + parked_bytes(s.subrange(1, s.len() as int))
    }
}

/// Index at which a segment `rel` bytes past `base` is parked: the first
/// parked segment that does not start strictly closer to `base`.
pub open spec fn insert_index(s: Seq<(u32, Seq<u8>)>, base: u32, rel: int) -> int
    decreases s.len(),
{
    if s.len() == 0 {
        0
    } else if seq_sub(s[0].0, base) < rel {
        1 + insert_index(s.subrange(1, s.len() as int), base, rel)
    } else {
        0
    }
}

/// End of a parked segment in sequence space.
pub open spec fn seg_end(p: (u32, Seq<u8>)) -> u32 {
    seq_add(p.0, p.1.len() as int)
}

/// The cursor already covers every byte of the segment.
pub open spec fn covered_by(p: (u32, Seq<u8>), last_ack: u32) -> bool {
    let extends = seq_sub(seg_end(p), last_ack);
    extends == 0 || extends >= 0x8000_0000
}

/// Number of leading parked segments the cursor already covers.
pub open spec fn leading_covered(s: Seq<(u32, Seq<u8>)>, last_ack: u32) -> int
    decreases s.len(),
{
    if s.len() == 0 {
        0
    } else if covered_by(s[0], last_ack) {
        1 + leading_covered(s.subrange(1, s.len() as int), last_ack)
    } else {
        0
    }
}

/// Upload state of a fast-path flow.
pub struct UploadState {
    /// Last ACK sent to the guest: the next guest sequence number expected.
    pub last_ack: u32,
    /// Parked out-of-order segments `(guest_seq, payload)`.
    pub ooo_segs: VecDeque<(u32, Vec<u8>)>,
    /// Total payload bytes in `ooo_segs`.
    pub ooo_bytes: usize,
    /// Segments the host socket would not take at all.
    pub up_would_block: u64,
    /// Segments the host socket took only partially.
    pub up_short_writes: u64,
    /// Segments that arrived beyond the contiguous cursor.
    pub up_out_of_order: u64,
    /// Out-of-order segments discarded because a reassembly cap was hit.
    pub up_ooo_dropped: u64,
    /// Guest-to-host bytes forwarded.
    pub up_bytes: u64,
}

/// What to do with the payload of a guest segment.
#[derive(Clone, Copy, Debug)]
pub enum UploadPlan {
    /// Nothing to write: no payload, a retransmission of ACKed bytes, or a
    /// segment parked behind a hole.
    Nothing,
    /// Write the payload from byte `skip` on (leading bytes already ACKed).
    Write { skip: usize },
}

/// How an upload write ended.
#[derive(Clone, Copy, PartialEq, Eq, Debug)]
pub enum UploadResult {
    /// The cursor advanced.
    Advanced,
    /// Nothing was taken; the cursor stays.
    Held,
    /// The host stream failed.
    Failed,
}

/// How one parked-segment write ended.
#[derive(Clone, Copy, PartialEq, Eq, Debug)]
pub enum DrainStep {
    /// Look at the next parked segment.
    Continue,
    /// Stop draining (socket full or short take).
    Stop,
    /// The host stream failed.
    Failed,
}

impl UploadState {
    /// Parked segments as plain values.
    pub open spec fn parked(&self) -> Seq<(u32, Seq<u8>)> {
        parked_view(self.ooo_segs@)
    }

    /// Invariant: `ooo_bytes` counts the parked payload, and both caps hold.
    pub open spec fn wf(&self) -> bool {
        &&& self.ooo_bytes == parked_bytes(self.parked())
        &&& self.ooo_bytes <= OOO_REASSEMBLY_CAP
        &&& self.ooo_segs@.len() <= OOO_MAX_SEGMENTS
    }

    /// Upload state right after the handshake: cursor at `last_ack`,
    /// nothing parked, counters zero.
    pub fn new(last_ack: u32) -> (s: Self)
        ensures
            s.wf(),
            s.last_ack == last_ack,
            s.parked() == Seq::<(u32, Seq<u8>)>::empty(),
            s.up_would_block == 0,
            s.up_short_writes == 0,
            s.up_out_of_order == 0,
            s.up_ooo_dropped == 0,
            s.up_bytes == 0,
    {
        let s = UploadState {
            last_ack,
            ooo_segs: VecDeque::new(),
            ooo_bytes: 0,
            up_would_block: 0,
            up_short_writes: 0,
            up_out_of_order: 0,
            up_ooo_dropped: 0,
            up_bytes: 0,
        };
        proof {
            assert(s.parked() =~= Seq::<(u32, Seq<u8>)>::empty());
        }
        s
    }
}

/// The deque holds one entry per parked segment.
pub proof fn lemma_parked_len(s: &UploadState)
    ensures
        s.ooo_segs@.len() == s.parked().len(),
{
}

proof fn lemma_parked_view_len(s: Seq<(u32, Vec<u8>)>)
    ensures
        parked_view(s).len() == s.len(),
        forall|i: int|
            0 <= i < s.len() ==> #[trigger] parked_view(s)[i] == (s[i].0, s[i].1@),
{
}

proof fn lemma_parked_bytes_insert(s: Seq<(u32, Seq<u8>)>, i: int, p: (u32, Seq<u8>))
    requires
        0 <= i <= s.len(),
    ensures
        parked_bytes(s.insert(i, p)) == parked_bytes(s) + p.1.len(),
    decreases s.len(),
{
    if i == 0 {
        assert(s.insert(0, p).subrange(1, s.len() as int + 1) =~= s);
    } else {
        let t = s.subrange(1, s.len() as int);
        lemma_parked_bytes_insert(t, i - 1, p);
        assert(s.insert(i, p).subrange(1, s.len() as int + 1) =~= t.insert(i - 1, p));
    }
}

proof fn lemma_parked_bytes_remove(s: Seq<(u32, Seq<u8>)>, i: int)
    requires
        0 <= i < s.len(),
    ensures
        parked_bytes(s.remove(i)) + s[i].1.len() == parked_bytes(s),
    decreases s.len(),
{
    if i == 0 {
        assert(s.remove(0) =~= s.subrange(1, s.len() as int));
    } else {
        let t = s.subrange(1, s.len() as int);
        lemma_parked_bytes_remove(t, i - 1);
        assert(s.remove(i).subrange(1, s.len() as int - 1) =~= t.remove(i - 1));
    }
}

proof fn lemma_parked_bytes_front(s: Seq<(u32, Seq<u8>)>)
    requires
        s.len() > 0,
    ensures
        parked_bytes(s.subrange(1, s.len() as int)) + s[0].1.len() == parked_bytes(s),
{
}

proof fn lemma_parked_bytes_elem(s: Seq<(u32, Seq<u8>)>, i: int)
    requires
        0 <= i < s.len(),
    ensures
        s[i].1.len() <= parked_bytes(s),
{
    lemma_parked_bytes_remove(s, i);
}

proof fn lemma_insert_index_step(s: Seq<(u32, Seq<u8>)>, base: u32, rel: int, i: int)
    requires
        0 <= i <= s.len(),
        forall|j: int| 0 <= j < i ==> seq_sub(#[trigger] s[j].0, base) < rel,
    ensures
        insert_index(s, base, rel) == i + insert_index(s.subrange(i, s.len() as int), base, rel),
    decreases i,
{
    if i > 0 {
        let t = s.subrange(1, s.len() as int);
        assert forall|j: int| 0 <= j < i - 1 implies seq_sub(#[trigger] t[j].0, base) < rel by {
            assert(t[j] == s[j + 1]);
        }
        lemma_insert_index_step(t, base, rel, i - 1);
        assert(t.subrange(i - 1, t.len() as int) =~= s.subrange(i, s.len() as int));
    } else {
        assert(s.subrange(0, s.len() as int) =~= s);
    }
}

proof fn lemma_leading_covered_step(s: Seq<(u32, Seq<u8>)>, last_ack: u32)
    requires
        s.len() > 0,
        covered_by(s[0], last_ack),
    ensures
        leading_covered(s, last_ack) == 1 + leading_covered(s.subrange(1, s.len() as int), last_ack),
{
}

/// Effect of parking the segment `(seq, payload)` (see
/// [`UploadState::buffer_ooo_segment`]): only the parked segments and the
/// drop counter change.
pub open spec fn park_post(old: UploadState, new: UploadState, seq: u32, payload: Seq<u8>) -> bool {
    let segs = old.parked();
    let rel = seq_sub(seq, old.last_ack);
    let idx = insert_index(segs, old.last_ack, rel);
    let replaces = idx < segs.len() && segs[idx].0 == seq;
    &&& new.last_ack == old.last_ack
    &&& new.up_would_block == old.up_would_block
    &&& new.up_short_writes == old.up_short_writes
    &&& new.up_out_of_order == old.up_out_of_order
    &&& new.up_bytes == old.up_bytes
    &&& if rel + payload.len() > OOO_REASSEMBLY_CAP || old.ooo_bytes + payload.len()
        > OOO_REASSEMBLY_CAP || (!replaces && segs.len() >= OOO_MAX_SEGMENTS) {
        &&& new.parked() == segs
        &&& new.up_ooo_dropped == bump(old.up_ooo_dropped, 1)
    } else if replaces && segs[idx].1.len() >= payload.len() {
        &&& new.parked() == segs
        &&& new.up_ooo_dropped == old.up_ooo_dropped
    } else if replaces {
        &&& new.parked() == segs.update(idx, (seq, payload))
        &&& new.up_ooo_dropped == old.up_ooo_dropped
    } else {
        &&& new.parked() == segs.insert(idx, (seq, payload))
        &&& new.up_ooo_dropped == old.up_ooo_dropped
    }
}

/// Effect and result of [`UploadState::next_parked_write`]: the covered
/// leading segments go; `Some(start)` when the front segment's unwritten
/// bytes start `start` bytes in, exactly at the ACK cursor.
pub open spec fn next_parked_post(old: UploadState, new: UploadState, r: Option<usize>) -> bool {
    let segs = old.parked();
    let k = leading_covered(segs, old.last_ack);
    &&& new.last_ack == old.last_ack
    &&& new.up_would_block == old.up_would_block
    &&& new.up_short_writes == old.up_short_writes
    &&& new.up_out_of_order == old.up_out_of_order
    &&& new.up_ooo_dropped == old.up_ooo_dropped
    &&& new.up_bytes == old.up_bytes
    &&& new.parked() == segs.subrange(k, segs.len() as int)
    &&& match r {
        None => new.parked().len() == 0 || seq_sub(new.last_ack, new.parked()[0].0)
            >= 0x8000_0000,
        Some(start) => {
            &&& new.parked().len() > 0
            &&& start == seq_sub(new.last_ack, new.parked()[0].0)
            &&& start < new.parked()[0].1.len()
            &&& seq_add(new.parked()[0].0, start as int) == new.last_ack
        },
    }
}

/// Effect and result of [`UploadState::apply_parked_write`].
pub open spec fn parked_write_post(
    old: UploadState,
    new: UploadState,
    start: usize,
    r: HostWrite,
    step: DrainStep,
) -> bool {
    let segs = old.parked();
    let front = segs[0];
    let rest = segs.subrange(1, segs.len() as int);
    &&& new.up_out_of_order == old.up_out_of_order
    &&& new.up_ooo_dropped == old.up_ooo_dropped
    &&& match r {
        HostWrite::WouldBlock => {
            &&& step == DrainStep::Stop
            &&& new.parked() == segs
            &&& new.last_ack == old.last_ack
            &&& new.up_would_block == bump(old.up_would_block, 1)
            &&& new.up_short_writes == old.up_short_writes
            &&& new.up_bytes == old.up_bytes
        },
        HostWrite::BrokenPipe => {
            &&& step == DrainStep::Continue
            &&& new.parked() == rest
            &&& new.last_ack == seg_end(front)
            &&& new.up_would_block == old.up_would_block
            &&& new.up_short_writes == old.up_short_writes
            &&& new.up_bytes == old.up_bytes
        },
        HostWrite::Failed => {
            &&& step == DrainStep::Failed
            &&& new.parked() == segs
            &&& new.last_ack == old.last_ack
            &&& new.up_would_block == old.up_would_block
            &&& new.up_short_writes == old.up_short_writes
            &&& new.up_bytes == old.up_bytes
        },
        HostWrite::Wrote(n) => {
            &&& new.last_ack == seq_add(old.last_ack, n as int)
            &&& new.up_bytes == bump(old.up_bytes, n as u64)
            &&& new.up_would_block == old.up_would_block
            &&& if n < front.1.len() - start {
                &&& step == DrainStep::Stop
                &&& new.parked() == segs
                &&& new.up_short_writes == bump(old.up_short_writes, 1)
            } else {
                &&& step == DrainStep::Continue
                &&& new.parked() == rest
                &&& new.up_short_writes == old.up_short_writes
            }
        },
    }
}

/// Effect and result of [`UploadState::plan_upload`]: nothing to do for
/// an empty segment or one at or behind the cursor; a segment beyond the
/// cursor is parked (see [`park_post`]); otherwise the bytes from the
/// cursor on are to be written.
pub open spec fn plan_post(
    old: UploadState,
    new: UploadState,
    seq: u32,
    payload: Seq<u8>,
    plan: UploadPlan,
) -> bool {
    let extends = seq_sub(seq_add(seq, payload.len() as int), old.last_ack);
    let overlap = seq_sub(old.last_ack, seq);
    if payload.len() == 0 || extends == 0 || extends >= 0x8000_0000 {
        &&& plan == UploadPlan::Nothing
        &&& new == old
    } else if overlap >= 0x8000_0000 {
        &&& plan == UploadPlan::Nothing
        &&& park_post(UploadState { up_out_of_order: new.up_out_of_order, ..old }, new, seq, payload)
        &&& new.up_out_of_order == bump(old.up_out_of_order, 1)
    } else {
        &&& plan == (UploadPlan::Write { skip: overlap as usize })
        &&& overlap < payload.len()
        &&& seq_add(seq, overlap) == old.last_ack
        &&& new == old
    }
}

/// What [`UploadState::plan_upload`] decides for the segment
/// `(seq, payload)`.
pub open spec fn upload_plan_of(old: UploadState, seq: u32, payload: Seq<u8>) -> UploadPlan {
    let extends = seq_sub(seq_add(seq, payload.len() as int), old.last_ack);
    let overlap = seq_sub(old.last_ack, seq);
    if payload.len() == 0 || extends == 0 || extends >= 0x8000_0000 || overlap >= 0x8000_0000 {
        UploadPlan::Nothing
    } else {
        UploadPlan::Write { skip: overlap as usize }
    }
}

/// How [`UploadState::apply_upload_write`] ends for the host's answer `r`.
pub open spec fn write_result_of(r: HostWrite) -> UploadResult {
    match r {
        HostWrite::Wrote(_) => UploadResult::Advanced,
        HostWrite::BrokenPipe => UploadResult::Advanced,
        HostWrite::WouldBlock => UploadResult::Held,
        HostWrite::Failed => UploadResult::Failed,
    }
}

/// How [`UploadState::apply_parked_write`] ends for the host's answer `r`
/// to a write of the front parked segment from byte `start`.
pub open spec fn drain_step_of(old: UploadState, start: usize, r: HostWrite) -> DrainStep {
    match r {
        HostWrite::WouldBlock => DrainStep::Stop,
        HostWrite::BrokenPipe => DrainStep::Continue,
        HostWrite::Failed => DrainStep::Failed,
        HostWrite::Wrote(n) => if n < old.parked()[0].1.len() - start {
            DrainStep::Stop
        } else {
            DrainStep::Continue
        },
    }
}

/// Effect and result of [`UploadState::apply_upload_write`].
pub open spec fn write_post(
    old: UploadState,
    new: UploadState,
    seq_end: u32,
    fresh_len: usize,
    r: HostWrite,
    res: UploadResult,
) -> bool {
    &&& new.parked() == old.parked()
    &&& new.up_out_of_order == old.up_out_of_order
    &&& new.up_ooo_dropped == old.up_ooo_dropped
    &&& match r {
        HostWrite::Wrote(n) => {
            &&& res == UploadResult::Advanced
            &&& new.last_ack == seq_add(old.last_ack, n as int)
            &&& new.up_bytes == bump(old.up_bytes, n as u64)
            &&& new.up_would_block == old.up_would_block
            &&& new.up_short_writes == if n < fresh_len {
                bump(old.up_short_writes, 1)
            } else {
                old.up_short_writes
            }
        },
        HostWrite::WouldBlock => {
            &&& res == UploadResult::Held
            &&& new.last_ack == old.last_ack
            &&& new.up_bytes == old.up_bytes
            &&& new.up_would_block == bump(old.up_would_block, 1)
            &&& new.up_short_writes == old.up_short_writes
        },
        HostWrite::BrokenPipe => {
            &&& res == UploadResult::Advanced
            &&& new.last_ack == seq_end
            &&& new.up_bytes == old.up_bytes
            &&& new.up_would_block == old.up_would_block
            &&& new.up_short_writes == old.up_short_writes
        },
        HostWrite::Failed => {
            &&& res == UploadResult::Failed
            &&& new.last_ack == old.last_ack
            &&& new.up_bytes == old.up_bytes
            &&& new.up_would_block == old.up_would_block
            &&& new.up_short_writes == old.up_short_writes
        },
    }
}

impl UploadState {
    /// Parks an upload segment that arrived beyond the contiguous cursor.
    ///
    /// The segment goes at `insert_index` (ordered by distance from the
    /// cursor). It is dropped (and counted) when it would end more than
    /// [`OOO_REASSEMBLY_CAP`] past the cursor, when it would push the parked
    /// bytes past that cap, or when a new distinct segment would exceed
    /// [`OOO_MAX_SEGMENTS`]. A segment with the start of an already parked
    /// one replaces it only when it is longer. Parking never moves the ACK.
    pub fn buffer_ooo_segment(&mut self, seq: u32, payload: &[u8])
        requires
            old(self).wf(),
        ensures
            final(self).wf(),
            park_post(*old(self), *final(self), seq, payload@),
    {
        let ghost segs = self.parked();
        let base = self.last_ack;
        let rel = wsub(seq, base) as usize;
        let ghost grel = seq_sub(seq, base);
        proof {
            lemma_parked_view_len(self.ooo_segs@);
        }
        let n = self.ooo_segs.len();
        let mut idx: usize = 0;
        while idx < n && ((wsub(self.ooo_segs[idx].0, base) as usize) < rel)
            invariant
                n == self.ooo_segs@.len(),
                segs == parked_view(self.ooo_segs@),
                segs.len() == n,
                forall|i: int| 0 <= i < n ==> #[trigger] segs[i] == (self.ooo_segs@[i].0, self.ooo_segs@[i].1@),
                rel == grel,
                base == self.last_ack,
                idx <= n,
                forall|j: int| 0 <= j < idx ==> seq_sub(#[trigger] segs[j].0, base) < grel,
            decreases n - idx,
        {
            idx = idx + 1;
        }
        proof {
            lemma_insert_index_step(segs, base, grel, idx as int);
            if idx < n {
                let t = segs.subrange(idx as int, n as int);
                assert(t[0] == segs[idx as int]);
            } else {
                assert(segs.subrange(idx as int, n as int).len() == 0);
            }
        }
        let replaces = idx < n && self.ooo_segs[idx].0 == seq;
        let len = payload.len();
        if rel.saturating_add(len) > OOO_REASSEMBLY_CAP || self.ooo_bytes.saturating_add(len)
            > OOO_REASSEMBLY_CAP || (!replaces && n >= OOO_MAX_SEGMENTS) {
            self.up_ooo_dropped = bump_counter(self.up_ooo_dropped, 1);
            return;
        }
        if replaces {
            if self.ooo_segs[idx].1.len() >= len {
                return;
            }
            proof {
                lemma_parked_bytes_elem(segs, idx as int);
            }
            let removed = self.ooo_segs.remove(idx);
            if let Some((_, old_payload)) = removed {
                self.ooo_bytes = self.ooo_bytes - old_payload.len();
            }
            proof {
                lemma_parked_bytes_remove(segs, idx as int);
                assert(parked_view(self.ooo_segs@) =~= segs.remove(idx as int));
            }
        }
        let mut copy: Vec<u8> = Vec::new();
        crate::ethernet::push_bytes(&mut copy, payload);
        proof {
            assert(copy@ =~= payload@);
        }
        let ghost before = self.parked();
        self.ooo_bytes = self.ooo_bytes + len;
        self.ooo_segs.insert(idx, (seq, copy));
        proof {
            lemma_parked_bytes_insert(before, idx as int, (seq, payload@));
            assert(self.parked() =~= before.insert(idx as int, (seq, payload@)));
            if replaces {
                assert(segs.remove(idx as int).insert(idx as int, (seq, payload@)) =~= segs.update(
                    idx as int,
                    (seq, payload@),
                ));
            }
        }
    }
}


impl UploadState {
    /// Drops the leading parked segments the cursor already covers (a
    /// retransmission landed in order first), then reports where the
    /// unwritten bytes of the front segment start, or `None` when nothing
    /// is parked or a hole still precedes the front segment.
    pub fn next_parked_write(&mut self) -> (r: Option<usize>)
        requires
            old(self).wf(),
        ensures
            final(self).wf(),
            next_parked_post(*old(self), *final(self), r),
    {
        let ghost segs = self.parked();
        let ghost la = self.last_ack;
        proof {
            assert(segs.subrange(0, segs.len() as int) =~= segs);
        }
        loop
            invariant
                self.wf(),
                self.last_ack == la,
                self.up_would_block == old(self).up_would_block,
                self.up_short_writes == old(self).up_short_writes,
                self.up_out_of_order == old(self).up_out_of_order,
                self.up_ooo_dropped == old(self).up_ooo_dropped,
                self.up_bytes == old(self).up_bytes,
                segs == old(self).parked(),
                la == old(self).last_ack,
                ({
                    let cur = self.parked();
                    exists|i: int|
                        0 <= i <= segs.len() && cur == segs.subrange(i, segs.len() as int)
                            && leading_covered(segs, la) == i + leading_covered(cur, la)
                }),
            ensures
                self.wf(),
                self.last_ack == la,
                self.up_would_block == old(self).up_would_block,
                self.up_short_writes == old(self).up_short_writes,
                self.up_out_of_order == old(self).up_out_of_order,
                self.up_ooo_dropped == old(self).up_ooo_dropped,
                self.up_bytes == old(self).up_bytes,
                self.parked() == segs.subrange(leading_covered(segs, la), segs.len() as int),
                self.parked().len() == 0 || !covered_by(self.parked()[0], la),
            decreases self.ooo_segs@.len(),
        {
            proof {
                lemma_parked_view_len(self.ooo_segs@);
            }
            if self.ooo_segs.len() == 0 {
                proof {
                    let i = choose|i: int|
                        0 <= i <= segs.len() && self.parked() == segs.subrange(i, segs.len() as int)
                            && leading_covered(segs, la) == i + leading_covered(self.parked(), la);
                    assert(leading_covered(self.parked(), la) == 0);
                }
                break;
            }
            let seq = self.ooo_segs[0].0;
            let len = self.ooo_segs[0].1.len();
            let ghost front = self.parked()[0];
            proof {
                lemma_parked_bytes_elem(self.parked(), 0);
            }
            let end = wadd(seq, len as u32);
            let extends = wsub(end, self.last_ack);
            if extends == 0 || extends >= 0x8000_0000 {
                let ghost cur = self.parked();
                proof {
                    lemma_leading_covered_step(cur, la);
                    lemma_parked_bytes_front(cur);
                    let i = choose|i: int|
                        0 <= i <= segs.len() && cur == segs.subrange(i, segs.len() as int)
                            && leading_covered(segs, la) == i + leading_covered(cur, la);
                    assert(cur.subrange(1, cur.len() as int) =~= segs.subrange(i + 1, segs.len() as int));
                }
                let popped = self.ooo_segs.pop_front();
                if let Some((_, old_payload)) = popped {
                    self.ooo_bytes = self.ooo_bytes - old_payload.len();
                }
                proof {
                    assert(self.parked() =~= cur.subrange(1, cur.len() as int));
                }
            } else {
                proof {
                    let cur = self.parked();
                    let i = choose|i: int|
                        0 <= i <= segs.len() && cur == segs.subrange(i, segs.len() as int)
                            && leading_covered(segs, la) == i + leading_covered(cur, la);
                    assert(!covered_by(cur[0], la));
                    assert(leading_covered(cur, la) == 0);
                }
                break;
            }
        }
        proof {
            lemma_parked_view_len(self.ooo_segs@);
        }
        if self.ooo_segs.len() == 0 {
            return None;
        }
        let overlap = wsub(self.last_ack, self.ooo_segs[0].0);
        if overlap >= 0x8000_0000 {
            return None;
        }
        proof {
            lemma_write_starts_at_cursor(self.ooo_segs@[0].0, self.last_ack);
        }
        proof {
            let p = self.parked()[0];
            lemma_parked_bytes_elem(self.parked(), 0);
            assert(p.1.len() <= OOO_REASSEMBLY_CAP);
            // not covered: 0 < end - last_ack < 2^31, and last_ack - start < 2^31
            assert(overlap < p.1.len());
        }
        Some(overlap as usize)
    }

    /// Applies the host socket's answer to writing the front parked
    /// segment from byte `start`: the cursor advances over exactly the bytes
    /// taken; a fully written segment is released; a short take or a full
    /// socket stops the drain; a closed peer drains the segment at the TCP
    /// layer.
    pub fn apply_parked_write(&mut self, start: usize, r: HostWrite) -> (step: DrainStep)
        requires
            old(self).wf(),
            old(self).parked().len() > 0,
            start == seq_sub(old(self).last_ack, old(self).parked()[0].0),
            start < old(self).parked()[0].1.len(),
            r matches HostWrite::Wrote(n) ==> n <= old(self).parked()[0].1.len() - start,
        ensures
            final(self).wf(),
            parked_write_post(*old(self), *final(self), start, r, step),
    {
        let ghost segs = self.parked();
        proof {
            lemma_parked_view_len(self.ooo_segs@);
            lemma_parked_bytes_elem(segs, 0);
            lemma_parked_bytes_front(segs);
        }
        let seq = self.ooo_segs[0].0;
        let len = self.ooo_segs[0].1.len();
        match r {
            HostWrite::WouldBlock => {
                self.up_would_block = bump_counter(self.up_would_block, 1);
                DrainStep::Stop
            },
            HostWrite::Failed => DrainStep::Failed,
            HostWrite::BrokenPipe => {
                self.last_ack = wadd(seq, len as u32);
                let popped = self.ooo_segs.pop_front();
                if let Some((_, old_payload)) = popped {
                    self.ooo_bytes = self.ooo_bytes - old_payload.len();
                }
                proof {
                    assert(self.parked() =~= segs.subrange(1, segs.len() as int));
                }
                DrainStep::Continue
            },
            HostWrite::Wrote(take) => {
                self.up_bytes = bump_counter(self.up_bytes, take as u64);
                self.last_ack = wadd(self.last_ack, take as u32);
                if take < len - start {
                    self.up_short_writes = bump_counter(self.up_short_writes, 1);
                    DrainStep::Stop
                } else {
                    let popped = self.ooo_segs.pop_front();
                    if let Some((_, old_payload)) = popped {
                        self.ooo_bytes = self.ooo_bytes - old_payload.len();
                    }
                    proof {
                        assert(self.parked() =~= segs.subrange(1, segs.len() as int));
                    }
                    DrainStep::Continue
                }
            },
        }
    }

    /// Decides what to do with the payload of a guest segment starting at
    /// guest sequence number `seq`: bytes at or behind the cursor are a
    /// retransmission of ACKed data (nothing to do); a segment beyond the
    /// cursor is parked (counted) behind the hole; otherwise the bytes from
    /// the cursor on are to be written.
    pub fn plan_upload(&mut self, seq: u32, payload: &[u8]) -> (plan: UploadPlan)
        requires
            old(self).wf(),
            payload@.len() <= OOO_REASSEMBLY_CAP,
        ensures
            final(self).wf(),
            plan_post(*old(self), *final(self), seq, payload@, plan),
    {
        let len = payload.len();
        if len == 0 {
            return UploadPlan::Nothing;
        }
        let end = wadd(seq, len as u32);
        let extends = wsub(end, self.last_ack);
        if extends == 0 || extends >= 0x8000_0000 {
            return UploadPlan::Nothing;
        }
        let overlap = wsub(self.last_ack, seq);
        proof {
            lemma_write_starts_at_cursor(seq, self.last_ack);
        }
        if overlap >= 0x8000_0000 {
            self.up_out_of_order = bump_counter(self.up_out_of_order, 1);
            self.buffer_ooo_segment(seq, payload);
            return UploadPlan::Nothing;
        }
        UploadPlan::Write { skip: overlap as usize }
    }

    /// Applies the host socket's answer to writing the fresh bytes of an
    /// in-order segment (`fresh_len` bytes ending at `seq_end`): the cursor
    /// advances over exactly the bytes taken, or over the whole segment when
    /// the peer has closed its read side.
    pub fn apply_upload_write(&mut self, seq_end: u32, fresh_len: usize, r: HostWrite) -> (res:
        UploadResult)
        requires
            old(self).wf(),
            fresh_len <= OOO_REASSEMBLY_CAP,
            r matches HostWrite::Wrote(n) ==> n <= fresh_len,
        ensures
            final(self).wf(),
            write_post(*old(self), *final(self), seq_end, fresh_len, r, res),
    {
        match r {
            HostWrite::Wrote(n) => {
                self.up_bytes = bump_counter(self.up_bytes, n as u64);
                self.last_ack = wadd(self.last_ack, n as u32);
                if n < fresh_len {
                    self.up_short_writes = bump_counter(self.up_short_writes, 1);
                }
                UploadResult::Advanced
            },
            HostWrite::WouldBlock => {
                self.up_would_block = bump_counter(self.up_would_block, 1);
                UploadResult::Held
            },
            HostWrite::BrokenPipe => {
                self.last_ack = seq_end;
                UploadResult::Advanced
            },
            HostWrite::Failed => UploadResult::Failed,
        }
    }
}

/// A write of the bytes from `seq_sub(last_ack, start)` on of a segment
/// starting at `start` begins exactly at the ACK cursor. With the cursor
/// then moving past exactly the bytes the host took, the host receives the
/// guest's stream in sequence order, each byte once.
pub proof fn lemma_write_starts_at_cursor(start: u32, last_ack: u32)
    ensures
        seq_add(start, seq_sub(last_ack, start)) == last_ack,
{
    let m: int = 0x1_0000_0000;
    vstd::arithmetic::div_mod::lemma_add_mod_noop(start as int, last_ack - start, m);
    vstd::arithmetic::div_mod::lemma_mod_twice(last_ack - start, m);
    vstd::arithmetic::div_mod::lemma_small_mod(start as nat, m as nat);
    vstd::arithmetic::div_mod::lemma_small_mod(last_ack as nat, m as nat);
}

/// Parked segments stand in strictly increasing distance from `base`
/// (so no two start at the same sequence number).
pub open spec fn parked_ordered(s: Seq<(u32, Seq<u8>)>, base: u32) -> bool {
    forall|i: int, j: int|
        0 <= i < j < s.len() ==> seq_sub(#[trigger] s[i].0, base) < seq_sub(#[trigger] s[j].0, base)
}

/// Two sequence numbers at the same distance from a third are equal.
proof fn lemma_seq_sub_injective(a: u32, c: u32, b: u32)
    requires
        seq_sub(a, b) == seq_sub(c, b),
    ensures
        a == c,
{
    let m: int = 0x1_0000_0000;
    vstd::arithmetic::div_mod::lemma_fundamental_div_mod(a - b, m);
    vstd::arithmetic::div_mod::lemma_fundamental_div_mod(c - b, m);
    let qa = (a - b) / m;
    let qc = (c - b) / m;
    assert(a - c == (qa - qc) * m) by (nonlinear_arith)
        requires
            a - b == m * qa + (a - b) % m,
            c - b == m * qc + (c - b) % m,
            (a - b) % m == (c - b) % m,
    ;
    assert(qa - qc == 0) by (nonlinear_arith)
        requires
            a - c == (qa - qc) * m,
            -m < a - c < m,
            m > 0,
    ;
}

/// Where [`insert_index`] puts a segment: after every segment strictly
/// closer to `base`, before the first that is not.
proof fn lemma_insert_index_bounds(s: Seq<(u32, Seq<u8>)>, base: u32, rel: int)
    ensures
        0 <= insert_index(s, base, rel) <= s.len(),
        forall|j: int| 0 <= j < insert_index(s, base, rel) ==> seq_sub(#[trigger] s[j].0, base) < rel,
        insert_index(s, base, rel) < s.len() ==> seq_sub(s[insert_index(s, base, rel)].0, base)
            >= rel,
    decreases s.len(),
{
    if s.len() > 0 && seq_sub(s[0].0, base) < rel {
        let t = s.subrange(1, s.len() as int);
        lemma_insert_index_bounds(t, base, rel);
        assert forall|j: int| 0 <= j < insert_index(s, base, rel) implies seq_sub(
            #[trigger] s[j].0,
            base,
        ) < rel by {
            if j > 0 {
                assert(s[j] == t[j - 1]);
            }
        }
        if insert_index(s, base, rel) < s.len() {
            assert(s[insert_index(s, base, rel)] == t[insert_index(t, base, rel)]);
        }
    }
}

/// Parking keeps the parked segments ordered by distance from the ACK
/// cursor, each start sequence number at most once; when a parked segment
/// already starts where the new one does, that is the one the park
/// decision looks at (kept, or replaced by the longer new payload).
pub proof fn lemma_park_keeps_order(old: UploadState, new: UploadState, seq: u32, payload: Seq<u8>)
    requires
        park_post(old, new, seq, payload),
        parked_ordered(old.parked(), old.last_ack),
    ensures
        parked_ordered(new.parked(), new.last_ack),
        forall|i: int, j: int|
            0 <= i < j < new.parked().len() ==> #[trigger] new.parked()[i].0 != #[trigger] new.parked()[j].0,
        forall|k: int|
            0 <= k < old.parked().len() && #[trigger] old.parked()[k].0 == seq ==> ({
                let idx = insert_index(old.parked(), old.last_ack, seq_sub(seq, old.last_ack));
                idx == k && old.parked()[idx].0 == seq
            }),
{
    let segs = old.parked();
    let base = old.last_ack;
    let rel = seq_sub(seq, base);
    let idx = insert_index(segs, base, rel);
    lemma_insert_index_bounds(segs, base, rel);
    assert forall|k: int| 0 <= k < segs.len() && #[trigger] segs[k].0 == seq implies idx == k
        && segs[idx].0 == seq by {
        if idx < k {
            assert(seq_sub(segs[idx].0, base) < seq_sub(segs[k].0, base));
        } else if idx > k {
            assert(seq_sub(segs[k].0, base) < rel);
        }
    }
    let replaces = idx < segs.len() && segs[idx].0 == seq;
    if new.parked() == segs.insert(idx, (seq, payload)) && !(new.parked() == segs) && !replaces {
        let t = segs.insert(idx, (seq, payload));
        if idx < segs.len() {
            if seq_sub(segs[idx].0, base) == rel {
                lemma_seq_sub_injective(segs[idx].0, seq, base);
            }
        }
        assert forall|i: int, j: int| 0 <= i < j < t.len() implies seq_sub(#[trigger] t[i].0, base)
            < seq_sub(#[trigger] t[j].0, base) by {
            if j < idx {
                assert(t[i] == segs[i] && t[j] == segs[j]);
            } else if j == idx {
                assert(t[i] == segs[i]);
            } else if i < idx {
                assert(t[i] == segs[i] && t[j] == segs[j - 1]);
                if j - 1 > idx {
                    assert(seq_sub(segs[idx].0, base) < seq_sub(segs[j - 1].0, base));
                }
            } else if i == idx {
                assert(t[j] == segs[j - 1]);
                if j - 1 > idx {
                    assert(seq_sub(segs[idx].0, base) < seq_sub(segs[j - 1].0, base));
                }
            } else {
                assert(t[i] == segs[i - 1] && t[j] == segs[j - 1]);
            }
        }
    }
    let np = new.parked();
    assert forall|i: int, j: int| 0 <= i < j < np.len() implies #[trigger] np[i].0
        != #[trigger] np[j].0 by {
        assert(seq_sub(np[i].0, base) < seq_sub(np[j].0, base));
    }
}

/// Dropping the covered leading segments keeps the order.
pub proof fn lemma_next_parked_keeps_order(old: UploadState, new: UploadState, r: Option<usize>)
    requires
        next_parked_post(old, new, r),
        parked_ordered(old.parked(), old.last_ack),
    ensures
        parked_ordered(new.parked(), new.last_ack),
{
    let segs = old.parked();
    let k = leading_covered(segs, old.last_ack);
    lemma_leading_covered_bounds(segs, old.last_ack);
    let t = new.parked();
    assert forall|i: int, j: int| 0 <= i < j < t.len() implies seq_sub(#[trigger] t[i].0, new.last_ack)
        < seq_sub(#[trigger] t[j].0, new.last_ack) by {
        assert(t[i] == segs[i + k] && t[j] == segs[j + k]);
    }
}

proof fn lemma_leading_covered_bounds(s: Seq<(u32, Seq<u8>)>, last_ack: u32)
    ensures
        0 <= leading_covered(s, last_ack) <= s.len(),
    decreases s.len(),
{
    if s.len() > 0 {
        lemma_leading_covered_bounds(s.subrange(1, s.len() as int), last_ack);
    }
}

/// Moving the cursor forward by `n` bytes, not past the start of the
/// nearest parked segment, keeps the parked segments ordered by their
/// distance from the new cursor. (A host write that stops inside the front
/// segment leaves that segment starting behind the cursor, at the far end
/// of the distance order, until the cursor covers it.)
pub proof fn lemma_cursor_advance_keeps_order(s: Seq<(u32, Seq<u8>)>, base: u32, n: int)
    requires
        parked_ordered(s, base),
        0 <= n,
        s.len() > 0 ==> n <= seq_sub(s[0].0, base),
        n < 0x1_0000_0000,
    ensures
        parked_ordered(s, seq_add(base, n)),
{
    let nb = seq_add(base, n);
    lemma_seq_add_distance(base, n);
    assert forall|i: int| 0 <= i < s.len() implies seq_sub(#[trigger] s[i].0, nb) == seq_sub(
        s[i].0,
        base,
    ) - n by {
        if i > 0 {
            assert(seq_sub(s[0].0, base) < seq_sub(s[i].0, base));
        }
        lemma_seq_sub_chain(s[i].0, nb, base);
    }
    assert forall|i: int, j: int| 0 <= i < j < s.len() implies seq_sub(#[trigger] s[i].0, nb)
        < seq_sub(#[trigger] s[j].0, nb) by {
        assert(seq_sub(s[i].0, nb) == seq_sub(s[i].0, base) - n);
        assert(seq_sub(s[j].0, nb) == seq_sub(s[j].0, base) - n);
    }
}

/// Advancing twice is advancing by the sum.
pub proof fn lemma_seq_add_add(a: u32, x: int, y: int)
    ensures
        seq_add(seq_add(a, x), y) == seq_add(a, x + y),
{
    let m: int = 0x1_0000_0000;
    vstd::arithmetic::div_mod::lemma_add_mod_noop(a + x, y, m);
    vstd::arithmetic::div_mod::lemma_mod_twice(y, m);
    vstd::arithmetic::div_mod::lemma_mod_bound(a + x, m);
    vstd::arithmetic::div_mod::lemma_mod_bound(a + x + y, m);
    vstd::arithmetic::div_mod::lemma_mod_bound(y, m);
    vstd::arithmetic::div_mod::lemma_add_mod_noop((a + x) % m, y, m);
}

/// `payload` is the guest's stream (byte at each sequence number given by
/// `stream`) from `seq` on.
pub open spec fn seg_matches(stream: spec_fn(u32) -> u8, seq: u32, payload: Seq<u8>) -> bool {
    forall|k: int| 0 <= k < payload.len() ==> #[trigger] payload[k] == stream(seq_add(seq, k))
}

/// The host has received `written`: the guest's stream from `start` on, in
/// order, each byte once; the ACK cursor stands right after it (and after
/// the guest's FIN once that was taken); every parked segment holds the
/// guest's stream at its position.
pub open spec fn stream_written(
    up: UploadState,
    stream: spec_fn(u32) -> u8,
    start: u32,
    written: Seq<u8>,
    fin: bool,
) -> bool {
    &&& up.last_ack == seq_add(
        start,
        written.len() + if fin {
            1int
        } else {
            0int
        },
    )
    &&& seg_matches(stream, start, written)
    &&& forall|i: int|
        0 <= i < up.parked().len() ==> seg_matches(stream, #[trigger] up.parked()[i].0, up.parked()[i].1)
}

/// Written bytes followed by the next bytes of the stream are the stream.
proof fn lemma_stream_extend(
    stream: spec_fn(u32) -> u8,
    start: u32,
    written: Seq<u8>,
    more: Seq<u8>,
)
    requires
        seg_matches(stream, start, written),
        seg_matches(stream, seq_add(start, written.len() as int), more),
    ensures
        seg_matches(stream, start, written + more),
{
    let w = written + more;
    assert forall|k: int| 0 <= k < w.len() implies #[trigger] w[k] == stream(seq_add(start, k)) by {
        if k >= written.len() {
            lemma_seq_add_add(start, written.len() as int, k - written.len());
            assert(more[k - written.len()] == stream(
                seq_add(seq_add(start, written.len() as int), k - written.len()),
            ));
        }
    }
}

/// The bytes from `skip` on of a segment matching the stream match it from
/// `seq + skip` on.
proof fn lemma_stream_suffix(stream: spec_fn(u32) -> u8, seq: u32, payload: Seq<u8>, skip: int)
    requires
        seg_matches(stream, seq, payload),
        0 <= skip <= payload.len(),
    ensures
        seg_matches(stream, seq_add(seq, skip), payload.subrange(skip, payload.len() as int)),
{
    let t = payload.subrange(skip, payload.len() as int);
    assert forall|k: int| 0 <= k < t.len() implies #[trigger] t[k] == stream(
        seq_add(seq_add(seq, skip), k),
    ) by {
        lemma_seq_add_add(seq, skip, k);
        assert(t[k] == payload[skip + k]);
    }
}

/// A prefix of bytes matching the stream matches it.
proof fn lemma_stream_prefix(stream: spec_fn(u32) -> u8, seq: u32, payload: Seq<u8>, n: int)
    requires
        seg_matches(stream, seq, payload),
        0 <= n <= payload.len(),
    ensures
        seg_matches(stream, seq, payload.subrange(0, n)),
{
    let t = payload.subrange(0, n);
    assert forall|k: int| 0 <= k < t.len() implies #[trigger] t[k] == stream(seq_add(seq, k)) by {
        assert(t[k] == payload[k]);
    }
}

/// Upload stream law, planning step: for a guest segment that is the
/// guest's stream at its position, the upload decision keeps what the
/// host received and every parked segment true to the stream, and the
/// bytes it asks to write are the stream from the ACK cursor on.
pub proof fn lemma_stream_plan(
    old: UploadState,
    new: UploadState,
    seq: u32,
    payload: Seq<u8>,
    plan: UploadPlan,
    stream: spec_fn(u32) -> u8,
    start: u32,
    written: Seq<u8>,
)
    requires
        plan_post(old, new, seq, payload, plan),
        stream_written(old, stream, start, written, false),
        seg_matches(stream, seq, payload),
    ensures
        stream_written(new, stream, start, written, false),
        plan matches UploadPlan::Write { skip } ==> skip <= payload.len() && seg_matches(
            stream,
            new.last_ack,
            payload.subrange(skip as int, payload.len() as int),
        ),
{
    if let UploadPlan::Write { skip } = plan {
        lemma_stream_suffix(stream, seq, payload, skip as int);
    }
    let segs = old.parked();
    let np = new.parked();
    if np != segs {
        let idx = insert_index(segs, old.last_ack, seq_sub(seq, old.last_ack));
        lemma_insert_index_bounds(segs, old.last_ack, seq_sub(seq, old.last_ack));
        assert forall|i: int| 0 <= i < np.len() implies seg_matches(
            stream,
            #[trigger] np[i].0,
            np[i].1,
        ) by {
            if np == segs.insert(idx, (seq, payload)) {
                if i < idx {
                    assert(np[i] == segs[i]);
                } else if i > idx {
                    assert(np[i] == segs[i - 1]);
                }
            } else {
                if i != idx {
                    assert(np[i] == segs[i]);
                }
            }
        }
    }
}

/// Upload stream law, segment write: when the host takes `n` of the
/// offered bytes (the stream from the ACK cursor on), exactly those bytes
/// join what the host received and the cursor moves past them; a full
/// socket or a failed stream changes nothing. (A closed peer read side
/// moves the cursor past the segment without a write: not covered.)
pub proof fn lemma_stream_write(
    old: UploadState,
    new: UploadState,
    seq_end: u32,
    fresh: Seq<u8>,
    r: HostWrite,
    res: UploadResult,
    stream: spec_fn(u32) -> u8,
    start: u32,
    written: Seq<u8>,
)
    requires
        write_post(old, new, seq_end, fresh.len() as usize, r, res),
        fresh.len() <= usize::MAX,
        !(r is BrokenPipe),
        r matches HostWrite::Wrote(n) ==> n <= fresh.len(),
        stream_written(old, stream, start, written, false),
        seg_matches(stream, old.last_ack, fresh),
    ensures
        stream_written(
            new,
            stream,
            start,
            written + match r {
                HostWrite::Wrote(n) => fresh.subrange(0, n as int),
                _ => Seq::empty(),
            },
            false,
        ),
{
    if let HostWrite::Wrote(n) = r {
        lemma_stream_prefix(stream, old.last_ack, fresh, n as int);
        lemma_stream_extend(stream, start, written, fresh.subrange(0, n as int));
        lemma_seq_add_add(start, written.len() as int, n as int);
    } else {
        assert(written + Seq::<u8>::empty() =~= written);
    }
}

/// Upload stream law, parked drain: dropping covered segments keeps what
/// the host received; the front segment's bytes from `start` on, which the
/// drain asks to write, are the stream from the ACK cursor on.
pub proof fn lemma_stream_next_parked(
    old: UploadState,
    new: UploadState,
    r: Option<usize>,
    stream: spec_fn(u32) -> u8,
    start: u32,
    written: Seq<u8>,
)
    requires
        next_parked_post(old, new, r),
        stream_written(old, stream, start, written, false),
    ensures
        stream_written(new, stream, start, written, false),
        r matches Some(from) ==> seg_matches(
            stream,
            new.last_ack,
            new.parked()[0].1.subrange(from as int, new.parked()[0].1.len() as int),
        ),
{
    let segs = old.parked();
    let k = leading_covered(segs, old.last_ack);
    lemma_leading_covered_bounds(segs, old.last_ack);
    let np = new.parked();
    assert forall|i: int| 0 <= i < np.len() implies seg_matches(stream, #[trigger] np[i].0, np[i].1) by {
        assert(np[i] == segs[i + k]);
    }
    if let Some(from) = r {
        assert(seg_matches(stream, np[0].0, np[0].1));
        lemma_stream_suffix(stream, np[0].0, np[0].1, from as int);
    }
}

/// Upload stream law, parked write: when the host takes `n` bytes of the
/// front segment from `from` on (the stream from the ACK cursor on),
/// exactly those bytes join what the host received and the cursor moves
/// past them; a full socket or a failed stream changes nothing. (A closed
/// peer read side skips the segment without a write: not covered.)
pub proof fn lemma_stream_parked_write(
    old: UploadState,
    new: UploadState,
    from: usize,
    r: HostWrite,
    step: DrainStep,
    stream: spec_fn(u32) -> u8,
    start: u32,
    written: Seq<u8>,
)
    requires
        parked_write_post(old, new, from, r, step),
        old.parked().len() > 0,
        from < old.parked()[0].1.len(),
        seq_add(old.parked()[0].0, from as int) == old.last_ack,
        !(r is BrokenPipe),
        r matches HostWrite::Wrote(n) ==> n <= old.parked()[0].1.len() - from,
        stream_written(old, stream, start, written, false),
    ensures
        stream_written(
            new,
            stream,
            start,
            written + match r {
                HostWrite::Wrote(n) => old.parked()[0].1.subrange(from as int, from + n),
                _ => Seq::empty(),
            },
            false,
        ),
{
    let segs = old.parked();
    let front = segs[0];
    assert(seg_matches(stream, front.0, front.1));
    lemma_stream_suffix(stream, front.0, front.1, from as int);
    let rest = segs.subrange(1, segs.len() as int);
    assert forall|i: int| 0 <= i < rest.len() implies seg_matches(
        stream,
        #[trigger] rest[i].0,
        rest[i].1,
    ) by {
        assert(rest[i] == segs[i + 1]);
    }
    if let HostWrite::Wrote(n) = r {
        let tail = front.1.subrange(from as int, front.1.len() as int);
        lemma_stream_prefix(stream, old.last_ack, tail, n as int);
        assert(tail.subrange(0, n as int) =~= front.1.subrange(from as int, from + n));
        lemma_stream_extend(stream, start, written, tail.subrange(0, n as int));
        lemma_seq_add_add(start, written.len() as int, n as int);
    } else {
        assert(written + Seq::<u8>::empty() =~= written);
    }
}

/// Upload stream law, FIN: taking the guest's in-order FIN moves the
/// cursor one past the received stream.
pub proof fn lemma_stream_fin(
    old: UploadState,
    stream: spec_fn(u32) -> u8,
    start: u32,
    written: Seq<u8>,
)
    requires
        stream_written(old, stream, start, written, false),
    ensures
        stream_written(
            UploadState { last_ack: seq_add(old.last_ack, 1), ..old },
            stream,
            start,
            written,
            true,
        ),
{
    let new = UploadState { last_ack: seq_add(old.last_ack, 1), ..old };
    lemma_seq_add_add(start, written.len() as int, 1);
    assert(old.last_ack == seq_add(start, written.len() as int));
    assert(new.parked() == old.parked());
}

/// Upload stream law, start: a fresh upload half (nothing parked) has
/// received nothing of the stream that starts at its cursor.
pub proof fn lemma_stream_initially(up: UploadState, stream: spec_fn(u32) -> u8)
    requires
        up.parked().len() == 0,
    ensures
        stream_written(up, stream, up.last_ack, Seq::empty(), false),
{
    assert(seq_add(up.last_ack, 0) == up.last_ack) by {
        vstd::arithmetic::div_mod::lemma_small_mod(up.last_ack as nat, 0x1_0000_0000nat);
    }
}

/// Upload stream law, between two states of a flow: what the host
/// received in between is the guest's stream from the earlier ACK cursor
/// on, in order, each byte once, and the cursor moved by exactly its
/// length (plus one for the guest's FIN once taken).
pub proof fn lemma_stream_between(
    a: UploadState,
    b: UploadState,
    stream: spec_fn(u32) -> u8,
    start: u32,
    written: Seq<u8>,
    more: Seq<u8>,
    fin: bool,
)
    requires
        stream_written(a, stream, start, written, false),
        stream_written(b, stream, start, written + more, fin),
    ensures
        seg_matches(stream, a.last_ack, more),
        b.last_ack == seq_add(
            a.last_ack,
            more.len() + if fin {
                1int
            } else {
                0int
            },
        ),
{
    let f: int = if fin {
        1
    } else {
        0
    };
    lemma_seq_add_add(start, written.len() as int, more.len() + f);
    assert forall|k: int| 0 <= k < more.len() implies #[trigger] more[k] == stream(
        seq_add(a.last_ack, k),
    ) by {
        lemma_seq_add_add(start, written.len() as int, k);
        assert((written + more)[written.len() + k] == more[k]);
    }
}

} // verus!
