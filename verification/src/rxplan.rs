//! Planning of one vectored host read straight into guest receive buffers
//! (mergeable receive buffers): which buffers a frame may span, how much
//! of each the read may fill under the send budget, and how the bytes a
//! read returned are spread over them.

use vstd::prelude::*;
use crate::inline::{
    InlineConn, TOTAL_HDR_LEN, inline_headers_spec, write_inline_headers, write_fin_headers,
    write_rst_headers,
};
use crate::download::{HostRead, RetxRing, RingModel, HONORED_WINDOW_CAP};
use crate::ethernet::{TCP_PSH, TCP_ACK, TCP_FIN, TCP_RST};
use crate::seqnum::{seq_add, wadd};

verus! {

/// Most receive buffers one frame spans.
pub const MAX_MERGE: usize = 16;

/// Most payload bytes gathered for one frame, keeping the 16-bit IPv4
/// total length clear of overflow.
pub const MAX_MERGED_PAYLOAD: usize = 60000;

/// Most vectored reads per connection in one pass.
pub const PER_CONN_READS: u16 = 16;

/// Most buffers published per batch before the interrupt is considered.
pub const BATCH_SIZE: usize = 256;

/// Payload room of a receive buffer of `len` bytes: the first buffer of a
/// frame also carries the 66 header bytes.
pub open spec fn payload_room(len: usize, first: bool) -> int {
    if first {
        len - TOTAL_HDR_LEN
    } else {
        len as int
    }
}

/// Whether the next receive buffer joins the frame being gathered, and its
/// payload room. A buffer must be device-writable and hold at least one
/// payload byte (after the headers, for the first); a later buffer must
/// not push the frame past [`MAX_MERGED_PAYLOAD`].
pub open spec fn admit_spec(count: usize, writable: bool, buf_len: usize, gathered: usize) -> Option<
    usize,
> {
    let first = count == 0;
    let min_len = if first {
        TOTAL_HDR_LEN + 1
    } else {
        1
    };
    if !writable || buf_len < min_len {
        None
    } else {
        let room = payload_room(buf_len, first);
        if !first && gathered + room > MAX_MERGED_PAYLOAD {
            None
        } else {
            Some(room as usize)
        }
    }
}

/// Decides whether a receive buffer of `buf_len` bytes joins a frame that
/// already spans `count` buffers with `gathered` bytes of payload room
/// (see [`admit_spec`]).
pub fn admit_buffer(count: usize, writable: bool, buf_len: usize, gathered: usize) -> (r: Option<
    usize,
>)
    ensures
        r == admit_spec(count, writable, buf_len, gathered),
{
    let min_len: usize = if count == 0 {
        TOTAL_HDR_LEN + 1
    } else {
        1
    };
    if !writable || buf_len < min_len {
        return None;
    }
    let room: usize = if count == 0 {
        buf_len - TOTAL_HDR_LEN
    } else {
        buf_len
    };
    if count > 0 && (gathered > MAX_MERGED_PAYLOAD || room > MAX_MERGED_PAYLOAD - gathered) {
        return None;
    }
    Some(room)
}

/// Capacities of the read's buffers: each buffer's payload room, clamped
/// to what is left of the budget; the list ends at the first buffer that
/// gets nothing.
pub open spec fn iov_caps_spec(lens: Seq<usize>, i: int, left: int) -> Seq<usize>
    decreases lens.len() - i,
{
    if i < 0 || i >= lens.len() {
        Seq::empty()
    } else {
        let room = payload_room(lens[i], i == 0);
        let cap = if room < left {
            room
        } else {
            left
        };
        if cap <= 0 {
            Seq::empty()
        } else {
            seq![cap as usize] + iov_caps_spec(lens, i + 1, left - cap)
        }
    }
}

/// Sum of a sequence of lengths.
pub open spec fn total(s: Seq<usize>) -> int
    decreases s.len(),
{
    if s.len() == 0 {
        0
    } else {
        s[0] + total(s.subrange(1, s.len() as int))
    }
}

proof fn lemma_total_nonneg(s: Seq<usize>)
    ensures
        total(s) >= 0,
    decreases s.len(),
{
    if s.len() > 0 {
        lemma_total_nonneg(s.subrange(1, s.len() as int));
    }
}

proof fn lemma_total_cons(x: usize, s: Seq<usize>)
    ensures
        total(seq![x] + s) == x + total(s),
{
    assert((seq![x] + s).subrange(1, s.len() as int + 1) =~= s);
}

/// The capacities never add up to more than the budget, and never exceed
/// a buffer's payload room.
pub proof fn lemma_iov_caps_within_budget(lens: Seq<usize>, i: int, left: int)
    requires
        left >= 0,
    ensures
        total(iov_caps_spec(lens, i, left)) <= left,
        forall|k: int|
            0 <= k < iov_caps_spec(lens, i, left).len() ==> #[trigger] iov_caps_spec(lens, i, left)[k]
                <= payload_room(lens[i + k], i + k == 0),
        iov_caps_spec(lens, i, left).len() <= if i < lens.len() {
            lens.len() - i
        } else {
            0
        },
    decreases lens.len() - i,
{
    if 0 <= i < lens.len() {
        let room = payload_room(lens[i], i == 0);
        let cap = if room < left {
            room
        } else {
            left
        };
        if cap > 0 {
            lemma_iov_caps_within_budget(lens, i + 1, left - cap);
            lemma_total_cons(cap as usize, iov_caps_spec(lens, i + 1, left - cap));
            let rest = iov_caps_spec(lens, i + 1, left - cap);
            assert forall|k: int| 0 <= k < iov_caps_spec(lens, i, left).len() implies #[trigger] iov_caps_spec(
                lens,
                i,
                left,
            )[k] <= payload_room(lens[i + k], i + k == 0) by {
                if k > 0 {
                    assert(iov_caps_spec(lens, i, left)[k] == rest[k - 1]);
                }
            }
        }
    }
}

/// Clamps the gathered buffers' payload room to the send budget, so one
/// read never takes more than the guest may receive (see
/// [`iov_caps_spec`]). `lens` are the buffer lengths; the first holds the
/// headers.
pub fn clamp_iov_caps(lens: &[usize], budget: usize) -> (caps: Vec<usize>)
    requires
        lens@.len() > 0 ==> lens@[0] >= TOTAL_HDR_LEN,
    ensures
        caps@ == iov_caps_spec(lens@, 0, budget as int),
        total(caps@) <= budget,
{
    let mut caps: Vec<usize> = Vec::new();
    let mut left: usize = budget;
    let mut i: usize = 0;
    let n = lens.len();
    while i < n
        invariant_except_break
            n == lens@.len(),
            i <= n,
            lens@.len() > 0 ==> lens@[0] >= TOTAL_HDR_LEN,
            left <= budget,
            caps@ + iov_caps_spec(lens@, i as int, left as int) == iov_caps_spec(lens@, 0, budget as int),
        ensures
            caps@ == iov_caps_spec(lens@, 0, budget as int),
        decreases n - i,
    {
        let room: usize = if i == 0 {
            lens[0] - TOTAL_HDR_LEN
        } else {
            lens[i]
        };
        let cap: usize = if room < left {
            room
        } else {
            left
        };
        if cap == 0 {
            proof {
                assert(caps@ + Seq::<usize>::empty() =~= caps@);
            }
            break;
        }
        let ghost rest = iov_caps_spec(lens@, i as int + 1, (left - cap) as int);
        proof {
            assert(iov_caps_spec(lens@, i as int, left as int) == seq![cap] + rest);
            assert(caps@.push(cap) + rest =~= caps@ + (seq![cap] + rest));
        }
        caps.push(cap);
        left = left - cap;
        i = i + 1;
    }
    proof {
        if i == n {
            assert(caps@ + Seq::<usize>::empty() =~= caps@);
        }
        lemma_iov_caps_within_budget(lens@, 0, budget as int);
    }
    caps
}

/// How `remaining` bytes read in one vectored read are spread over buffers
/// of capacities `caps[i..]`: each is filled in turn; the list ends once
/// nothing remains.
pub open spec fn spread_spec(caps: Seq<usize>, i: int, remaining: int) -> Seq<usize>
    decreases caps.len() - i,
{
    if i < 0 || i >= caps.len() || remaining <= 0 {
        Seq::empty()
    } else {
        let filled = if remaining < caps[i] {
            remaining
        } else {
            caps[i] as int
        };
        seq![filled as usize] + spread_spec(caps, i + 1, remaining - filled)
    }
}

/// When the read returned no more than the capacities allow, the spread
/// accounts for every byte, each buffer within its capacity.
pub proof fn lemma_spread_exact(caps: Seq<usize>, i: int, remaining: int)
    requires
        0 <= i <= caps.len(),
        0 <= remaining <= total(caps.subrange(i, caps.len() as int)),
    ensures
        total(spread_spec(caps, i, remaining)) == remaining,
        spread_spec(caps, i, remaining).len() <= caps.len() - i,
        forall|k: int|
            0 <= k < spread_spec(caps, i, remaining).len() ==> #[trigger] spread_spec(caps, i, remaining)[k]
                <= caps[i + k],
    decreases caps.len() - i,
{
    if i < caps.len() && remaining > 0 {
        let filled = if remaining < caps[i] {
            remaining
        } else {
            caps[i] as int
        };
        let tail = caps.subrange(i + 1, caps.len() as int);
        assert(caps.subrange(i, caps.len() as int) =~= seq![caps[i]] + tail);
        lemma_total_cons(caps[i], tail);
        lemma_total_nonneg(tail);
        assert(tail =~= caps.subrange(i + 1, caps.len() as int));
        lemma_spread_exact(caps, i + 1, remaining - filled);
        lemma_total_cons(filled as usize, spread_spec(caps, i + 1, remaining - filled));
        let rest = spread_spec(caps, i + 1, remaining - filled);
        assert forall|k: int| 0 <= k < spread_spec(caps, i, remaining).len() implies #[trigger] spread_spec(
            caps,
            i,
            remaining,
        )[k] <= caps[i + k] by {
            if k > 0 {
                assert(spread_spec(caps, i, remaining)[k] == rest[k - 1]);
            }
        }
    } else if i < caps.len() {
        assert(remaining == 0);
    } else {
        assert(caps.subrange(i, caps.len() as int).len() == 0);
    }
}

/// Spreads the `n` bytes a vectored read returned over buffers of
/// capacities `caps` (see [`spread_spec`]); the result's length is the
/// number of buffers the frame uses.
pub fn spread_read(n: usize, caps: &[usize]) -> (filled: Vec<usize>)
    ensures
        filled@ == spread_spec(caps@, 0, n as int),
{
    let mut out: Vec<usize> = Vec::new();
    let mut remaining: usize = n;
    let mut i: usize = 0;
    let len = caps.len();
    while i < len && remaining > 0
        invariant
            len == caps@.len(),
            i <= len,
            remaining <= n,
            out@ + spread_spec(caps@, i as int, remaining as int) == spread_spec(caps@, 0, n as int),
        decreases len - i,
    {
        let filled: usize = if remaining < caps[i] {
            remaining
        } else {
            caps[i]
        };
        let ghost rest = spread_spec(caps@, i as int + 1, (remaining - filled) as int);
        proof {
            assert(spread_spec(caps@, i as int, remaining as int) == seq![filled] + rest);
            assert(out@.push(filled) + rest =~= out@ + (seq![filled] + rest));
        }
        out.push(filled);
        remaining = remaining - filled;
        i = i + 1;
    }
    proof {
        assert(out@ + Seq::<usize>::empty() =~= out@);
    }
    out
}

/// Length published in the used ring for buffer `index` of a frame that
/// put `filled` payload bytes in it: the first also holds the headers.
pub fn used_entry_len(index: usize, filled: usize) -> (r: u32)
    requires
        filled + TOTAL_HDR_LEN <= u32::MAX,
    ensures
        r == if index == 0 {
            filled + TOTAL_HDR_LEN
        } else {
            filled as int
        },
{
    if index == 0 {
        (filled + TOTAL_HDR_LEN) as u32
    } else {
        filled as u32
    }
}

/// Used-ring lengths of the buffers a frame filled with `filled[i]`
/// payload bytes each: the first also holds the headers.
pub open spec fn used_lens_spec(filled: Seq<usize>) -> Seq<u32> {
    Seq::new(
        filled.len(),
        |i: int|
            if i == 0 {
                (filled[0] + TOTAL_HDR_LEN) as u32
            } else {
                filled[i] as u32
            },
    )
}

/// What an inline owner publishes after one vectored read of a flow's
/// host stream.
#[derive(Debug)]
pub enum InlineStep {
    /// A data frame spans the first `used.len()` gathered buffers, with
    /// these used-ring lengths; the rest go back to the guest. The owner
    /// may read again.
    Sent(Vec<u32>),
    /// A header-only FIN or RST fills the first buffer ([`TOTAL_HDR_LEN`]
    /// bytes); the rest go back. The owner is done with the flow.
    Closed,
    /// Nothing was read: every gathered buffer goes back.
    Retry,
}

/// One inline owner's step after a vectored read into gathered receive
/// buffers of capacities `caps` (the first, `first_buf`, also takes the
/// headers). Data (`n` bytes, `payload`): the headers of a frame spanning
/// the buffers the bytes filled go into `first_buf`, the bytes are
/// recorded in the retransmission ring, and the send cursor advances by
/// `n`. A clean EOF: a FIN at the send cursor, its position recorded, the
/// cursor advanced by one, the host stream marked done. A failed stream: a
/// RST at the cursors, the host stream marked done and the flow marked
/// dead for the bridge to reap (a FIN would pass a truncated stream off as
/// complete). Nothing to read: nothing changes.
pub fn inline_after_read(
    conn: &mut InlineConn,
    dead: &mut bool,
    ring: &mut RetxRing,
    first_buf: &mut [u8],
    caps: &[usize],
    r: HostRead,
    n: usize,
    payload: &[u8],
) -> (step: InlineStep)
    requires
        old(first_buf)@.len() >= TOTAL_HDR_LEN,
        caps@.len() <= MAX_MERGE,
        total(caps@) <= HONORED_WINDOW_CAP,
        r is Data ==> 0 < n <= total(caps@) && payload@.len() == n,
    ensures
        *final(dead) == (*old(dead) || r is Failed),
        match r {
            HostRead::Data => {
                let filled = spread_spec(caps@, 0, n as int);
                &&& step matches InlineStep::Sent(used) && used@ == used_lens_spec(filled)
                &&& 0 < filled.len() <= caps@.len()
                &&& total(filled) == n
                &&& final(first_buf)@ == inline_headers_spec(
                    *old(conn),
                    TCP_PSH | TCP_ACK,
                    65535,
                    n as int,
                    54 + n > 1500,
                    filled.len() as u16,
                ) + old(first_buf)@.subrange(TOTAL_HDR_LEN as int, old(first_buf)@.len() as int)
                &&& final(ring)@ == (RingModel { buf: old(ring)@.buf + payload@, ..old(ring)@ })
                &&& *final(conn) == (InlineConn {
                    our_seq: seq_add(old(conn).our_seq, n as int),
                    ..*old(conn)
                })
            },
            HostRead::Eof => {
                &&& step is Closed
                &&& final(first_buf)@ == inline_headers_spec(
                    *old(conn),
                    TCP_FIN | TCP_ACK,
                    65535,
                    0,
                    false,
                    1,
                ) + old(first_buf)@.subrange(TOTAL_HDR_LEN as int, old(first_buf)@.len() as int)
                &&& final(ring)@ == (RingModel { fin_seq: Some(old(conn).our_seq), ..old(ring)@ })
                &&& *final(conn) == (InlineConn {
                    our_seq: seq_add(old(conn).our_seq, 1),
                    host_eof: true,
                    ..*old(conn)
                })
            },
            HostRead::Failed => {
                &&& step is Closed
                &&& final(first_buf)@ == inline_headers_spec(
                    *old(conn),
                    TCP_RST | TCP_ACK,
                    0,
                    0,
                    false,
                    1,
                ) + old(first_buf)@.subrange(TOTAL_HDR_LEN as int, old(first_buf)@.len() as int)
                &&& final(ring)@ == old(ring)@
                &&& *final(conn) == (InlineConn { host_eof: true, ..*old(conn) })
            },
            HostRead::WouldBlock => {
                &&& step is Retry
                &&& final(first_buf)@ == old(first_buf)@
                &&& final(ring)@ == old(ring)@
                &&& *final(conn) == *old(conn)
            },
        },
{
    match r {
        HostRead::Data => {
            proof {
                assert(caps@.subrange(0, caps@.len() as int) =~= caps@);
                lemma_spread_exact(caps@, 0, n as int);
            }
            let filled = spread_read(n, caps);
            let ghost fs = filled@;
            proof {
                if fs.len() == 0 {
                    assert(total(fs) == 0);
                }
            }
            write_inline_headers(first_buf, conn, n, filled.len() as u16);
            ring.tee(payload);
            let mut used: Vec<u32> = Vec::new();
            let mut i: usize = 0;
            while i < filled.len()
                invariant
                    fs == filled@,
                    fs == spread_spec(caps@, 0, n as int),
                    i <= fs.len(),
                    fs.len() <= caps@.len(),
                    n <= HONORED_WINDOW_CAP,
                    forall|k: int| 0 <= k < fs.len() ==> #[trigger] fs[k] <= caps@[k],
                    total(fs) == n,
                    used@ == used_lens_spec(fs).subrange(0, i as int),
                decreases fs.len() - i,
            {
                proof {
                    lemma_part_within_total(fs, i as int);
                }
                let e = used_entry_len(i, filled[i]);
                used.push(e);
                i = i + 1;
                proof {
                    assert(used@ =~= used_lens_spec(fs).subrange(0, i as int));
                }
            }
            proof {
                assert(used@ =~= used_lens_spec(fs));
            }
            conn.our_seq = wadd(conn.our_seq, n as u32);
            InlineStep::Sent(used)
        },
        HostRead::Eof => {
            write_fin_headers(first_buf, conn);
            ring.record_fin(conn.our_seq);
            conn.our_seq = wadd(conn.our_seq, 1);
            conn.host_eof = true;
            InlineStep::Closed
        },
        HostRead::Failed => {
            write_rst_headers(first_buf, conn);
            conn.host_eof = true;
            *dead = true;
            InlineStep::Closed
        },
        HostRead::WouldBlock => InlineStep::Retry,
    }
}

/// No part of a sequence of lengths exceeds their total.
proof fn lemma_part_within_total(s: Seq<usize>, i: int)
    requires
        0 <= i < s.len(),
    ensures
        s[i] <= total(s),
    decreases s.len(),
{
    let tail = s.subrange(1, s.len() as int);
    lemma_total_nonneg(tail);
    if i > 0 {
        lemma_part_within_total(tail, i - 1);
    }
}

/// A receive buffer the guest posted, as the owner finds it at the head
/// of the available ring.
#[derive(Clone, Copy)]
pub struct AvailBuf {
    /// It has a descriptor that is device-writable and lies in guest
    /// memory.
    pub usable: bool,
    /// Its length in bytes.
    pub len: usize,
}

/// How many of the posted buffers `bufs[i..]` join the frame being
/// gathered (`gathered` bytes of payload room so far): buffers are taken in
/// order while [`admit_spec`] admits them, at most [`MAX_MERGE`].
pub open spec fn gather_count(bufs: Seq<AvailBuf>, i: int, gathered: int) -> int
    decreases bufs.len() - i,
{
    if i < 0 || i >= bufs.len() || i >= MAX_MERGE || gathered < 0 || gathered > usize::MAX {
        if i < 0 {
            0
        } else {
            i
        }
    } else {
        match admit_spec(i as usize, bufs[i].usable, bufs[i].len, gathered as usize) {
            None => i,
            Some(room) => gather_count(bufs, i + 1, gathered + room),
        }
    }
}

/// The lengths of buffers.
pub open spec fn buf_lens(bufs: Seq<AvailBuf>) -> Seq<usize> {
    bufs.map_values(|b: AvailBuf| b.len)
}

/// Plans one vectored read into the guest's posted receive buffers `bufs`
/// (in ring order) under the send budget: how many buffers the frame
/// gathers (see [`gather_count`]) and the capacity each gets (see
/// [`iov_caps_spec`]).
pub fn plan_gather(bufs: &[AvailBuf], budget: usize) -> (plan: (usize, Vec<usize>))
    ensures
        plan.0 == gather_count(bufs@, 0, 0),
        plan.0 <= bufs@.len(),
        plan.0 <= MAX_MERGE,
        plan.1@ == iov_caps_spec(buf_lens(bufs@.subrange(0, plan.0 as int)), 0, budget as int),
        total(plan.1@) <= budget,
{
    let mut count: usize = 0;
    let mut gathered: usize = 0;
    let mut lens: Vec<usize> = Vec::new();
    let n = bufs.len();
    while count < n && count < MAX_MERGE
        invariant_except_break
            n == bufs@.len(),
            count <= n,
            count <= MAX_MERGE,
            gather_count(bufs@, count as int, gathered as int) == gather_count(bufs@, 0, 0),
            lens@ == buf_lens(bufs@.subrange(0, count as int)),
            count > 0 ==> lens@[0] >= TOTAL_HDR_LEN,
        ensures
            count <= n,
            count <= MAX_MERGE,
            count == gather_count(bufs@, 0, 0),
            lens@ == buf_lens(bufs@.subrange(0, count as int)),
            count > 0 ==> lens@[0] >= TOTAL_HDR_LEN,
        decreases n - count,
    {
        let b = bufs[count];
        match admit_buffer(count, b.usable, b.len, gathered) {
            None => {
                break;
            },
            Some(room) => {
                proof {
                    assert(buf_lens(bufs@.subrange(0, count as int + 1)) =~= buf_lens(
                        bufs@.subrange(0, count as int),
                    ).push(b.len));
                }
                lens.push(b.len);
                if count > 0 {
                    gathered = gathered + room;
                } else {
                    gathered = room;
                }
                count = count + 1;
            },
        }
    }
    let caps = clamp_iov_caps(lens.as_slice(), budget);
    (count, caps)
}

/// An inline connection stays with its owner until its host stream ended
/// or the bridge tore its flow down.
pub fn inline_conn_kept(host_eof: bool, dead: bool) -> (keep: bool)
    ensures
        keep == (!host_eof && !dead),
{
    !host_eof && !dead
}

/// Whether the owner reads a connection (again) in this pass: the batch
/// of published buffers is not full, the connection has had fewer than
/// [`PER_CONN_READS`] reads this pass, and the guest's window has room.
pub fn inline_may_read(batch: u16, per_conn: u16, budget: u32) -> (r: bool)
    ensures
        r == ((batch as int) < BATCH_SIZE && per_conn < PER_CONN_READS && budget > 0),
{
    (batch as usize) < BATCH_SIZE && per_conn < PER_CONN_READS && budget > 0
}

/// The used-ring lengths a step publishes: one entry per buffer of a data
/// frame, one header-only entry for a FIN or RST, none when nothing was
/// read.
pub open spec fn published_spec(step: InlineStep) -> Seq<u32> {
    match step {
        InlineStep::Sent(used) => used@,
        InlineStep::Closed => seq![TOTAL_HDR_LEN as u32],
        InlineStep::Retry => Seq::empty(),
    }
}

/// The used-ring entries a step publishes, in gather order. The owner
/// consumes exactly as many available entries as it publishes (the rest of
/// the gather goes back), so the ring's available and used cursors move
/// together.
pub fn inline_published(step: InlineStep) -> (used: Vec<u32>)
    ensures
        used@ == published_spec(step),
{
    match step {
        InlineStep::Sent(used) => used,
        InlineStep::Closed => {
            let mut v: Vec<u32> = Vec::new();
            v.push(TOTAL_HDR_LEN as u32);
            proof {
                assert(v@ =~= seq![TOTAL_HDR_LEN as u32]);
            }
            v
        },
        InlineStep::Retry => Vec::new(),
    }
}

/// Pass accounting after a step on one connection: a data frame counts its
/// buffers toward the batch and one read toward the connection, and the
/// owner may read the connection again; a FIN or RST counts one buffer and
/// ends the connection's turn; nothing read ends the turn.
pub fn inline_account(step: &InlineStep, batch: &mut u16, per_conn: &mut u16) -> (again: bool)
    requires
        (*old(batch) as int) < BATCH_SIZE,
        *old(per_conn) < PER_CONN_READS,
        step matches InlineStep::Sent(used) ==> used@.len() <= MAX_MERGE,
    ensures
        *final(batch) == *old(batch) + published_spec(*step).len(),
        *final(per_conn) == *old(per_conn) + if step is Sent {
            1int
        } else {
            0int
        },
        again == step is Sent,
{
    match step {
        InlineStep::Sent(used) => {
            *batch = *batch + used.len() as u16;
            *per_conn = *per_conn + 1;
            true
        },
        InlineStep::Closed => {
            *batch = *batch + 1;
            false
        },
        InlineStep::Retry => false,
    }
}

} // verus!
