//! Interrupt coalescing of the receive-injection loop: how long to wait
//! for the next channel frame, and when to flush the guest interrupt for
//! the buffers published in a pass.

use vstd::prelude::*;
use crate::rxplan::BATCH_SIZE;

verus! {

/// Longest wait for channel frames in one pass, in nanoseconds (200 µs).
pub const COALESCE_TIMEOUT_NS: u64 = 200_000;

/// Back-off after the guest ran out of receive buffers, in nanoseconds
/// (100 µs).
pub const DESCRIPTOR_BACKOFF_NS: u64 = 100_000;

/// Buffers published in the current pass, and whether any publication
/// since the last flush asked for an interrupt.
pub struct InjectBatch {
    pub batch: u16,
    pub fire: bool,
}

/// Wait left for channel frames once `elapsed` nanoseconds of the pass
/// went to inline connections.
pub open spec fn remaining_spec(elapsed: u64) -> u64 {
    if elapsed < COALESCE_TIMEOUT_NS {
        (COALESCE_TIMEOUT_NS - elapsed) as u64
    } else {
        0
    }
}

/// Wait before the next channel frame: the whole coalescing window when
/// nothing is batched and no inline connection is polled; otherwise what
/// is left of the window (zero: only take what is already queued).
pub open spec fn recv_timeout_spec(batch: u16, no_inline: bool, remaining: u64) -> u64 {
    if batch == 0 && no_inline {
        COALESCE_TIMEOUT_NS
    } else {
        remaining
    }
}

impl InjectBatch {
    /// Nothing published, no interrupt pending.
    pub fn new() -> (b: Self)
        ensures
            b.batch == 0,
            !b.fire,
    {
        InjectBatch { batch: 0, fire: false }
    }

    /// A new pass counts from zero; a pending interrupt stays pending.
    pub fn start_pass(&mut self)
        ensures
            final(self).batch == 0,
            final(self).fire == old(self).fire,
    {
        self.batch = 0;
    }

    /// Whether the pass takes another channel frame: the batch is not
    /// full.
    pub fn may_take_frame(&self) -> (r: bool)
        ensures
            r == ((self.batch as int) < BATCH_SIZE),
    {
        (self.batch as usize) < BATCH_SIZE
    }

    /// The wait before the next channel frame (see [`recv_timeout_spec`]).
    pub fn recv_timeout(&self, no_inline: bool, remaining: u64) -> (t: u64)
        ensures
            t == recv_timeout_spec(self.batch, no_inline, remaining),
    {
        if self.batch == 0 && no_inline {
            COALESCE_TIMEOUT_NS
        } else {
            remaining
        }
    }

    /// Published buffers: `count` more in the batch, and an interrupt
    /// pending if the publication asked for one.
    pub fn on_published(&mut self, count: u16, notify: bool)
        requires
            old(self).batch + count <= u16::MAX,
        ensures
            final(self).batch == old(self).batch + count,
            final(self).fire == (old(self).fire || notify),
    {
        self.batch = self.batch + count;
        self.fire = self.fire || notify;
    }

    /// The guest ran out of receive buffers: flush what this pass
    /// published so the guest reposts (`Some(fire)`, the interrupt decision
    /// handed to the flush), and start the count again; with nothing
    /// published, nothing to flush.
    pub fn on_exhausted(&mut self) -> (flush: Option<bool>)
        ensures
            old(self).batch > 0 ==> flush == Some(old(self).fire) && final(self).batch == 0
                && !final(self).fire,
            old(self).batch == 0 ==> flush is None && final(self).batch == old(self).batch
                && final(self).fire == old(self).fire,
    {
        if self.batch > 0 {
            let f = self.fire;
            self.batch = 0;
            self.fire = false;
            Some(f)
        } else {
            None
        }
    }

    /// End of a pass: a pass that published anything flushes with the
    /// pending interrupt decision, which is then cleared.
    pub fn end_pass(&mut self) -> (flush: Option<bool>)
        ensures
            old(self).batch > 0 ==> flush == Some(old(self).fire) && !final(self).fire,
            old(self).batch == 0 ==> flush is None && final(self).fire == old(self).fire,
            final(self).batch == old(self).batch,
    {
        if self.batch > 0 {
            let f = self.fire;
            self.fire = false;
            Some(f)
        } else {
            None
        }
    }

    /// The frame channel closed: flush a pass that published anything.
    pub fn on_disconnect(&self) -> (flush: Option<bool>)
        ensures
            flush == if self.batch > 0 {
                Some(self.fire)
            } else {
                None
            },
    {
        if self.batch > 0 {
            Some(self.fire)
        } else {
            None
        }
    }

    /// Shutdown: flush an interrupt still pending.
    pub fn on_shutdown(&self) -> (flush: bool)
        ensures
            flush == self.fire,
    {
        self.fire
    }
}

/// Wait left for channel frames (see [`remaining_spec`]).
pub fn coalesce_remaining(elapsed: u64) -> (r: u64)
    ensures
        r == remaining_spec(elapsed),
        r <= COALESCE_TIMEOUT_NS,
{
    COALESCE_TIMEOUT_NS.saturating_sub(elapsed)
}

/// No wait handed to the frame channel is longer than the coalescing
/// window, so a published buffer waits at most that long for its
/// interrupt.
pub proof fn lemma_recv_timeout_bounded(batch: u16, no_inline: bool, elapsed: u64)
    ensures
        recv_timeout_spec(batch, no_inline, remaining_spec(elapsed)) <= COALESCE_TIMEOUT_NS,
{
}

} // verus!
