//! Wrap-safe TCP sequence-space arithmetic.

use vstd::prelude::*;

verus! {

/// `a - b` in 32-bit sequence space (RFC 793 modular arithmetic).
pub open spec fn seq_sub(a: u32, b: u32) -> int {
    (a as int - b as int) % 0x1_0000_0000
}

/// `a + n` in 32-bit sequence space.
pub open spec fn seq_add(a: u32, n: int) -> u32 {
    ((a as int + n) % 0x1_0000_0000) as u32
}

/// `b` lies at most half the sequence space at or behind `a`
/// (the conventional "not ahead" test `a - b < 2^31`).
pub open spec fn seq_not_ahead(a: u32, b: u32) -> bool {
    seq_sub(a, b) < 0x8000_0000
}

/// Bytes the shim may still send host-to-guest without exceeding the
/// guest's advertised receive window, as a function of plain values.
pub open spec fn send_budget_spec(our_seq: u32, guest_acked: u32, guest_window: u32) -> u32 {
    let in_flight = seq_sub(our_seq, guest_acked);
    if in_flight >= 0x8000_0000 {
        guest_window
    } else if guest_window >= in_flight {
        (guest_window - in_flight) as u32
    } else {
        0
    }
}

/// Wrapping subtraction with an exact contract.
pub fn wsub(a: u32, b: u32) -> (r: u32)
    ensures
        r == seq_sub(a, b),
{
    a.wrapping_sub(b)
}

/// Wrapping addition with an exact contract.
pub fn wadd(a: u32, b: u32) -> (r: u32)
    ensures
        r == seq_add(a, b as int),
{
    a.wrapping_add(b)
}

/// Bytes the shim may still send host-to-guest without exceeding the
/// guest's advertised receive window: `window - (sent - acked)`, wrap-safe.
/// A snapshot where the ack runs ahead of the send cursor (racing shared
/// counters) counts as nothing in flight.
pub fn send_budget(our_seq: u32, guest_acked: u32, guest_window: u32) -> (r: u32)
    ensures
        r == send_budget_spec(our_seq, guest_acked, guest_window),
        r <= guest_window,
{
    let in_flight = wsub(our_seq, guest_acked);
    if in_flight >= 0x8000_0000 {
        return guest_window;
    }
    guest_window.saturating_sub(in_flight)
}

/// Sending the whole budget never takes the bytes in flight past the
/// window: with `in_flight = our_seq - guest_acked` not wrapped,
/// `in_flight + budget <= window` whenever the budget is positive.
pub proof fn lemma_budget_within_window(our_seq: u32, guest_acked: u32, guest_window: u32)
    requires
        seq_sub(our_seq, guest_acked) < 0x8000_0000,
    ensures
        send_budget_spec(our_seq, guest_acked, guest_window) == 0 || seq_sub(our_seq, guest_acked)
            + send_budget_spec(our_seq, guest_acked, guest_window) <= guest_window,
{
}

/// Sequence distances add up modulo 2^32.
pub proof fn lemma_seq_sub_chain(a: u32, b: u32, c: u32)
    ensures
        seq_sub(a, c) == (seq_sub(a, b) + seq_sub(b, c)) % 0x1_0000_0000,
{
    vstd::arithmetic::div_mod::lemma_add_mod_noop(a - b, b - c, 0x1_0000_0000);
}

/// Advancing by `n` (less than 2^32) puts the cursor `n` ahead.
pub proof fn lemma_seq_add_distance(a: u32, n: int)
    requires
        0 <= n < 0x1_0000_0000,
    ensures
        seq_sub(seq_add(a, n), a) == n,
{
    let m: int = 0x1_0000_0000;
    vstd::arithmetic::div_mod::lemma_sub_mod_noop(a + n, a as int, m);
    vstd::arithmetic::div_mod::lemma_mod_twice(a + n, m);
    vstd::arithmetic::div_mod::lemma_small_mod(a as nat, m as nat);
    vstd::arithmetic::div_mod::lemma_small_mod(n as nat, m as nat);
}

/// Distance from a cursor to itself.
pub proof fn lemma_seq_sub_self(a: u32)
    ensures
        seq_sub(a, a) == 0,
{
}

} // verus!
