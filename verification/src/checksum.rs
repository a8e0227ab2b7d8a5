//! RFC 1071 Internet checksums: IPv4 header checksum, TCP pseudo-header
//! checksum and the full TCP checksum.

use vstd::prelude::*;

verus! {

/// Big-endian 16-bit word built from two bytes.
pub open spec fn be16(hi: u8, lo: u8) -> nat {
    (hi as nat) * 256 + (lo as nat)
}

/// Sum of the big-endian 16-bit words of `s`; an odd trailing byte is
/// padded with a zero low byte (RFC 1071).
pub open spec fn word_sum(s: Seq<u8>) -> nat
    decreases s.len(),
{
    if s.len() == 0 {
        0
    } else if s.len() == 1 {
        (s[0] as nat) * 256
    } else {
        be16(s[0], s[1]) + word_sum(s.subrange(2, s.len() as int))
    }
}

/// One's-complement folding of a sum into 16 bits: the value in
/// `1..=0xFFFF` congruent to `s` modulo `0xFFFF`, or 0 for a zero sum.
pub open spec fn ones_fold(s: nat) -> nat {
    if s == 0 {
        0
    } else {
        ((s - 1) as nat) % 0xFFFF + 1
    }
}

/// The Internet checksum of a word sum: the one's complement of its fold.
pub open spec fn checksum_of(s: nat) -> u16 {
    (0xFFFF - ones_fold(s)) as u16
}

/// The bytes an IPv4 header checksum covers: every complete 16-bit word of
/// `h`, with the checksum field (bytes 10 and 11) read as zero.
pub open spec fn ipv4_checksum_input(h: Seq<u8>) -> Seq<u8> {
    Seq::new(
        (h.len() - h.len() % 2) as nat,
        |j: int|
            if j == 10 || j == 11 {
                0u8
            } else {
                h[j]
            },
    )
}

/// IPv4 header checksum of `h` (checksum field ignored).
pub open spec fn ipv4_checksum_spec(h: Seq<u8>) -> u16 {
    checksum_of(word_sum(ipv4_checksum_input(h)))
}

/// Word sum of the TCP/IPv4 pseudo-header.
pub open spec fn pseudo_sum(src: Seq<u8>, dst: Seq<u8>, tcp_len: nat) -> nat {
    be16(src[0], src[1]) + be16(src[2], src[3]) + be16(dst[0], dst[1]) + be16(dst[2], dst[3]) + 6
        + tcp_len
}

/// Checksum of the TCP/IPv4 pseudo-header alone (what a device completing
/// the checksum in hardware or in the guest expects in the field).
pub open spec fn pseudo_checksum_spec(src: Seq<u8>, dst: Seq<u8>, tcp_len: nat) -> u16 {
    checksum_of(pseudo_sum(src, dst, tcp_len))
}

/// Full TCP checksum of `segment` (whose checksum field is zero) between
/// `src` and `dst`; the pseudo-header carries the 32-bit segment length.
pub open spec fn tcp_checksum_spec(src: Seq<u8>, dst: Seq<u8>, segment: Seq<u8>) -> u16 {
    checksum_of(pseudo_sum(src, dst, (segment.len() as u32) as nat) + word_sum(segment))
}

/// Largest input the checksum routines accept (keeps the 64-bit
/// accumulator from overflowing; far beyond any real segment).
pub const MAX_CHECKSUM_INPUT: usize = 0xFFFF_FFFF;

proof fn lemma_word_sum_bound(s: Seq<u8>)
    ensures
        word_sum(s) <= 65535 * ((s.len() + 1) / 2),
    decreases s.len(),
{
    if s.len() >= 2 {
        lemma_word_sum_bound(s.subrange(2, s.len() as int));
    }
}

proof fn lemma_word_sum_step(s: Seq<u8>, i: int)
    requires
        0 <= i,
        i + 1 < s.len(),
    ensures
        word_sum(s.subrange(i, s.len() as int)) == be16(s[i], s[i + 1]) + word_sum(
            s.subrange(i + 2, s.len() as int),
        ),
{
    let t = s.subrange(i, s.len() as int);
    assert(t.subrange(2, t.len() as int) =~= s.subrange(i + 2, s.len() as int));
}

proof fn lemma_fold_step(sum: u64)
    requires
        sum > 0xFFFF,
    ensures
        (sum & 0xFFFF) + (sum >> 16) < sum,
        (sum & 0xFFFF) + (sum >> 16) > 0,
        ((sum & 0xFFFF) + (sum >> 16)) as int % 0xFFFF == sum as int % 0xFFFF,
{
    assert(sum & 0xFFFF == sum % 65536 && sum >> 16 == sum / 65536) by (bit_vector);
    let q = sum / 65536;
    let r = sum % 65536;
    assert(sum == q * 65536 + r) by (nonlinear_arith)
        requires
            q == sum / 65536,
            r == sum % 65536,
    ;
    assert((r + q) as int % 0xFFFF == (q * 65536 + r) as int % 0xFFFF) by (nonlinear_arith)
        requires
            q >= 0,
            r >= 0,
    {
        assert(q * 65536 + r == (r + q) + q * 0xFFFF);
        vstd::arithmetic::div_mod::lemma_mod_multiples_vanish(q as int, (r + q) as int, 0xFFFF);
    }
}

proof fn lemma_fold_final(sum: int, total: int)
    requires
        0 <= sum <= 0xFFFF,
        0 <= total,
        sum % 0xFFFF == total % 0xFFFF,
        (sum == 0) == (total == 0),
    ensures
        sum == ones_fold(total as nat),
{
    if total != 0 {
        assert((sum - 1) % 0xFFFF == (total - 1) % 0xFFFF) by {
            vstd::arithmetic::div_mod::lemma_sub_mod_noop(sum, 1, 0xFFFF);
            vstd::arithmetic::div_mod::lemma_sub_mod_noop(total, 1, 0xFFFF);
        }
        vstd::arithmetic::div_mod::lemma_small_mod((sum - 1) as nat, 0xFFFF);
    }
}

/// Folds a word sum to 16 bits and complements it.
pub fn fold_checksum(total: u64) -> (r: u16)
    ensures
        r == checksum_of(total as nat),
{
    let mut sum = total;
    while sum > 0xFFFF
        invariant
            sum as int % 0xFFFF == total as int % 0xFFFF,
            (sum == 0) == (total == 0),
        decreases sum,
    {
        proof {
            lemma_fold_step(sum);
        }
        sum = (sum & 0xFFFF) + (sum >> 16);
    }
    proof {
        lemma_fold_final(sum as int, total as int);
    }
    (0xFFFF - sum) as u16
}

/// IPv4 header checksum: the Internet checksum of every complete 16-bit
/// word of `header`, skipping the checksum field at bytes 10..12.
pub fn ipv4_header_checksum(header: &[u8]) -> (r: u16)
    requires
        header@.len() <= 131072,
    ensures
        r == ipv4_checksum_spec(header@),
{
    let ghost h = ipv4_checksum_input(header@);
    let n = header.len();
    let mut sum: u32 = 0;
    let mut i: usize = 0;
    proof {
        assert(h.subrange(0, h.len() as int) =~= h);
    }
    while i + 1 < n
        invariant
            n == header@.len(),
            h == ipv4_checksum_input(header@),
            n <= 131072,
            i % 2 == 0,
            i <= n,
            i <= h.len(),
            sum as nat + word_sum(h.subrange(i as int, h.len() as int)) == word_sum(h),
            sum <= 65535 * (i / 2),
        decreases n - i,
    {
        proof {
            lemma_word_sum_step(h, i as int);
        }
        if i != 10 {
            sum = sum + (header[i] as u32) * 256 + header[i + 1] as u32;
        }
        i = i + 2;
    }
    proof {
        assert(h.subrange(i as int, h.len() as int) =~= Seq::<u8>::empty());
    }
    fold_checksum(sum as u64)
}

/// Checksum of the TCP/IPv4 pseudo-header for a TCP segment of `tcp_len`
/// bytes from `src_ip` to `dst_ip`.
pub fn tcp_pseudo_header_checksum(src_ip: [u8; 4], dst_ip: [u8; 4], tcp_len: usize) -> (r: u16)
    ensures
        r == pseudo_checksum_spec(src_ip@, dst_ip@, (tcp_len as u32) as nat),
{
    let mut sum: u64 = 0;
    sum = sum + (src_ip[0] as u64) * 256 + src_ip[1] as u64;
    sum = sum + (src_ip[2] as u64) * 256 + src_ip[3] as u64;
    sum = sum + (dst_ip[0] as u64) * 256 + dst_ip[1] as u64;
    sum = sum + (dst_ip[2] as u64) * 256 + dst_ip[3] as u64;
    sum = sum + 6;
    sum = sum + (tcp_len as u32) as u64;
    fold_checksum(sum)
}

/// Full TCP checksum of `segment` (header with a zero checksum field, then
/// payload) between `src_ip` and `dst_ip`.
pub fn tcp_checksum(src_ip: [u8; 4], dst_ip: [u8; 4], segment: &[u8]) -> (r: u16)
    requires
        segment@.len() <= MAX_CHECKSUM_INPUT,
    ensures
        r == tcp_checksum_spec(src_ip@, dst_ip@, segment@),
{
    let s = segment;
    let n = s.len();
    let mut sum: u64 = 0;
    sum = sum + (src_ip[0] as u64) * 256 + src_ip[1] as u64;
    sum = sum + (src_ip[2] as u64) * 256 + src_ip[3] as u64;
    sum = sum + (dst_ip[0] as u64) * 256 + dst_ip[1] as u64;
    sum = sum + (dst_ip[2] as u64) * 256 + dst_ip[3] as u64;
    sum = sum + 6;
    sum = sum + (n as u32) as u64;
    let ghost base = sum;
    let mut i: usize = 0;
    proof {
        assert(s@.subrange(0, n as int) =~= s@);
    }
    while i + 1 < n
        invariant
            n == s@.len(),
            n <= MAX_CHECKSUM_INPUT,
            i % 2 == 0,
            i <= n,
            base <= 4 * 65535 + 6 + 0xFFFF_FFFF,
            sum as nat + word_sum(s@.subrange(i as int, n as int)) == base + word_sum(s@),
            sum <= base + 65535 * (i / 2),
        decreases n - i,
    {
        proof {
            lemma_word_sum_step(s@, i as int);
        }
        sum = sum + (s[i] as u64) * 256 + s[i + 1] as u64;
        i = i + 2;
    }
    if i < n {
        let ghost t = s@.subrange(i as int, n as int);
        proof {
            assert(t.len() == 1);
        }
        sum = sum + (s[i] as u64) * 256;
    } else {
        proof {
            assert(s@.subrange(i as int, n as int) =~= Seq::<u8>::empty());
        }
    }
    fold_checksum(sum)
}

/// Replacing the aligned 16-bit word at `i` changes the word sum by the
/// difference of the two words.
pub proof fn lemma_word_sum_replace(s: Seq<u8>, i: int, x: u8, y: u8)
    requires
        0 <= i,
        i % 2 == 0,
        i + 1 < s.len(),
    ensures
        word_sum(s.update(i, x).update(i + 1, y)) + be16(s[i], s[i + 1]) == word_sum(s) + be16(x, y),
    decreases s.len(),
{
    let t = s.update(i, x).update(i + 1, y);
    if i >= 2 {
        let rest = s.subrange(2, s.len() as int);
        lemma_word_sum_replace(rest, i - 2, x, y);
        assert(t.subrange(2, t.len() as int) =~= rest.update(i - 2, x).update(i - 1, y));
    } else {
        assert(t.subrange(2, t.len() as int) =~= s.subrange(2, s.len() as int));
    }
}

/// Adding the checksum of a sum to it gives a sum that folds to 0xFFFF:
/// what a receiver checks.
pub proof fn lemma_checksum_complements(total: nat)
    ensures
        ones_fold(total + checksum_of(total) as nat) == 0xFFFF,
{
    let f = ones_fold(total);
    if total == 0 {
        assert(checksum_of(total) == 0xFFFF);
        assert(ones_fold(0xFFFF) == 0xFFFF);
    } else {
        let m: int = 0xFFFF;
        let q = (total - 1) / m;
        assert(total - 1 == q * m + (total - 1) % m) by {
            vstd::arithmetic::div_mod::lemma_fundamental_div_mod(total - 1, m);
        }
        assert(f == (total - 1) % m + 1);
        assert(0 <= (total - 1) % m < m) by {
            vstd::arithmetic::div_mod::lemma_mod_bound(total - 1, m);
        }
        let c = m - f;
        assert(checksum_of(total) == c);
        let sum = total + c;
        // sum - 1 == q * m + (m - 1)
        assert(sum - 1 == q * m + (m - 1));
        assert((sum - 1) % m == m - 1) by {
            vstd::arithmetic::div_mod::lemma_fundamental_div_mod_converse(sum - 1, m, q, m - 1);
        }
    }
}

/// The IPv4 header checksum does not read the checksum field: two headers
/// that differ only in bytes 10 and 11 have the same checksum.
pub proof fn lemma_ipv4_checksum_ignores_field(h: Seq<u8>, g: Seq<u8>)
    requires
        h.len() == g.len(),
        forall|j: int| 0 <= j < h.len() && j != 10 && j != 11 ==> h[j] == g[j],
    ensures
        ipv4_checksum_spec(h) == ipv4_checksum_spec(g),
{
    assert(ipv4_checksum_input(h) =~= ipv4_checksum_input(g));
}

/// Storing the IPv4 header checksum big-endian in bytes 10 and 11 of any
/// header of whole 16-bit words makes the folded one's-complement sum of all
/// its words 0xFFFF: what a receiver checks.
pub proof fn lemma_ipv4_checksum_verifies(h: Seq<u8>)
    requires
        h.len() % 2 == 0,
        12 <= h.len(),
    ensures
        ({
            let c = ipv4_checksum_spec(h);
            ones_fold(word_sum(h.update(10, (c / 256) as u8).update(11, (c % 256) as u8)))
                == 0xFFFF
        }),
{
    let c = ipv4_checksum_spec(h);
    let x = (c / 256) as u8;
    let y = (c % 256) as u8;
    let z = ipv4_checksum_input(h);
    assert(h.update(10, x).update(11, y) =~= z.update(10, x).update(11, y));
    lemma_word_sum_replace(z, 10, x, y);
    assert(be16(x, y) == c as nat);
    lemma_checksum_complements(word_sum(z));
}

} // verus!
