use splicetcp::checksum::ipv4_header_checksum;
use splicetcp::coalesce::{coalesce_remaining, InjectBatch, COALESCE_TIMEOUT_NS};
use splicetcp::direct_rx::{owner_after_read, owner_next_pass, OwnerPass};
use splicetcp::download::{HostRead, PollAction, RetxRing, DEAD_FLOW_TIMEOUT, READ_CHUNK};
use splicetcp::ethernet::{ETH_HEADER_LEN, TCP_ACK, TCP_FIN, TCP_PSH, TCP_RST};
use splicetcp::fastpath::FastPathFlow;
use splicetcp::flow::{FlowAddr, FrameCtx};
use splicetcp::inline::{write_inline_headers, InlineConn, TOTAL_HDR_LEN};
use splicetcp::rxplan::{
    inline_account, inline_after_read, inline_conn_kept, inline_may_read, inline_published, plan_gather, AvailBuf,
    InlineStep, BATCH_SIZE, PER_CONN_READS,
};
use splicetcp::upload::{DrainStep, HostWrite, UploadPlan, UploadResult, UploadState};

const GW_MAC: [u8; 6] = [0x02, 0x00, 0x00, 0x00, 0x00, 0x01];
const GUEST_MAC: [u8; 6] = [0x02, 0xAA, 0xBB, 0xCC, 0xDD, 0xEE];

fn addr() -> FlowAddr {
    FlowAddr { remote_ip: [198, 18, 30, 96], guest_ip: [192, 168, 64, 2], remote_port: 443, guest_port: 40021 }
}

fn ctx() -> FrameCtx {
    FrameCtx { large_frames: false, guest_mss: 1460, gw_mac: GW_MAC, guest_mac: GUEST_MAC }
}

fn flags_of(f: &[u8]) -> u8 {
    f[ETH_HEADER_LEN + 20 + 13]
}

fn seq_of(f: &[u8]) -> u32 {
    let t = ETH_HEADER_LEN + 20;
    u32::from_be_bytes([f[t + 4], f[t + 5], f[t + 6], f[t + 7]])
}

fn ack_of(f: &[u8]) -> u32 {
    let t = ETH_HEADER_LEN + 20;
    u32::from_be_bytes([f[t + 8], f[t + 9], f[t + 10], f[t + 11]])
}

/// One's-complement sum of the 16-bit words, folded.
fn ones_sum(bytes: &[u8]) -> u32 {
    let mut s: u32 = 0;
    for w in bytes.chunks(2) {
        s += u32::from(u16::from_be_bytes([w[0], *w.get(1).unwrap_or(&0)]));
    }
    while s > 0xFFFF {
        s = (s & 0xFFFF) + (s >> 16);
    }
    s
}

#[test]
fn ipv4_checksum_stored_makes_header_verify() {
    let mut hdr = [
        0x45, 0x00, 0x05, 0xdc, 0x1c, 0x46, 0x40, 0x00, 0x40, 0x06, 0x12, 0x34, 0xac, 0x10, 0x0a, 0x63,
        0xac, 0x10, 0x0a, 0x0c,
    ];
    let c = ipv4_header_checksum(&hdr);
    hdr[10..12].copy_from_slice(&c.to_be_bytes());
    assert_eq!(ones_sum(&hdr), 0xFFFF);
    assert_eq!(ipv4_header_checksum(&hdr), c, "the stored field is not read");
    hdr[10] ^= 0xFF;
    assert_eq!(ipv4_header_checksum(&hdr), c);
}

fn fresh_flow() -> FastPathFlow {
    FastPathFlow::new(addr(), 1000, 2000, 1460, None, false, 0)
}

fn poll(f: &mut FastPathFlow, now: u64, frames: &mut Vec<Vec<u8>>) -> PollAction {
    let last_ack = f.up.last_ack;
    f.down.poll(&f.addr, f.peer_mss, &ctx(), last_ack, now, DEAD_FLOW_TIMEOUT, frames)
}

#[test]
fn host_data_after_poll_advances_send_cursor_by_bytes_read() {
    let mut f = fresh_flow();
    let mut frames = Vec::new();
    assert_eq!(poll(&mut f, 1, &mut frames), PollAction::Read(READ_CHUNK));
    let data = vec![7u8; 3000];
    assert!(!f.after_host_read(HostRead::Data, &data, &ctx(), 1, &mut frames));
    assert_eq!(f.down.our_seq, 4000);
    assert_eq!(f.down.retransmit_buf.len(), 3000);
    assert_eq!(frames.len(), 3, "1460 + 1460 + 80");
    assert_eq!(seq_of(&frames[0]), 1000);
    assert_eq!(seq_of(&frames[2]), 3920);
    assert!(frames.iter().all(|fr| ack_of(fr) == 2000));
}

#[test]
fn host_eof_after_poll_sends_fin_and_takes_one_sequence_number() {
    let mut f = fresh_flow();
    let mut frames = Vec::new();
    assert!(matches!(poll(&mut f, 1, &mut frames), PollAction::Read(_)));
    assert!(!f.after_host_read(HostRead::Eof, &[], &ctx(), 1, &mut frames));
    assert_eq!(frames.len(), 1);
    assert_eq!(flags_of(&frames[0]), TCP_FIN | TCP_ACK);
    assert_eq!(seq_of(&frames[0]), 1000);
    assert_eq!(ack_of(&frames[0]), 2000);
    assert_eq!(f.down.our_seq, 1001);
    assert_eq!(f.down.fin_seq, Some(1000));
    assert!(f.down.host_eof);
}

#[test]
fn host_read_failure_resets_guest_and_removes_flow() {
    let mut f = fresh_flow();
    let mut frames = Vec::new();
    assert!(f.after_host_read(HostRead::Failed, &[], &ctx(), 1, &mut frames));
    assert_eq!(frames.len(), 1);
    assert_eq!(flags_of(&frames[0]) & TCP_RST, TCP_RST);
    assert_eq!(seq_of(&frames[0]), 1000);
    assert_eq!(ack_of(&frames[0]), 2000);
    assert_eq!(f.down.our_seq, 1000);
}

#[test]
fn host_read_would_block_changes_nothing() {
    let mut f = fresh_flow();
    let mut frames = Vec::new();
    assert!(!f.after_host_read(HostRead::WouldBlock, &[], &ctx(), 1, &mut frames));
    assert!(frames.is_empty());
    assert_eq!(f.down.our_seq, 1000);
    assert!(!f.down.host_eof);
}

#[test]
fn owner_read_steps() {
    let c = ctx();
    let mut ring = RetxRing::new(5000);
    let mut seq = 5000u32;
    let mut dead = false;
    let mut out = Vec::new();
    let data = vec![1u8; 2000];
    let stop = owner_after_read(&addr(), 1460, &c, 9, &mut seq, &mut ring, &mut dead, HostRead::Data, &data, &mut out);
    assert!(!stop && !dead);
    assert_eq!(seq, 7000);
    assert_eq!(ring.buf.len(), 2000);
    assert_eq!(out.len(), 2);
    assert_eq!(seq_of(&out[1]), 6460);

    let stop = owner_after_read(&addr(), 1460, &c, 9, &mut seq, &mut ring, &mut dead, HostRead::WouldBlock, &[], &mut out);
    assert!(!stop && !dead);
    assert_eq!((seq, out.len(), ring.buf.len()), (7000, 2, 2000));

    let stop = owner_after_read(&addr(), 1460, &c, 9, &mut seq, &mut ring, &mut dead, HostRead::Eof, &[], &mut out);
    assert!(stop && !dead, "a clean EOF leaves the flow for the close handshake");
    assert_eq!(seq, 7001);
    assert_eq!(ring.fin_seq, Some(7000));
    assert_eq!(flags_of(&out[2]), TCP_FIN | TCP_ACK);

    let mut seq2 = 100u32;
    let mut ring2 = RetxRing::new(100);
    let mut out2 = Vec::new();
    let stop = owner_after_read(&addr(), 1460, &c, 9, &mut seq2, &mut ring2, &mut dead, HostRead::Failed, &[], &mut out2);
    assert!(stop && dead);
    assert_eq!(seq2, 100);
    assert_eq!(out2.len(), 1);
    assert_eq!(flags_of(&out2[0]) & TCP_RST, TCP_RST);
    assert_eq!(seq_of(&out2[0]), 100);
    assert_eq!(ack_of(&out2[0]), 9);
}

fn inline_conn() -> InlineConn {
    InlineConn {
        remote_ip: [93, 184, 216, 34],
        guest_ip: [192, 168, 66, 2],
        remote_port: 443,
        guest_port: 50000,
        our_seq: 1000,
        last_ack: 2000,
        guest_acked: 1000,
        guest_window: 65535,
        gw_mac: [0x02, 0, 0, 0, 0, 1],
        guest_mac: [0x02, 0, 0, 0, 0, 2],
        host_eof: false,
    }
}

#[test]
fn inline_data_read_spans_the_buffers_it_filled() {
    let mut c = inline_conn();
    let mut dead = false;
    let mut ring = RetxRing::new(1000);
    let mut first = vec![0u8; TOTAL_HDR_LEN + 100];
    let payload: Vec<u8> = (0..120u8).collect();
    let step = inline_after_read(&mut c, &mut dead, &mut ring, &mut first, &[100, 50], HostRead::Data, 120, &payload);
    match step {
        InlineStep::Sent(used) => assert_eq!(used, vec![(TOTAL_HDR_LEN + 100) as u32, 20]),
        other => panic!("unexpected {:?}", other),
    }
    assert_eq!(&first[10..12], &[2, 0], "num_buffers");
    assert_eq!(first[12 + 14 + 20 + 13], TCP_PSH | TCP_ACK);
    assert_eq!(u16::from_be_bytes([first[28], first[29]]), 160, "IPv4 total length");
    assert_eq!(c.our_seq, 1120);
    assert!(!dead && !c.host_eof);
    assert_eq!(ring.buf.iter().copied().collect::<Vec<u8>>(), payload);
}

#[test]
fn inline_eof_and_error_close_the_flow() {
    let mut c = inline_conn();
    let mut dead = false;
    let mut ring = RetxRing::new(1000);
    let mut first = vec![0u8; TOTAL_HDR_LEN + 10];
    let step = inline_after_read(&mut c, &mut dead, &mut ring, &mut first, &[10], HostRead::Eof, 0, &[]);
    assert!(matches!(step, InlineStep::Closed));
    assert_eq!(first[12 + 14 + 20 + 13], TCP_FIN | TCP_ACK);
    assert_eq!(ring.fin_seq, Some(1000));
    assert_eq!(c.our_seq, 1001);
    assert!(c.host_eof && !dead);

    let mut c = inline_conn();
    let mut ring = RetxRing::new(1000);
    let step = inline_after_read(&mut c, &mut dead, &mut ring, &mut first, &[10], HostRead::Failed, 0, &[]);
    assert!(matches!(step, InlineStep::Closed));
    assert_eq!(first[12 + 14 + 20 + 13], TCP_RST | TCP_ACK);
    assert_eq!(c.our_seq, 1000);
    assert_eq!(ring.fin_seq, None);
    assert!(c.host_eof && dead);

    let mut c = inline_conn();
    let mut dead = false;
    let before = first.clone();
    let step = inline_after_read(&mut c, &mut dead, &mut ring, &mut first, &[10], HostRead::WouldBlock, 0, &[]);
    assert!(matches!(step, InlineStep::Retry));
    assert_eq!(first, before);
    assert_eq!(c.our_seq, 1000);
    assert!(!c.host_eof && !dead);
}

#[test]
fn gather_plan_stops_at_unusable_buffer_and_clamps_to_budget() {
    let bufs = [
        AvailBuf { usable: true, len: 1600 },
        AvailBuf { usable: true, len: 1600 },
        AvailBuf { usable: false, len: 1600 },
        AvailBuf { usable: true, len: 1600 },
    ];
    let (count, caps) = plan_gather(&bufs, 2000);
    assert_eq!(count, 2);
    assert_eq!(caps, vec![1534, 466]);
    let (count, caps) = plan_gather(&bufs, 100_000);
    assert_eq!((count, caps), (2, vec![1534, 1600]));
    let tiny = [AvailBuf { usable: true, len: TOTAL_HDR_LEN }];
    assert_eq!(plan_gather(&tiny, 1000), (0, vec![]));
}

#[test]
fn parked_segments_stay_ordered_from_the_cursor() {
    let mut up = UploadState::new(u32::MAX - 50);
    up.buffer_ooo_segment(u32::MAX.wrapping_add(300), &[3; 10]);
    up.buffer_ooo_segment(u32::MAX.wrapping_add(100), &[1; 10]);
    up.buffer_ooo_segment(u32::MAX - 10, &[0; 10]);
    up.buffer_ooo_segment(u32::MAX.wrapping_add(200), &[2; 10]);
    up.buffer_ooo_segment(u32::MAX.wrapping_add(100), &[9; 20]);
    let seqs: Vec<u32> = up.ooo_segs.iter().map(|s| s.0).collect();
    assert_eq!(seqs, vec![u32::MAX - 10, 99, 199, 299]);
    assert_eq!(up.ooo_segs[1].1, vec![9; 20], "the longer payload replaced the parked one");
    assert_eq!(up.ooo_bytes, 50);
    assert_eq!(up.last_ack, u32::MAX - 50, "parking never ACKs");
}

#[test]
fn upload_stream_reaches_host_in_order_once_across_wrap() {
    let start = u32::MAX - 5;
    let stream: Vec<u8> = (0..40u8).collect();
    let seg = |off: usize, len: usize| (start.wrapping_add(off as u32), &stream[off..off + len]);
    let mut up = UploadState::new(start);
    let mut written: Vec<u8> = Vec::new();
    let mut room = 7usize;
    // Out of order first, then overlapping retransmissions.
    for (off, len) in [(20usize, 10usize), (10, 15), (0, 12), (5, 10), (25, 15)] {
        let (seq, payload) = seg(off, len);
        if let UploadPlan::Write { skip } = up.plan_upload(seq, payload) {
            let fresh = &payload[skip..];
            let n = fresh.len().min(room);
            written.extend_from_slice(&fresh[..n]);
            let r = if n == 0 { HostWrite::WouldBlock } else { HostWrite::Wrote(n) };
            room = usize::MAX;
            let end = seq.wrapping_add(payload.len() as u32);
            if up.apply_upload_write(end, fresh.len(), r) == UploadResult::Advanced {
                while let Some(from) = up.next_parked_write() {
                    let data = up.ooo_segs[0].1[from..].to_vec();
                    written.extend_from_slice(&data);
                    if up.apply_parked_write(from, HostWrite::Wrote(data.len())) != DrainStep::Continue {
                        break;
                    }
                }
            }
        }
    }
    assert_eq!(written, stream, "each byte of the stream once, in order");
    assert_eq!(up.last_ack, start.wrapping_add(40));
}

#[test]
fn short_buffer_takes_no_headers_for_any_payload_length() {
    let mut buf = vec![0xAAu8; TOTAL_HDR_LEN - 1];
    assert_eq!(write_inline_headers(&mut buf, &inline_conn(), usize::MAX, 1), 0);
    assert!(buf.iter().all(|&b| b == 0xAA));
}

#[test]
fn owner_pass_reads_at_most_the_budget() {
    let mut c = inline_conn();
    c.guest_window = 5000;
    c.guest_acked = 0;
    c.our_seq = 3000;
    assert_eq!(owner_next_pass(false, &c, READ_CHUNK), OwnerPass::Read(2000));
    assert_eq!(owner_next_pass(false, &c, 1500), OwnerPass::Read(1500));
    assert_eq!(owner_next_pass(true, &c, READ_CHUNK), OwnerPass::Stop, "a dead flow stops the owner");
    c.our_seq = 5000;
    assert_eq!(owner_next_pass(false, &c, READ_CHUNK), OwnerPass::Wait);
    c.guest_window = 10_000_000;
    c.our_seq = 0;
    assert_eq!(owner_next_pass(false, &c, 1 << 20), OwnerPass::Read(262144), "window capped at 256 KiB");
}

#[test]
fn inline_scheduling_caps_reads_and_batch() {
    assert!(inline_conn_kept(false, false));
    assert!(!inline_conn_kept(true, false));
    assert!(!inline_conn_kept(false, true));
    assert!(inline_may_read(0, 0, 1));
    assert!(!inline_may_read(BATCH_SIZE as u16, 0, 1));
    assert!(!inline_may_read(0, PER_CONN_READS, 1));
    assert!(!inline_may_read(0, 0, 0));

    let (mut batch, mut per_conn) = (10u16, 3u16);
    let sent = InlineStep::Sent(vec![166, 20, 7]);
    assert!(inline_account(&sent, &mut batch, &mut per_conn));
    assert_eq!((batch, per_conn), (13, 4));
    assert_eq!(inline_published(sent), vec![166, 20, 7]);
    assert!(!inline_account(&InlineStep::Closed, &mut batch, &mut per_conn));
    assert_eq!((batch, per_conn), (14, 4));
    assert_eq!(inline_published(InlineStep::Closed), vec![TOTAL_HDR_LEN as u32]);
    assert!(!inline_account(&InlineStep::Retry, &mut batch, &mut per_conn));
    assert_eq!((batch, per_conn), (14, 4));
    assert!(inline_published(InlineStep::Retry).is_empty());
}

#[test]
fn coalescing_flushes_each_pass_that_published() {
    assert_eq!(coalesce_remaining(50_000), COALESCE_TIMEOUT_NS - 50_000);
    assert_eq!(coalesce_remaining(1_000_000), 0);
    let mut b = InjectBatch::new();
    assert_eq!(b.recv_timeout(true, 0), COALESCE_TIMEOUT_NS, "idle: wait the whole window");
    assert_eq!(b.recv_timeout(false, 1234), 1234);
    assert_eq!(b.end_pass(), None);
    b.on_published(1, false);
    assert_eq!(b.recv_timeout(true, 0), 0, "something batched: only what is queued");
    b.on_published(2, true);
    assert_eq!(b.batch, 3);
    assert_eq!(b.on_disconnect(), Some(true));
    assert_eq!(b.end_pass(), Some(true));
    assert!(!b.fire);
    b.start_pass();
    assert_eq!(b.batch, 0);
    b.on_published(1, true);
    assert_eq!(b.on_exhausted(), Some(true));
    assert_eq!((b.batch, b.fire), (0, false));
    assert_eq!(b.on_exhausted(), None);
    b.on_published(BATCH_SIZE as u16 - 1, false);
    assert!(b.may_take_frame());
    b.on_published(1, true);
    assert!(!b.may_take_frame());
    assert!(b.on_shutdown());
}
