use splicetcp::download::{
    PollAction, RetxRing, DEAD_FLOW_TIMEOUT, HALF_CLOSE_TIMEOUT, INITIAL_RTO, MAX_RTO,
    ZERO_WINDOW_PERSIST_INTERVAL,
};
use splicetcp::ethernet::ETH_HEADER_LEN;
use splicetcp::fastpath::{inline_eligible, FastPathFlow, SegmentEnd, SegmentStep};
use splicetcp::flow::{FlowAddr, FrameCtx};
use splicetcp::segment::parse_tcp_header;
use splicetcp::upload::HostWrite;

const GW_MAC: [u8; 6] = [0x02, 0x00, 0x00, 0x00, 0x00, 0x01];
const GUEST_MAC: [u8; 6] = [0x02, 0xAA, 0xBB, 0xCC, 0xDD, 0xEE];
const MS: u64 = 1_000_000;
const SEC: u64 = 1_000_000_000;

fn addr() -> FlowAddr {
    FlowAddr { remote_ip: [198, 18, 30, 96], guest_ip: [192, 168, 64, 2], remote_port: 443, guest_port: 40021 }
}

fn ctx(guest_mss: usize, large_frames: bool) -> FrameCtx {
    FrameCtx { large_frames, guest_mss, gw_mac: GW_MAC, guest_mac: GUEST_MAC }
}

fn flow(peer_mss: u16, inline_owned: bool) -> FastPathFlow {
    FastPathFlow::new(addr(), 1000, 2000, peer_mss, None, inline_owned, 0)
}

/// A guest segment of the flow (guest → remote).
fn segment(seq: u32, ack: u32, window: u16, flags: u8, payload: &[u8]) -> Vec<u8> {
    let ip_total = 40 + payload.len();
    let mut frame = vec![0u8; ETH_HEADER_LEN + ip_total];
    frame[0..6].copy_from_slice(&GW_MAC);
    frame[6..12].copy_from_slice(&GUEST_MAC);
    frame[12..14].copy_from_slice(&0x0800u16.to_be_bytes());
    let ip = 14;
    frame[ip] = 0x45;
    frame[ip + 2..ip + 4].copy_from_slice(&(ip_total as u16).to_be_bytes());
    frame[ip + 8] = 64;
    frame[ip + 9] = 6;
    frame[ip + 12..ip + 16].copy_from_slice(&[192, 168, 64, 2]);
    frame[ip + 16..ip + 20].copy_from_slice(&[198, 18, 30, 96]);
    let tcp = 34;
    frame[tcp..tcp + 2].copy_from_slice(&40021u16.to_be_bytes());
    frame[tcp + 2..tcp + 4].copy_from_slice(&443u16.to_be_bytes());
    frame[tcp + 4..tcp + 8].copy_from_slice(&seq.to_be_bytes());
    frame[tcp + 8..tcp + 12].copy_from_slice(&ack.to_be_bytes());
    frame[tcp + 12] = 0x50;
    frame[tcp + 13] = flags;
    frame[tcp + 14..tcp + 16].copy_from_slice(&window.to_be_bytes());
    frame[tcp + 20..].copy_from_slice(payload);
    frame
}

fn flags_of(f: &[u8]) -> u8 {
    f[ETH_HEADER_LEN + 20 + 13]
}

fn seq_of(f: &[u8]) -> u32 {
    let t = ETH_HEADER_LEN + 20;
    u32::from_be_bytes([f[t + 4], f[t + 5], f[t + 6], f[t + 7]])
}

fn ack_of(f: &[u8]) -> u32 {
    let t = ETH_HEADER_LEN + 20;
    u32::from_be_bytes([f[t + 8], f[t + 9], f[t + 10], f[t + 11]])
}

fn ip_len_of(f: &[u8]) -> usize {
    usize::from(u16::from_be_bytes([f[ETH_HEADER_LEN + 2], f[ETH_HEADER_LEN + 3]]))
}

fn payload_len_of(f: &[u8]) -> usize {
    f.len() - 54
}

/// What the datapath does with a guest frame of the flow, with a host
/// socket that takes everything (`written` collects it).
enum Reply {
    NotTaken,
    Reset,
    Failed(Vec<u8>),
    Frame(Vec<u8>),
    HalfClose(Vec<u8>),
    Close(Vec<u8>),
}

fn intercept(f: &mut FastPathFlow, frame: &[u8], now: u64, written: &mut Vec<u8>) -> Reply {
    intercept_with(f, frame, now, written, &mut |data: &[u8]| HostWrite::Wrote(data.len()))
}

/// The datapath's handling of a guest frame, with `host` answering writes.
fn intercept_with(
    f: &mut FastPathFlow,
    frame: &[u8],
    now: u64,
    written: &mut Vec<u8>,
    host: &mut dyn FnMut(&[u8]) -> HostWrite,
) -> Reply {
    let c = ctx(1994, false);
    let h = match parse_tcp_header(frame) {
        Some(h) => h,
        None => return Reply::NotTaken,
    };
    let (mut step, len) = f.start_segment(frame, &h, now);
    loop {
        step = match step {
            SegmentStep::NotTaken => return Reply::NotTaken,
            SegmentStep::Reset => return Reply::Reset,
            SegmentStep::WriteSegment { from, to, seq_end } => {
                let r = host(&frame[from..to]);
                if let HostWrite::Wrote(n) = r {
                    written.extend_from_slice(&frame[from..from + n]);
                }
                f.after_segment_write(seq_end, to - from, r, &c)
            }
            SegmentStep::Drain => f.next_parked(),
            SegmentStep::WriteParked { start } => {
                let data = f.up.ooo_segs[0].1[start..].to_vec();
                let r = host(&data);
                if let HostWrite::Wrote(n) = r {
                    written.extend_from_slice(&data[..n]);
                }
                f.after_parked_write(start, r, &c)
            }
            SegmentStep::HostFailed(rst) => return Reply::Failed(rst),
            SegmentStep::Finish => break,
        };
    }
    match f.finish_segment(&h, len, now, &c) {
        SegmentEnd::Reply(v) => Reply::Frame(v),
        SegmentEnd::HalfClose(v) => Reply::HalfClose(v),
        SegmentEnd::Close(v) => Reply::Close(v),
    }
}

fn poll(f: &mut FastPathFlow, c: &FrameCtx, now: u64, frames: &mut Vec<Vec<u8>>) -> PollAction {
    let last_ack = f.up.last_ack;
    f.down.poll(&f.addr, f.peer_mss, c, last_ack, now, DEAD_FLOW_TIMEOUT, frames)
}

/// Host data arriving at the flow's poll.
fn host_sends(f: &mut FastPathFlow, c: &FrameCtx, data: &[u8], now: u64) -> Vec<Vec<u8>> {
    let mut frames = Vec::new();
    let last_ack = f.up.last_ack;
    f.down.on_host_data(data, &f.addr, f.peer_mss, c, last_ack, now, &mut frames);
    frames
}

#[test]
fn poll_fast_path_segments_frames_for_unix_dgram_limit() {
    let mut f = flow(9000, false);
    let c = ctx(1994, false);
    // Open the guest window wide enough for the read.
    let mut w = Vec::new();
    intercept(&mut f, &segment(2000, 1000, 65535, 0x10, &[]), 0, &mut w);
    assert_eq!(poll(&mut f, &c, 0, &mut Vec::new()), PollAction::Read(32768));
    let frames = host_sends(&mut f, &c, &vec![0xAB; 5000], 0);
    assert_eq!(frames.len(), 3);
    assert!(frames.iter().all(|fr| fr.len() <= 2048), "every frame fits one datagram");
    assert_eq!(payload_len_of(&frames[0]), 1994);
    assert_eq!(payload_len_of(&frames[2]), 5000 - 2 * 1994);
    assert_eq!(seq_of(&frames[1]), 1000 + 1994);
    assert_eq!(f.down.our_seq, 6000);
}

#[test]
fn poll_fast_path_segments_frames_for_configured_mtu() {
    let mut f = flow(9000, false);
    let c = ctx(splicetcp::direct_rx::guest_mss_for_mtu(4000), false);
    let frames = host_sends(&mut f, &c, &vec![0xAB; 5000], 0);
    assert_eq!(frames.len(), 2);
    assert_eq!(ip_len_of(&frames[0]), 4000);
    assert_eq!(ip_len_of(&frames[1]), 1080);
}

#[test]
fn poll_fast_path_clamps_segments_to_peer_mss() {
    let mut f = flow(1400, false);
    let c = ctx(splicetcp::direct_rx::guest_mss_for_mtu(4000), false);
    let frames = host_sends(&mut f, &c, &vec![0xAB; 5000], 0);
    assert!(frames.iter().all(|fr| ip_len_of(fr) <= 1440));
    assert_eq!(frames.len(), 4);
    // A missing or tiny peer MSS is floored at 536.
    let mut tiny = flow(0, false);
    let frames = host_sends(&mut tiny, &c, &vec![1; 1000], 0);
    assert_eq!(payload_len_of(&frames[0]), 536);
}

#[test]
fn large_frames_below_gso_mss_falls_back_to_clamped_segmentation() {
    let c = ctx(1994, true);
    let mut small = flow(1400, false);
    let frames = host_sends(&mut small, &c, &vec![0xAB; 5000], 0);
    assert!(frames.len() > 1, "peer MSS below 1460 keeps clamped segments");
    let mut big = flow(1460, false);
    let frames = host_sends(&mut big, &c, &vec![0xAB; 5000], 0);
    assert_eq!(frames.len(), 1, "one large frame when the peer accepts 1460");
    assert_eq!(ip_len_of(&frames[0]), 5040);
    assert!(!inline_eligible(1400));
    assert!(inline_eligible(1460));
}

#[test]
fn poll_fast_path_respects_guest_window() {
    let mut f = flow(1460, false);
    let c = ctx(1994, false);
    let mut w = Vec::new();
    intercept(&mut f, &segment(2000, 1000, 3000, 0x10, &[]), 0, &mut w);
    assert_eq!(poll(&mut f, &c, 0, &mut Vec::new()), PollAction::Read(3000));
    host_sends(&mut f, &c, &vec![1; 3000], 0);
    assert_eq!(poll(&mut f, &c, MS, &mut Vec::new()), PollAction::Idle, "window full: no read");
    assert!(f.down.window_stalled);
    // The guest ACKs half: half the window reopens.
    intercept(&mut f, &segment(2000, 2500, 3000, 0x10, &[]), 2 * MS, &mut w);
    assert_eq!(poll(&mut f, &c, 2 * MS, &mut Vec::new()), PollAction::Read(1500));
    assert!(!f.down.window_stalled);
}

#[test]
fn poll_retransmits_unacked_data_after_rto() {
    let mut f = flow(1460, false);
    let c = ctx(1994, false);
    host_sends(&mut f, &c, b"lost-payload", 0);
    let mut frames = Vec::new();
    poll(&mut f, &c, INITIAL_RTO - 1, &mut frames);
    assert!(frames.is_empty(), "no retransmission before the RTO fires");
    poll(&mut f, &c, INITIAL_RTO, &mut frames);
    assert_eq!(frames.len(), 1);
    assert_eq!(seq_of(&frames[0]), 1000, "resent from the unACKed base");
    assert_eq!(&frames[0][54..], b"lost-payload");
    assert_eq!(f.down.retransmits, 1);
    assert_eq!(f.down.rto, 2 * INITIAL_RTO, "RTO backs off");
    // Backoff is capped.
    for k in 2..10u64 {
        poll(&mut f, &c, k * 10 * SEC, &mut Vec::new());
    }
    assert_eq!(f.down.rto, MAX_RTO);
}

#[test]
fn triple_dup_ack_triggers_fast_retransmit() {
    let mut f = flow(1460, false);
    let c = ctx(1994, false);
    let mut w = Vec::new();
    host_sends(&mut f, &c, b"hole-behind-this-data", 0);
    for i in 0..3 {
        assert!(!f.down.fast_retransmit, "not before the third dup-ACK ({i})");
        intercept(&mut f, &segment(2000, 1000, 65535, 0x10, &[]), MS, &mut w);
    }
    assert!(f.down.fast_retransmit);
    let mut frames = Vec::new();
    poll(&mut f, &c, 2 * MS, &mut frames);
    assert_eq!(frames.len(), 1, "fast retransmit fires without an RTO wait");
    assert_eq!(seq_of(&frames[0]), 1000);
    assert!(!f.down.fast_retransmit);
}

#[test]
fn download_ack_beyond_sent_is_ignored() {
    let mut f = flow(1460, false);
    let c = ctx(1994, false);
    let mut w = Vec::new();
    host_sends(&mut f, &c, &[7; 100], 0);
    intercept(&mut f, &segment(2000, 1200, 65535, 0x10, &[]), MS, &mut w);
    assert_eq!(f.down.guest_acked, 1000, "an ACK past SND.NXT is rejected");
    intercept(&mut f, &segment(2000, 1100, 65535, 0x10, &[]), MS, &mut w);
    assert_eq!(f.down.guest_acked, 1100);
    intercept(&mut f, &segment(2000, 1050, 65535, 0x10, &[]), MS, &mut w);
    assert_eq!(f.down.guest_acked, 1100, "a reordered older ACK does not regress");
}

#[test]
fn window_scale_applies_to_guest_window() {
    let mut f = FastPathFlow::new(addr(), 1000, 2000, 1460, Some(7), false, 0);
    let mut w = Vec::new();
    intercept(&mut f, &segment(2000, 1000, 512, 0x10, &[]), 0, &mut w);
    assert_eq!(f.down.guest_window, 512 << 7);
}

#[test]
fn guest_half_close_shuts_host_write_side() {
    let mut f = flow(1460, false);
    let mut w = Vec::new();
    match intercept(&mut f, &segment(2000, 1000, 65535, 0x11, b"bye"), SEC, &mut w) {
        Reply::HalfClose(ack) => {
            assert_eq!(flags_of(&ack), 0x10);
            assert_eq!(ack_of(&ack), 2004, "data and FIN acknowledged");
        }
        _ => panic!("a non-inline flow with the host open half-closes"),
    }
    assert_eq!(w, b"bye");
    assert_eq!(f.down.guest_fin_at, Some(SEC));
}

#[test]
fn half_closed_flow_reaps_after_host_eof() {
    let mut f = flow(1460, false);
    let c = ctx(1994, false);
    let mut w = Vec::new();
    assert!(matches!(intercept(&mut f, &segment(2000, 1000, 65535, 0x11, &[]), 0, &mut w), Reply::HalfClose(_)));
    // Host EOF: our FIN goes out and takes one sequence number.
    let mut frames = Vec::new();
    let last_ack = f.up.last_ack;
    f.down.on_host_eof(&f.addr, &c, last_ack, &mut frames);
    assert_eq!(flags_of(&frames[0]), 0x11);
    assert_eq!(seq_of(&frames[0]), 1000);
    assert_eq!(f.down.our_seq, 1001);
    assert_eq!(poll(&mut f, &c, MS, &mut Vec::new()), PollAction::Idle, "our FIN still unACKed");
    intercept(&mut f, &segment(2001, 1001, 65535, 0x10, &[]), 2 * MS, &mut w);
    assert_eq!(poll(&mut f, &c, 2 * MS, &mut Vec::new()), PollAction::Remove);
}

#[test]
fn half_closed_flow_reaped_after_idle_timeout() {
    let mut f = flow(1460, false);
    let c = ctx(1994, false);
    let mut w = Vec::new();
    intercept(&mut f, &segment(2000, 1000, 65535, 0x11, &[]), SEC, &mut w);
    assert_ne!(poll(&mut f, &c, SEC + HALF_CLOSE_TIMEOUT - 1, &mut Vec::new()), PollAction::Remove);
    // Host-to-guest progress refreshes the idle clock.
    host_sends(&mut f, &c, b"more", 2 * SEC);
    assert_eq!(f.down.guest_fin_at, Some(2 * SEC));
    assert_ne!(poll(&mut f, &c, SEC + HALF_CLOSE_TIMEOUT, &mut Vec::new()), PollAction::Remove);
    assert_eq!(poll(&mut f, &c, 2 * SEC + HALF_CLOSE_TIMEOUT, &mut Vec::new()), PollAction::Remove);
}

#[test]
fn upload_fin_with_gap_defers_teardown() {
    let mut f = flow(1460, false);
    let mut w = Vec::new();
    // FIN after a hole (2000..2010 missing): deferred, dup-ACK at the cursor.
    match intercept(&mut f, &segment(2010, 1000, 65535, 0x11, b"tail"), 0, &mut w) {
        Reply::Frame(ack) => assert_eq!(ack_of(&ack), 2000),
        _ => panic!("a FIN beyond the cursor must not tear down"),
    }
    assert_eq!(f.up.last_ack, 2000);
    // Inline flows (and flows whose host already closed) finish with our FIN.
    let mut g = flow(1460, true);
    match intercept(&mut g, &segment(2000, 1000, 65535, 0x11, &[]), 0, &mut w) {
        Reply::Close(fin) => {
            assert_eq!(flags_of(&fin), 0x11);
            assert_eq!(ack_of(&fin), 2001);
        }
        _ => panic!("an in-order FIN on an inline flow closes it"),
    }
}

#[test]
fn malformed_data_offset_is_not_spliced_to_host() {
    let mut f = flow(1460, false);
    let mut w = Vec::new();
    let mut frame = segment(2000, 1000, 65535, 0x18, b"payload");
    frame[34 + 12] = 0x40;
    assert!(matches!(intercept(&mut f, &frame, 0, &mut w), Reply::NotTaken));
    assert!(w.is_empty());
    assert_eq!(f.up.last_ack, 2000);
}

#[test]
fn guest_rst_resets_the_flow() {
    let mut f = flow(1460, false);
    let mut w = Vec::new();
    assert!(matches!(intercept(&mut f, &segment(2000, 1000, 65535, 0x14, &[]), 5, &mut w), Reply::Reset));
    assert_eq!(f.down.last_guest_activity, 5);
}

#[test]
fn retransmitted_syn_ack_gets_reack() {
    let mut f = flow(1460, false);
    let mut w = Vec::new();
    match intercept(&mut f, &segment(1999, 1000, 65535, 0x12, &[]), 0, &mut w) {
        Reply::Frame(ack) => {
            assert_eq!(flags_of(&ack), 0x10);
            assert_eq!(ack_of(&ack), 2000);
            assert_eq!(seq_of(&ack), 1000);
        }
        _ => panic!("a SYN-ACK must be re-ACKed"),
    }
}

#[test]
fn pure_ack_returns_no_frame() {
    let mut f = flow(1460, false);
    let mut w = Vec::new();
    match intercept(&mut f, &segment(2000, 1000, 65535, 0x10, &[]), 0, &mut w) {
        Reply::Frame(v) => assert!(v.is_empty(), "intercepted without a reply"),
        _ => panic!("a pure ACK is intercepted"),
    }
    match intercept(&mut f, &segment(2000, 1000, 65535, 0x18, b"data"), 0, &mut w) {
        Reply::Frame(ack) => assert_eq!(ack_of(&ack), 2004),
        _ => panic!("data is ACKed"),
    }
}

#[test]
fn zero_window_stall_is_broken_by_a_persist_probe() {
    let mut f = flow(1460, false);
    let c = ctx(1994, false);
    let mut w = Vec::new();
    intercept(&mut f, &segment(2000, 1000, 0, 0x10, &[]), 0, &mut w);
    assert_eq!(poll(&mut f, &c, 0, &mut Vec::new()), PollAction::Idle);
    assert_eq!(f.down.window_stalled_at, Some(0));
    assert_eq!(poll(&mut f, &c, ZERO_WINDOW_PERSIST_INTERVAL - 1, &mut Vec::new()), PollAction::Idle);
    assert_eq!(poll(&mut f, &c, ZERO_WINDOW_PERSIST_INTERVAL, &mut Vec::new()), PollAction::Read(1));
}

#[test]
fn silent_guest_with_data_in_flight_is_rst_reaped() {
    let mut f = flow(1460, false);
    let c = ctx(1994, false);
    host_sends(&mut f, &c, b"unanswered", 0);
    poll(&mut f, &c, 1, &mut Vec::new());
    assert_eq!(f.down.soliciting_since, Some(1));
    let mut frames = Vec::new();
    assert_ne!(poll(&mut f, &c, DEAD_FLOW_TIMEOUT, &mut frames), PollAction::Remove);
    let mut frames = Vec::new();
    assert_eq!(poll(&mut f, &c, DEAD_FLOW_TIMEOUT + 1, &mut frames), PollAction::Remove);
    assert_eq!(frames.len(), 1);
    assert_eq!(flags_of(&frames[0]), 0x14);
}

#[test]
fn silent_guest_at_zero_window_is_rst_reaped() {
    let mut f = flow(1460, false);
    let c = ctx(1994, false);
    let mut w = Vec::new();
    intercept(&mut f, &segment(2000, 1000, 0, 0x10, &[]), 0, &mut w);
    poll(&mut f, &c, 0, &mut Vec::new());
    poll(&mut f, &c, 1, &mut Vec::new());
    let mut frames = Vec::new();
    assert_eq!(poll(&mut f, &c, DEAD_FLOW_TIMEOUT + 1, &mut frames), PollAction::Remove);
    assert_eq!(flags_of(&frames[0]), 0x14);
}

#[test]
fn guest_ack_refreshes_dead_flow_clock() {
    let mut f = flow(1460, false);
    let c = ctx(1994, false);
    let mut w = Vec::new();
    host_sends(&mut f, &c, b"slow", 0);
    poll(&mut f, &c, 0, &mut Vec::new());
    // A dup-ACK is a sign of life.
    intercept(&mut f, &segment(2000, 1000, 65535, 0x10, &[]), DEAD_FLOW_TIMEOUT, &mut w);
    assert_ne!(poll(&mut f, &c, DEAD_FLOW_TIMEOUT + 1, &mut Vec::new()), PollAction::Remove);
}

#[test]
fn long_idle_flow_survives_upstream_wakeup() {
    let mut f = flow(1460, false);
    let c = ctx(1994, false);
    // Idle for ten minutes: never reaped.
    assert_ne!(poll(&mut f, &c, 600 * SEC, &mut Vec::new()), PollAction::Remove);
    // The upstream wakes up: the soliciting clock starts now.
    host_sends(&mut f, &c, b"wake", 600 * SEC);
    assert_ne!(poll(&mut f, &c, 600 * SEC + 1, &mut Vec::new()), PollAction::Remove);
    assert_ne!(poll(&mut f, &c, 600 * SEC + DEAD_FLOW_TIMEOUT, &mut Vec::new()), PollAction::Remove);
    assert_eq!(poll(&mut f, &c, 600 * SEC + 1 + DEAD_FLOW_TIMEOUT, &mut Vec::new()), PollAction::Remove);
}

// -------- inline flows: retransmission from the shared ring --------

fn inline_poll(f: &mut FastPathFlow, ring: &mut RetxRing, dead: bool, now: u64, frames: &mut Vec<Vec<u8>>) -> bool {
    let c = ctx(1994, false);
    let last_ack = f.up.last_ack;
    f.down.poll_inline(ring, dead, &f.addr, f.peer_mss, &c, last_ack, now, DEAD_FLOW_TIMEOUT, frames)
}

/// The inline owner sends `payload`: tee into the ring, advance the shared
/// send cursor.
fn owner_sends(f: &mut FastPathFlow, ring: &mut RetxRing, payload: &[u8]) {
    ring.tee(payload);
    f.down.our_seq = f.down.our_seq.wrapping_add(payload.len() as u32);
}

#[test]
fn inline_rto_retransmits_from_shared_ring() {
    let mut f = flow(9000, true);
    let mut ring = RetxRing::new(1000);
    owner_sends(&mut f, &mut ring, b"lost-inline-payload");
    let mut frames = Vec::new();
    assert!(!inline_poll(&mut f, &mut ring, false, 0, &mut frames));
    assert!(frames.is_empty(), "no retransmission before the RTO fires");
    inline_poll(&mut f, &mut ring, false, MAX_RTO, &mut frames);
    assert_eq!(frames.len(), 1, "one retransmission after the RTO");
    assert_eq!(seq_of(&frames[0]), 1000);
    assert_eq!(payload_len_of(&frames[0]), b"lost-inline-payload".len());
}

#[test]
fn inline_triple_dup_ack_fast_retransmits() {
    let mut f = flow(9000, true);
    let mut ring = RetxRing::new(1000);
    let mut w = Vec::new();
    owner_sends(&mut f, &mut ring, b"hole-behind-this-data");
    for _ in 0..3 {
        intercept(&mut f, &segment(2000, 1000, 65535, 0x10, &[]), 0, &mut w);
    }
    let mut frames = Vec::new();
    inline_poll(&mut f, &mut ring, false, 0, &mut frames);
    assert_eq!(frames.len(), 1, "fast retransmit fires without an RTO wait");
    assert_eq!(seq_of(&frames[0]), 1000);
}

#[test]
fn inline_ack_drains_ring_and_stops_retransmit() {
    let mut f = flow(9000, true);
    let mut ring = RetxRing::new(1000);
    let mut w = Vec::new();
    owner_sends(&mut f, &mut ring, b"delivered");
    let acked_to = 1000 + b"delivered".len() as u32;
    intercept(&mut f, &segment(2000, acked_to, 65535, 0x10, &[]), 0, &mut w);
    let mut frames = Vec::new();
    inline_poll(&mut f, &mut ring, false, MAX_RTO, &mut frames);
    assert!(frames.is_empty(), "a fully ACKed inline flow must not retransmit");
    assert!(ring.buf.is_empty(), "the ACKed prefix is drained");
    assert_eq!(ring.base, acked_to);
}

#[test]
fn inline_lost_fin_is_retransmitted() {
    let mut f = flow(9000, true);
    let mut ring = RetxRing::new(1000);
    let mut w = Vec::new();
    owner_sends(&mut f, &mut ring, b"tail");
    let fin_seq = 1004;
    ring.record_fin(fin_seq);
    f.down.our_seq = f.down.our_seq.wrapping_add(1);
    intercept(&mut f, &segment(2000, fin_seq, 65535, 0x10, &[]), 0, &mut w);
    let mut frames = Vec::new();
    inline_poll(&mut f, &mut ring, false, 0, &mut frames);
    assert!(frames.is_empty());
    inline_poll(&mut f, &mut ring, false, MAX_RTO, &mut frames);
    assert_eq!(frames.len(), 1, "the lost FIN is re-emitted");
    assert_ne!(flags_of(&frames[0]) & 0x01, 0);
    assert_eq!(seq_of(&frames[0]), fin_seq);
    intercept(&mut f, &segment(2000, fin_seq + 1, 65535, 0x10, &[]), MAX_RTO, &mut w);
    let mut frames = Vec::new();
    inline_poll(&mut f, &mut ring, false, 3 * MAX_RTO, &mut frames);
    assert!(frames.is_empty(), "an ACKed FIN must not be retransmitted");
}

#[test]
fn inline_retransmit_never_exceeds_sent() {
    let mut f = flow(9000, true);
    let mut ring = RetxRing::new(1000);
    // 100 bytes teed, only 40 of sequence space committed so far.
    ring.tee(&[0xAA; 100]);
    f.down.our_seq = f.down.our_seq.wrapping_add(40);
    let mut frames = Vec::new();
    inline_poll(&mut f, &mut ring, false, MAX_RTO, &mut frames);
    assert_eq!(frames.len(), 1);
    assert_eq!(payload_len_of(&frames[0]), 40, "retransmission is clamped to the committed sequence space");
}

#[test]
fn inline_dead_flag_reaps_bridge_entry() {
    let mut f = flow(9000, true);
    let mut ring = RetxRing::new(1000);
    let mut frames = Vec::new();
    assert!(!inline_poll(&mut f, &mut ring, false, 0, &mut frames));
    assert!(inline_poll(&mut f, &mut ring, true, 0, &mut frames));
    assert!(frames.is_empty(), "the owner already RST-terminated the guest");
}

#[test]
fn inline_zero_window_persist_probes() {
    let mut f = flow(9000, true);
    let mut ring = RetxRing::new(1000);
    let mut w = Vec::new();
    intercept(&mut f, &segment(2000, 1000, 0, 0x10, &[]), 0, &mut w);
    let mut frames = Vec::new();
    inline_poll(&mut f, &mut ring, false, 0, &mut frames);
    assert!(frames.is_empty());
    assert_eq!(f.down.window_stalled_at, Some(0));
    inline_poll(&mut f, &mut ring, false, ZERO_WINDOW_PERSIST_INTERVAL, &mut frames);
    assert_eq!(frames.len(), 1, "a persist probe");
    assert_eq!(seq_of(&frames[0]), 999, "an old duplicate byte at our_seq - 1");
    assert_eq!(payload_len_of(&frames[0]), 1);
    // The window reopens: the stall clock clears.
    intercept(&mut f, &segment(2000, 1000, 65535, 0x10, &[]), ZERO_WINDOW_PERSIST_INTERVAL, &mut w);
    inline_poll(&mut f, &mut ring, false, ZERO_WINDOW_PERSIST_INTERVAL, &mut frames);
    assert_eq!(f.down.window_stalled_at, None);
}

#[test]
fn inline_silent_guest_with_data_in_flight_is_rst_reaped() {
    let mut f = flow(9000, true);
    let mut ring = RetxRing::new(1000);
    owner_sends(&mut f, &mut ring, b"unanswered");
    let mut frames = Vec::new();
    inline_poll(&mut f, &mut ring, false, 1, &mut frames);
    let mut frames = Vec::new();
    assert!(inline_poll(&mut f, &mut ring, false, DEAD_FLOW_TIMEOUT + 1, &mut frames));
    assert_eq!(frames.len(), 1);
    assert_eq!(flags_of(&frames[0]), 0x14);
    assert_eq!(seq_of(&frames[0]), 1010);
}

#[test]
fn reset_frame_carries_current_cursors() {
    let mut f = flow(1460, false);
    let c = ctx(1994, false);
    host_sends(&mut f, &c, b"abc", 0);
    let r = f.reset_frame(&c);
    assert_eq!(flags_of(&r), 0x14);
    assert_eq!(seq_of(&r), 1003);
    assert_eq!(ack_of(&r), 2000);
}

#[test]
fn retransmit_buffer_tracks_unacked_bytes() {
    let mut f = flow(1460, false);
    let c = ctx(1994, false);
    let mut w = Vec::new();
    host_sends(&mut f, &c, &[1; 300], 0);
    host_sends(&mut f, &c, &[2; 200], 0);
    assert_eq!(f.down.retransmit_seq.wrapping_add(f.down.retransmit_buf.len() as u32), f.down.our_seq);
    intercept(&mut f, &segment(2000, 1250, 65535, 0x10, &[]), MS, &mut w);
    poll(&mut f, &c, MS, &mut Vec::new());
    assert_eq!(f.down.retransmit_seq, 1250, "released up to the ACK point");
    assert_eq!(f.down.retransmit_buf.len(), 250);
    assert_eq!(f.down.retransmit_seq.wrapping_add(f.down.retransmit_buf.len() as u32), f.down.our_seq);
    // Our FIN takes one more sequence number beyond the buffer.
    let mut frames = Vec::new();
    let last_ack = f.up.last_ack;
    f.down.on_host_eof(&f.addr, &c, last_ack, &mut frames);
    assert_eq!(f.down.our_seq, 1501);
    intercept(&mut f, &segment(2000, 1501, 65535, 0x10, &[]), 2 * MS, &mut w);
    poll(&mut f, &c, 2 * MS, &mut Vec::new());
    assert!(f.down.retransmit_buf.is_empty());
    assert_eq!(f.down.retransmit_seq, 1501);
}

#[test]
fn segmentation_rejoins_to_the_data() {
    let data: Vec<u8> = (0..7777u32).map(|i| (i * 7) as u8).collect();
    for (mss, peer, large) in [(1994usize, 1460u16, false), (100, 9000, false), (3960, 536, false), (1994, 1460, true)] {
        let c = ctx(mss, large);
        let mut frames = Vec::new();
        splicetcp::flow::emit_data_frames(&c, &addr(), peer, 2000, u32::MAX - 10, &data, &mut frames);
        let joined: Vec<u8> = frames.iter().flat_map(|f| f[54..].to_vec()).collect();
        assert_eq!(joined, data);
        let mut expect_seq = u32::MAX - 10;
        for f in &frames {
            assert_eq!(seq_of(f), expect_seq, "each frame starts where the previous ended");
            expect_seq = expect_seq.wrapping_add(payload_len_of(f) as u32);
        }
    }
}

#[test]
fn upload_reassembly_through_the_flow_steps() {
    let mut f = flow(1460, false);
    let mut w = Vec::new();
    match intercept(&mut f, &segment(2100, 1000, 65535, 0x18, &[0xBB; 50]), 0, &mut w) {
        Reply::Frame(ack) => assert_eq!(ack_of(&ack), 2000, "dup-ACK at the cursor"),
        _ => panic!("an out-of-order segment is parked"),
    }
    match intercept(&mut f, &segment(2000, 1000, 65535, 0x18, &[0xAA; 100]), 0, &mut w) {
        Reply::Frame(ack) => assert_eq!(ack_of(&ack), 2150, "the fill drains the parked tail"),
        _ => panic!("the fill is ACKed"),
    }
    assert_eq!(w.len(), 150);
    assert!(w[..100].iter().all(|&b| b == 0xAA));
    assert!(w[100..].iter().all(|&b| b == 0xBB));
}

#[test]
fn host_write_failure_resets_the_guest() {
    let mut f = flow(1460, false);
    let mut w = Vec::new();
    let reply = intercept_with(&mut f, &segment(2000, 1000, 65535, 0x18, b"doomed"), 0, &mut w, &mut |_: &[u8]| HostWrite::Failed);
    match reply {
        Reply::Failed(rst) => {
            assert_eq!(flags_of(&rst), 0x14);
            assert_eq!(ack_of(&rst), 2000, "nothing ACKed");
            assert_eq!(seq_of(&rst), 1000);
        }
        _ => panic!("a failed host stream resets the guest"),
    }
}

#[test]
fn host_would_block_leaves_a_dup_ack() {
    let mut f = flow(1460, false);
    let mut w = Vec::new();
    let reply = intercept_with(&mut f, &segment(2000, 1000, 65535, 0x18, b"later"), 0, &mut w, &mut |_: &[u8]| HostWrite::WouldBlock);
    match reply {
        Reply::Frame(ack) => assert_eq!(ack_of(&ack), 2000),
        _ => panic!("a full host socket is not a failure"),
    }
    assert_eq!(f.up.up_would_block, 1);
    // A short take ACKs only the written prefix.
    let reply = intercept_with(&mut f, &segment(2000, 1000, 65535, 0x18, b"later"), 0, &mut w, &mut |_: &[u8]| HostWrite::Wrote(2));
    match reply {
        Reply::Frame(ack) => assert_eq!(ack_of(&ack), 2002),
        _ => panic!("short write"),
    }
    assert_eq!(w, b"la");
}
