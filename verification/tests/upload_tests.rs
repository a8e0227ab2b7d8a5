use splicetcp::upload::{
    DrainStep, HostWrite, UploadPlan, UploadResult, UploadState, OOO_MAX_SEGMENTS,
    OOO_REASSEMBLY_CAP,
};

/// A host socket that takes at most `room` more bytes.
struct Host {
    written: Vec<u8>,
    room: usize,
}

impl Host {
    fn open() -> Self {
        Host { written: Vec::new(), room: usize::MAX }
    }

    fn write(&mut self, data: &[u8]) -> HostWrite {
        if self.room == 0 {
            return HostWrite::WouldBlock;
        }
        let n = data.len().min(self.room);
        self.written.extend_from_slice(&data[..n]);
        self.room -= n;
        HostWrite::Wrote(n)
    }
}

/// The in-order path of one guest segment followed by the parked drain,
/// as the datapath drives it. Returns the ACK sent back.
fn deliver(up: &mut UploadState, host: &mut Host, seq: u32, payload: &[u8]) -> u32 {
    let mut advanced = false;
    if let UploadPlan::Write { skip } = up.plan_upload(seq, payload) {
        let fresh = &payload[skip..];
        let r = host.write(fresh);
        let seq_end = seq.wrapping_add(payload.len() as u32);
        advanced = up.apply_upload_write(seq_end, fresh.len(), r) == UploadResult::Advanced;
    }
    if advanced {
        drain(up, host);
    }
    up.last_ack
}

fn drain(up: &mut UploadState, host: &mut Host) {
    while let Some(start) = up.next_parked_write() {
        let data = up.ooo_segs[0].1[start..].to_vec();
        let r = host.write(&data);
        if up.apply_parked_write(start, r) != DrainStep::Continue {
            break;
        }
    }
}

#[test]
fn upload_hole_is_never_acked_or_written() {
    let mut up = UploadState::new(2000);
    let mut host = Host::open();
    let ack = deliver(&mut up, &mut host, 2100, &[0xBB; 50]);
    assert_eq!(ack, 2000, "hole ahead of the segment: dup-ACK at the cursor");
    assert!(host.written.is_empty(), "nothing written ahead of the hole");
    assert_eq!(up.up_out_of_order, 1);
    let ack = deliver(&mut up, &mut host, 2000, &[0xAA; 100]);
    assert_eq!(ack, 2150, "the fill's ACK leaps over the parked data");
    let ack = deliver(&mut up, &mut host, 2100, &[0xBB; 50]);
    assert_eq!(ack, 2150, "late retransmit of the parked range is a duplicate");
    assert_eq!(host.written.len(), 150);
    assert!(host.written[..100].iter().all(|&b| b == 0xAA));
    assert!(host.written[100..].iter().all(|&b| b == 0xBB));
    assert_eq!(up.ooo_bytes, 0);
}

#[test]
fn upload_ooo_reassembly_flushes_on_gap_fill() {
    let mut up = UploadState::new(5000);
    let mut host = Host::open();
    deliver(&mut up, &mut host, 5200, &[3; 100]);
    deliver(&mut up, &mut host, 5100, &[2; 100]);
    assert_eq!(up.ooo_segs.len(), 2);
    assert_eq!(up.ooo_segs[0].0, 5100, "parked in sequence order");
    let ack = deliver(&mut up, &mut host, 5000, &[1; 100]);
    assert_eq!(ack, 5300);
    let expect: Vec<u8> = [[1u8; 100], [2u8; 100], [3u8; 100]].concat();
    assert_eq!(host.written, expect);
}

#[test]
fn upload_ooo_duplicate_parked_segment_writes_once() {
    let mut up = UploadState::new(100);
    let mut host = Host::open();
    deliver(&mut up, &mut host, 200, &[9; 50]);
    deliver(&mut up, &mut host, 200, &[9; 50]);
    assert_eq!(up.ooo_segs.len(), 1, "same seq parked once");
    assert_eq!(up.ooo_bytes, 50);
    // A longer retransmit with the same start replaces the parked one.
    deliver(&mut up, &mut host, 200, &[9; 80]);
    assert_eq!(up.ooo_segs.len(), 1);
    assert_eq!(up.ooo_bytes, 80);
    let ack = deliver(&mut up, &mut host, 100, &[8; 100]);
    assert_eq!(ack, 280);
    assert_eq!(host.written.len(), 180);
}

#[test]
fn upload_ooo_beyond_cap_is_dropped() {
    let mut up = UploadState::new(0);
    // Starts within the cap but ends past it.
    up.buffer_ooo_segment((OOO_REASSEMBLY_CAP - 10) as u32, &[1; 20]);
    assert_eq!(up.ooo_segs.len(), 0);
    assert_eq!(up.up_ooo_dropped, 1);
    // Ends exactly at the cap: parked.
    up.buffer_ooo_segment((OOO_REASSEMBLY_CAP - 20) as u32, &[1; 20]);
    assert_eq!(up.ooo_segs.len(), 1);
    assert_eq!(up.up_ooo_dropped, 1);
    assert_eq!(up.last_ack, 0, "parking never ACKs");
}

#[test]
fn upload_ooo_parked_bytes_are_capped() {
    let mut up = UploadState::new(0);
    let big = vec![7u8; OOO_REASSEMBLY_CAP / 2];
    up.buffer_ooo_segment(10, &big);
    up.buffer_ooo_segment(10 + big.len() as u32, &big[..big.len() - 10]);
    assert_eq!(up.ooo_bytes, OOO_REASSEMBLY_CAP - 10);
    up.buffer_ooo_segment(5, &[1; 11]);
    assert_eq!(up.up_ooo_dropped, 1, "would exceed the parked-bytes cap");
    assert_eq!(up.ooo_bytes, OOO_REASSEMBLY_CAP - 10);
}

#[test]
fn upload_ooo_overlapping_segments_write_each_byte_once() {
    let mut up = UploadState::new(1000);
    let mut host = Host::open();
    let stream: Vec<u8> = (0..300u32).map(|i| i as u8).collect();
    // Two overlapping parked segments: 1100..1200 and 1150..1300.
    deliver(&mut up, &mut host, 1100, &stream[100..200]);
    deliver(&mut up, &mut host, 1150, &stream[150..300]);
    let ack = deliver(&mut up, &mut host, 1000, &stream[0..100]);
    assert_eq!(ack, 1300);
    assert_eq!(host.written, stream, "each byte written once, in order");
    assert_eq!(up.ooo_bytes, 0);
}

#[test]
fn upload_ooo_segment_count_is_bounded() {
    let mut up = UploadState::new(0);
    for i in 0..OOO_MAX_SEGMENTS as u32 {
        up.buffer_ooo_segment(10 + 2 * i, &[1]);
    }
    assert_eq!(up.ooo_segs.len(), OOO_MAX_SEGMENTS);
    up.buffer_ooo_segment(10 + 2 * OOO_MAX_SEGMENTS as u32, &[1]);
    assert_eq!(up.ooo_segs.len(), OOO_MAX_SEGMENTS, "a new distinct segment is dropped");
    assert_eq!(up.up_ooo_dropped, 1);
    // Replacing a parked seq in place does not grow the count.
    up.buffer_ooo_segment(10, &[1, 2]);
    assert_eq!(up.ooo_segs.len(), OOO_MAX_SEGMENTS);
    assert_eq!(up.up_ooo_dropped, 1);
}

#[test]
fn upload_ooo_reassembly_across_seq_wraparound() {
    let base = u32::MAX - 49;
    let mut up = UploadState::new(base);
    let mut host = Host::open();
    deliver(&mut up, &mut host, base.wrapping_add(100), &[2; 100]);
    assert_eq!(up.last_ack, base);
    let ack = deliver(&mut up, &mut host, base, &[1; 100]);
    assert_eq!(ack, base.wrapping_add(200));
    assert_eq!(ack, 150);
    assert_eq!(host.written.len(), 200);
}

#[test]
fn upload_ooo_drain_respects_host_writable() {
    let mut up = UploadState::new(0);
    let mut host = Host::open();
    deliver(&mut up, &mut host, 100, &[2; 100]);
    host.room = 130; // the fill fits, the parked tail only partly
    let ack = deliver(&mut up, &mut host, 0, &[1; 100]);
    assert_eq!(ack, 130, "ACK covers only what the host took");
    assert_eq!(up.up_short_writes, 1);
    assert_eq!(up.ooo_segs.len(), 1, "the remainder stays parked");
    host.room = usize::MAX;
    // The guest's retransmit of the unwritten tail re-enters the drain.
    let ack = deliver(&mut up, &mut host, 130, &[2; 70]);
    assert_eq!(ack, 200);
    assert_eq!(host.written.len(), 200);
    assert!(up.ooo_segs.is_empty());
}

#[test]
fn upload_ack_never_exceeds_host_writable() {
    let mut up = UploadState::new(500);
    let mut host = Host::open();
    host.room = 0;
    let ack = deliver(&mut up, &mut host, 500, &[1; 100]);
    assert_eq!(ack, 500, "nothing written, nothing ACKed");
    assert_eq!(up.up_would_block, 1);
    host.room = 40;
    let ack = deliver(&mut up, &mut host, 500, &[1; 100]);
    assert_eq!(ack, 540, "short write: ACK only the written prefix");
    assert_eq!(up.up_short_writes, 1);
    host.room = usize::MAX;
    let ack = deliver(&mut up, &mut host, 500, &[1; 100]);
    assert_eq!(ack, 600, "partial retransmit overlap: only the fresh tail is written");
    assert_eq!(host.written.len(), 100);
    assert_eq!(up.up_bytes, 100);
}

#[test]
fn broken_pipe_drains_at_the_tcp_layer() {
    let mut up = UploadState::new(10);
    match up.plan_upload(10, &[5; 20]) {
        UploadPlan::Write { skip } => assert_eq!(skip, 0),
        UploadPlan::Nothing => panic!("in-order segment must be written"),
    }
    assert_eq!(up.apply_upload_write(30, 20, HostWrite::BrokenPipe), UploadResult::Advanced);
    assert_eq!(up.last_ack, 30, "ACKed so the guest stops retransmitting");
    assert_eq!(up.apply_upload_write(50, 20, HostWrite::Failed), UploadResult::Failed);
    assert_eq!(up.last_ack, 30);
}

#[test]
fn retransmit_of_acked_bytes_is_not_written() {
    let mut up = UploadState::new(1000);
    assert!(matches!(up.plan_upload(900, &[1; 100]), UploadPlan::Nothing));
    assert!(matches!(up.plan_upload(900, &[1; 50]), UploadPlan::Nothing));
    assert!(matches!(up.plan_upload(1000, &[]), UploadPlan::Nothing));
    assert!(matches!(up.plan_upload(950, &[1; 100]), UploadPlan::Write { skip: 50 }));
    assert_eq!(up.ooo_segs.len(), 0);
}
