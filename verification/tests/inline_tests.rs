use splicetcp::checksum::tcp_pseudo_header_checksum;
use splicetcp::download::RetxRing;
use splicetcp::inline::{write_fin_headers, write_inline_headers, write_rst_headers, InlineConn, TOTAL_HDR_LEN};
use splicetcp::rxplan::{admit_buffer, clamp_iov_caps, spread_read, used_entry_len, MAX_MERGED_PAYLOAD};

fn conn() -> InlineConn {
    InlineConn {
        remote_ip: [93, 184, 216, 34],
        guest_ip: [192, 168, 66, 2],
        remote_port: 443,
        guest_port: 50000,
        our_seq: 1000,
        last_ack: 2000,
        guest_acked: 1000,
        guest_window: u32::MAX,
        gw_mac: [0x02, 0, 0, 0, 0, 1],
        guest_mac: [0x02, 0, 0, 0, 0, 2],
        host_eof: false,
    }
}

fn ones_sum(bytes: &[u8]) -> u32 {
    let mut s: u32 = 0;
    for w in bytes.chunks(2) {
        s += u32::from(u16::from_be_bytes([w[0], *w.get(1).unwrap_or(&0)]));
    }
    while s > 0xFFFF {
        s = (s & 0xFFFF) + (s >> 16);
    }
    s
}

#[test]
fn inline_headers_small_frame_layout() {
    let mut buf = vec![0xEEu8; 100];
    assert_eq!(write_inline_headers(&mut buf, &conn(), 34, 1), TOTAL_HDR_LEN);
    // virtio-net header: NEEDS_CSUM, no GSO, csum_start 34, csum_offset 16.
    assert_eq!(&buf[0..12], &[1, 0, 0, 0, 0, 0, 34, 0, 16, 0, 1, 0]);
    assert_eq!(&buf[12..18], &[0x02, 0, 0, 0, 0, 2], "to the guest");
    assert_eq!(&buf[18..24], &[0x02, 0, 0, 0, 0, 1], "from the gateway");
    assert_eq!(&buf[24..26], &[0x08, 0x00]);
    let ip = 26;
    assert_eq!(u16::from_be_bytes([buf[ip + 2], buf[ip + 3]]), 74);
    assert_eq!(ones_sum(&buf[ip..ip + 20]), 0xFFFF, "IPv4 checksum verifies");
    let tcp = 46;
    assert_eq!(u16::from_be_bytes([buf[tcp], buf[tcp + 1]]), 443);
    assert_eq!(u16::from_be_bytes([buf[tcp + 2], buf[tcp + 3]]), 50000);
    assert_eq!(u32::from_be_bytes([buf[tcp + 4], buf[tcp + 5], buf[tcp + 6], buf[tcp + 7]]), 1000);
    assert_eq!(u32::from_be_bytes([buf[tcp + 8], buf[tcp + 9], buf[tcp + 10], buf[tcp + 11]]), 2000);
    assert_eq!(buf[tcp + 12], 0x50);
    assert_eq!(buf[tcp + 13], 0x18);
    assert_eq!(&buf[tcp + 14..tcp + 16], &[0xFF, 0xFF]);
    assert_eq!(
        u16::from_be_bytes([buf[tcp + 16], buf[tcp + 17]]),
        tcp_pseudo_header_checksum([93, 184, 216, 34], [192, 168, 66, 2], 54)
    );
    assert!(buf[66..].iter().all(|&b| b == 0xEE), "payload area untouched");
}

#[test]
fn inline_headers_large_frame_requests_gso() {
    let mut buf = vec![0u8; 200];
    write_inline_headers(&mut buf, &conn(), 30000, 3);
    assert_eq!(buf[1], 1, "GSO_TCPV4");
    assert_eq!(u16::from_le_bytes([buf[2], buf[3]]), 54);
    assert_eq!(u16::from_le_bytes([buf[4], buf[5]]), 1460);
    assert_eq!(u16::from_le_bytes([buf[10], buf[11]]), 3, "num_buffers spans the merge");
    assert_eq!(u16::from_be_bytes([buf[28], buf[29]]), 30040);
    // Exactly a 1500-byte Ethernet frame: no GSO.
    let mut buf = vec![0u8; 100];
    write_inline_headers(&mut buf, &conn(), 1446, 1);
    assert_eq!(buf[1], 0);
    write_inline_headers(&mut buf, &conn(), 1447, 1);
    assert_eq!(buf[1], 1);
}

#[test]
fn inline_headers_refuse_short_buffers() {
    let mut buf = vec![7u8; TOTAL_HDR_LEN - 1];
    assert_eq!(write_inline_headers(&mut buf, &conn(), 10, 1), 0);
    assert_eq!(write_fin_headers(&mut buf, &conn()), 0);
    assert!(buf.iter().all(|&b| b == 7), "nothing written");
}

#[test]
fn control_headers_fin_and_rst() {
    let mut buf = vec![0u8; TOTAL_HDR_LEN];
    assert_eq!(write_fin_headers(&mut buf, &conn()), TOTAL_HDR_LEN);
    assert_eq!(buf[12 + 14 + 20 + 13], 0x11);
    assert_eq!(&buf[60..62], &[0xFF, 0xFF]);
    assert_eq!(u16::from_be_bytes([buf[28], buf[29]]), 40);
    assert_eq!(u16::from_le_bytes([buf[10], buf[11]]), 1);
    assert_eq!(write_rst_headers(&mut buf, &conn()), TOTAL_HDR_LEN);
    assert_eq!(buf[12 + 14 + 20 + 13], 0x14, "TCP flags must be RST | ACK");
    assert_eq!(&buf[60..62], &[0, 0]);
}

#[test]
fn inline_send_budget_caps_the_window() {
    let mut c = conn();
    assert_eq!(c.send_budget(), 256 * 1024, "window capped");
    c.our_seq = 1000 + 1024;
    assert_eq!(c.send_budget(), 256 * 1024 - 1024);
    c.guest_window = 512;
    assert_eq!(c.send_budget(), 0);
    c.guest_acked = 1000 + 2048; // stale snapshot: ACK ahead of sent
    assert_eq!(c.send_budget(), 512);
}

/// The planning part of a merged read: buffers of 100 (34 payload bytes
/// after the 66-byte header), 200, 300 and a spare; 500 bytes buffered.
#[test]
fn inline_read_spans_buffers_and_publishes_batch() {
    let lens = [100usize, 200, 300, 4096];
    let mut gathered = 0usize;
    let mut admitted = Vec::new();
    for (count, &len) in lens.iter().enumerate() {
        match admit_buffer(count, true, len, gathered) {
            Some(room) => {
                gathered += room;
                admitted.push(len);
            }
            None => break,
        }
    }
    assert_eq!(admitted, vec![100, 200, 300, 4096]);
    let caps = clamp_iov_caps(&admitted, 256 * 1024);
    assert_eq!(caps, vec![34, 200, 300, 4096]);
    let filled = spread_read(500, &caps);
    // 500 bytes over caps [34, 200, 300] -> per-desc [34, 200, 266].
    assert_eq!(filled, vec![34, 200, 266]);
    assert_eq!(filled.len(), 3, "spare buffer stays available");
    let entries: Vec<u32> = filled.iter().enumerate().map(|(i, &n)| used_entry_len(i, n)).collect();
    assert_eq!(entries, vec![66 + 34, 200, 266]);
    let mut first = vec![0u8; 100];
    write_inline_headers(&mut first, &conn(), 500, filled.len() as u16);
    assert_eq!(u16::from_le_bytes([first[10], first[11]]), 3, "num_buffers spans the merge");
    // Every sent byte goes to the shared retransmission ring, in order.
    let payload: Vec<u8> = (0..500u16).map(|i| i as u8).collect();
    let mut ring = RetxRing::new(1000);
    ring.tee(&payload);
    assert_eq!(ring.base, 1000, "ring base is the promoted seq");
    assert_eq!(ring.buf.iter().copied().collect::<Vec<u8>>(), payload);
    assert_eq!(ring.fin_seq, None, "no FIN yet");
}

#[test]
fn admission_rules() {
    assert_eq!(admit_buffer(0, true, 66, 0), None, "first buffer must hold a payload byte");
    assert_eq!(admit_buffer(0, true, 67, 0), Some(1));
    assert_eq!(admit_buffer(0, false, 4096, 0), None, "not device-writable");
    assert_eq!(admit_buffer(1, true, 0, 10), None);
    assert_eq!(admit_buffer(1, true, 100, MAX_MERGED_PAYLOAD - 100), Some(100));
    assert_eq!(admit_buffer(1, true, 101, MAX_MERGED_PAYLOAD - 100), None, "frame payload cap");
    assert_eq!(admit_buffer(0, true, 70000, 0), Some(70000 - 66), "the first buffer is always admitted");
    assert_eq!(admit_buffer(1, true, 1, 70000), None);
}

#[test]
fn caps_clamp_to_budget() {
    assert_eq!(clamp_iov_caps(&[100, 200, 300], 150), vec![34, 116]);
    assert_eq!(clamp_iov_caps(&[100, 200, 300], 34), vec![34]);
    assert_eq!(clamp_iov_caps(&[100, 200, 300], 0), Vec::<usize>::new());
    assert_eq!(clamp_iov_caps(&[66, 200], 1000), Vec::<usize>::new(), "empty first buffer ends the list");
}

#[test]
fn spread_fills_in_order() {
    assert_eq!(spread_read(0, &[10, 20]), Vec::<usize>::new());
    assert_eq!(spread_read(5, &[10, 20]), vec![5]);
    assert_eq!(spread_read(25, &[10, 20]), vec![10, 15]);
    assert_eq!(spread_read(30, &[10, 20]), vec![10, 20]);
}

#[test]
fn eof_emits_fin_headers_and_records_the_fin() {
    let mut buf = vec![0u8; 4096];
    let c = conn();
    assert_eq!(write_fin_headers(&mut buf, &c), TOTAL_HDR_LEN, "FIN is a headers-only frame");
    assert_eq!(buf[12 + 14 + 20 + 13], 0x11);
    let mut ring = RetxRing::new(1000);
    ring.record_fin(c.our_seq);
    assert_eq!(ring.fin_seq, Some(1000));
}
