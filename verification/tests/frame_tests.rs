use splicetcp::checksum::{fold_checksum, ipv4_header_checksum, tcp_checksum, tcp_pseudo_header_checksum};
use splicetcp::ethernet::{
    build_tcp_ack_frame, build_tcp_data_frame, build_tcp_data_frame_partial_csum,
    build_tcp_fin_frame, build_tcp_rst_frame, TcpFrameParams, ETH_HEADER_LEN,
};
use splicetcp::handshake::build_rst_from_syn;
use splicetcp::segment::{parse_tcp_header, payload_bounds};

const GW_MAC: [u8; 6] = [0x02, 0x00, 0x00, 0x00, 0x00, 0x01];
const GUEST_MAC: [u8; 6] = [0x02, 0xAA, 0xBB, 0xCC, 0xDD, 0xEE];

fn params() -> TcpFrameParams {
    TcpFrameParams {
        src_ip: [192, 168, 64, 1],
        dst_ip: [192, 168, 64, 2],
        src_port: 443,
        dst_port: 50000,
        seq: 1000,
        ack: 2000,
        window: 65535,
        src_mac: GW_MAC,
        dst_mac: GUEST_MAC,
    }
}

/// One's-complement sum of 16-bit words, folded.
fn ones_sum(bytes: &[u8]) -> u32 {
    let mut s: u32 = 0;
    let mut i = 0;
    while i + 1 < bytes.len() {
        s += u32::from(u16::from_be_bytes([bytes[i], bytes[i + 1]]));
        i += 2;
    }
    if i < bytes.len() {
        s += u32::from(bytes[i]) << 8;
    }
    while s > 0xFFFF {
        s = (s & 0xFFFF) + (s >> 16);
    }
    s
}

fn tcp_verifies(frame: &[u8]) -> bool {
    let ip = ETH_HEADER_LEN;
    let tcp = &frame[ip + 20..];
    let mut pseudo = Vec::new();
    pseudo.extend_from_slice(&frame[ip + 12..ip + 20]);
    pseudo.push(0);
    pseudo.push(6);
    pseudo.extend_from_slice(&(tcp.len() as u16).to_be_bytes());
    pseudo.extend_from_slice(tcp);
    ones_sum(&pseudo) == 0xFFFF
}

#[test]
fn ipv4_checksum_matches_rfc1071_example() {
    let hdr = [
        0x45, 0x00, 0x00, 0x73, 0x00, 0x00, 0x40, 0x00, 0x40, 0x11, 0xb8, 0x61, 0xc0, 0xa8, 0x00, 0x01,
        0xc0, 0xa8, 0x00, 0xc7,
    ];
    assert_eq!(ipv4_header_checksum(&hdr), 0xb861);
    // The checksum field itself is ignored.
    let mut zeroed = hdr;
    zeroed[10] = 0;
    zeroed[11] = 0;
    assert_eq!(ipv4_header_checksum(&zeroed), 0xb861);
}

#[test]
fn pseudo_header_checksum_exact_values() {
    assert_eq!(tcp_pseudo_header_checksum([192, 168, 64, 1], [192, 168, 64, 2], 20), 0xfe90);
    assert_eq!(tcp_pseudo_header_checksum([192, 168, 64, 1], [192, 168, 64, 2], 1480), 0xf8dc);
}

#[test]
fn tcp_checksum_exact_value() {
    let mut seg = vec![
        0x01, 0xbb, 0xc3, 0x50, 0, 0, 0x03, 0xe8, 0, 0, 0x07, 0xd0, 0x50, 0x18, 0xff, 0xff, 0, 0, 0, 0,
    ];
    seg.extend_from_slice(b"hello");
    assert_eq!(tcp_checksum([192, 168, 64, 1], [192, 168, 64, 2], &seg), 0x99dd);
}

#[test]
fn fold_checksum_folds_carries() {
    assert_eq!(fold_checksum(0), 0xFFFF);
    assert_eq!(fold_checksum(0xFFFF), 0);
    assert_eq!(fold_checksum(0x1_0000), 0xFFFE);
    assert_eq!(fold_checksum(0x2_FFFD), 0);
}

#[test]
fn data_frame_layout_and_checksums() {
    let f = build_tcp_data_frame(&params(), b"pong");
    assert_eq!(f.len(), 54 + 4);
    assert_eq!(&f[0..6], &GUEST_MAC);
    assert_eq!(&f[6..12], &GW_MAC);
    assert_eq!(&f[12..14], &[0x08, 0x00]);
    let ip = ETH_HEADER_LEN;
    assert_eq!(f[ip], 0x45);
    assert_eq!(u16::from_be_bytes([f[ip + 2], f[ip + 3]]), 44);
    assert_eq!(&f[ip + 6..ip + 8], &[0x40, 0x00], "DF set");
    assert_eq!(f[ip + 8], 64);
    assert_eq!(f[ip + 9], 6);
    assert_eq!(&f[ip + 12..ip + 16], &[192, 168, 64, 1]);
    assert_eq!(&f[ip + 16..ip + 20], &[192, 168, 64, 2]);
    assert_eq!(ones_sum(&f[ip..ip + 20]), 0xFFFF, "IPv4 header checksum verifies");
    let tcp = ip + 20;
    assert_eq!(u16::from_be_bytes([f[tcp], f[tcp + 1]]), 443);
    assert_eq!(u16::from_be_bytes([f[tcp + 2], f[tcp + 3]]), 50000);
    assert_eq!(u32::from_be_bytes([f[tcp + 4], f[tcp + 5], f[tcp + 6], f[tcp + 7]]), 1000);
    assert_eq!(u32::from_be_bytes([f[tcp + 8], f[tcp + 9], f[tcp + 10], f[tcp + 11]]), 2000);
    assert_eq!(f[tcp + 12], 0x50);
    assert_eq!(f[tcp + 13], 0x18, "PSH|ACK");
    assert_eq!(u16::from_be_bytes([f[tcp + 14], f[tcp + 15]]), 65535);
    assert_eq!(&f[tcp + 20..], b"pong");
    assert!(tcp_verifies(&f), "TCP checksum verifies");
}

#[test]
fn control_frames_carry_their_flags() {
    let ack = build_tcp_ack_frame(&params());
    let fin = build_tcp_fin_frame(&params());
    let rst = build_tcp_rst_frame(&TcpFrameParams { window: 0, ..params() });
    assert_eq!(ack.len(), 54);
    assert_eq!(ack[ETH_HEADER_LEN + 20 + 13], 0x10);
    assert_eq!(fin[ETH_HEADER_LEN + 20 + 13], 0x11);
    assert_eq!(rst[ETH_HEADER_LEN + 20 + 13], 0x14);
    assert_eq!(&rst[ETH_HEADER_LEN + 20 + 14..ETH_HEADER_LEN + 20 + 16], &[0, 0]);
    for f in [&ack, &fin, &rst] {
        assert!(tcp_verifies(f));
        assert_eq!(ones_sum(&f[ETH_HEADER_LEN..ETH_HEADER_LEN + 20]), 0xFFFF);
    }
}

#[test]
fn partial_checksum_frame_holds_pseudo_header_sum() {
    let payload = vec![0xAB; 3000];
    let f = build_tcp_data_frame_partial_csum(&params(), &payload);
    let tcp = ETH_HEADER_LEN + 20;
    let csum = u16::from_be_bytes([f[tcp + 16], f[tcp + 17]]);
    assert_eq!(csum, tcp_pseudo_header_checksum([192, 168, 64, 1], [192, 168, 64, 2], 3020));
    assert_eq!(u16::from_be_bytes([f[ETH_HEADER_LEN + 2], f[ETH_HEADER_LEN + 3]]), 3040);
}

fn guest_segment(seq: u32, ack: u32, flags: u8, payload: &[u8]) -> Vec<u8> {
    let ip_total = 40 + payload.len();
    let mut frame = vec![0u8; ETH_HEADER_LEN + ip_total];
    frame[0..6].copy_from_slice(&GW_MAC);
    frame[6..12].copy_from_slice(&GUEST_MAC);
    frame[12..14].copy_from_slice(&0x0800u16.to_be_bytes());
    let ip = 14;
    frame[ip] = 0x45;
    frame[ip + 2..ip + 4].copy_from_slice(&(ip_total as u16).to_be_bytes());
    frame[ip + 8] = 64;
    frame[ip + 9] = 6;
    frame[ip + 12..ip + 16].copy_from_slice(&[192, 168, 64, 2]);
    frame[ip + 16..ip + 20].copy_from_slice(&[203, 0, 113, 1]);
    let tcp = 34;
    frame[tcp..tcp + 2].copy_from_slice(&40000u16.to_be_bytes());
    frame[tcp + 2..tcp + 4].copy_from_slice(&80u16.to_be_bytes());
    frame[tcp + 4..tcp + 8].copy_from_slice(&seq.to_be_bytes());
    frame[tcp + 8..tcp + 12].copy_from_slice(&ack.to_be_bytes());
    frame[tcp + 12] = 0x50;
    frame[tcp + 13] = flags;
    frame[tcp + 14..tcp + 16].copy_from_slice(&1024u16.to_be_bytes());
    frame[tcp + 20..].copy_from_slice(payload);
    frame
}

#[test]
fn parse_reads_every_header_field() {
    let f = guest_segment(7777, 1234, 0x18, b"abc");
    let h = parse_tcp_header(&f).expect("a TCP frame");
    assert_eq!(h.src_ip, [192, 168, 64, 2]);
    assert_eq!(h.dst_ip, [203, 0, 113, 1]);
    assert_eq!(h.src_port, 40000);
    assert_eq!(h.dst_port, 80);
    assert_eq!(h.seq, 7777);
    assert_eq!(h.ack, 1234);
    assert_eq!(h.flags, 0x18);
    assert_eq!(h.window, 1024);
    assert_eq!(h.l4_start, 34);
    assert_eq!(h.ip_total_len, 43);
    assert_eq!(payload_bounds(&f, &h), Some((54, 3)));
}

#[test]
fn parse_rejects_short_non_tcp_and_bad_ihl() {
    let f = guest_segment(1, 1, 0x10, &[]);
    assert!(parse_tcp_header(&f[..53]).is_none(), "too short");
    let mut udp = f.clone();
    udp[14 + 9] = 17;
    assert!(parse_tcp_header(&udp).is_none(), "not TCP");
    let mut bad_ihl = f.clone();
    bad_ihl[14] = 0x44;
    assert!(parse_tcp_header(&bad_ihl).is_none(), "IHL below 20 bytes");
}

#[test]
fn payload_excludes_ethernet_padding_and_rejects_bad_offset() {
    let mut f = guest_segment(1, 1, 0x18, b"xy");
    f.extend_from_slice(&[0u8; 10]); // Ethernet padding past the IPv4 length
    let h = parse_tcp_header(&f).unwrap();
    assert_eq!(payload_bounds(&f, &h), Some((54, 2)));
    let mut bad = guest_segment(1, 1, 0x18, b"xy");
    bad[34 + 12] = 0x40; // 16-byte data offset
    let h = parse_tcp_header(&bad).unwrap();
    assert_eq!(payload_bounds(&bad, &h), None);
    let mut past = guest_segment(1, 1, 0x18, b"xy");
    past[34 + 12] = 0xF0; // 60-byte data offset past the frame's end
    let h = parse_tcp_header(&past).unwrap();
    assert_eq!(payload_bounds(&past, &h), None);
}

#[test]
fn rst_from_syn_answers_guest_syn() {
    let syn = guest_segment(0x0102_0304, 0, 0x02, &[]);
    let rst = build_rst_from_syn(&syn, GW_MAC).expect("a RST");
    assert_eq!(rst.len(), 54);
    assert_eq!(&rst[0..6], &GUEST_MAC, "back to the SYN's source MAC");
    assert_eq!(&rst[6..12], &GW_MAC);
    let ip = ETH_HEADER_LEN;
    assert_eq!(&rst[ip + 12..ip + 16], &[203, 0, 113, 1], "addresses swapped");
    assert_eq!(&rst[ip + 16..ip + 20], &[192, 168, 64, 2]);
    let tcp = ip + 20;
    assert_eq!(u16::from_be_bytes([rst[tcp], rst[tcp + 1]]), 80, "ports swapped");
    assert_eq!(u16::from_be_bytes([rst[tcp + 2], rst[tcp + 3]]), 40000);
    assert_eq!(&rst[tcp + 4..tcp + 8], &[0, 0, 0, 0], "seq 0");
    assert_eq!(
        u32::from_be_bytes([rst[tcp + 8], rst[tcp + 9], rst[tcp + 10], rst[tcp + 11]]),
        0x0102_0305,
        "acknowledges the SYN"
    );
    assert_eq!(rst[tcp + 13], 0x14, "RST|ACK flags expected");
    assert_eq!(&rst[tcp + 14..tcp + 16], &[0, 0]);
    assert!(tcp_verifies(&rst));
    assert_eq!(ones_sum(&rst[ip..ip + 20]), 0xFFFF);
    // A wrapping SYN sequence number wraps in the ACK.
    let syn = guest_segment(u32::MAX, 0, 0x02, &[]);
    let rst = build_rst_from_syn(&syn, GW_MAC).unwrap();
    assert_eq!(&rst[tcp + 8..tcp + 12], &[0, 0, 0, 0]);
}

#[test]
fn rst_from_syn_rejects_malformed_frames() {
    let syn = guest_segment(5, 0, 0x02, &[]);
    assert!(build_rst_from_syn(&syn[..53], GW_MAC).is_none());
    let mut bad = syn.clone();
    bad[14] = 0x43;
    assert!(build_rst_from_syn(&bad, GW_MAC).is_none());
    let mut long_ihl = syn.clone();
    long_ihl[14] = 0x4F; // 60-byte IPv4 header runs past the frame
    assert!(build_rst_from_syn(&long_ihl, GW_MAC).is_none());
}
