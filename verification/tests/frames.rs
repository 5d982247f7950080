use interceptor::capture::{handle_frame, FrameOutcome};
use interceptor::configs::{Config, ConfigValue};
use interceptor::domains::Resolved;
use interceptor::filters::Blacklist;
use interceptor::packet_utils::{
    build_rst_packet_from, get_protocol, is_ipv4, src_dst_details, syn_ack_flags, tcp_details,
    Protocol, TcpFlags, TransportProtocol, UdpProtocol,
};
use interceptor::addrs::IpAddress;

/// A 54-byte Ethernet + IPv4 + TCP SYN frame from 10.0.0.1:8080 to
/// 93.184.216.34:80 with sequence number 0x64 and window 0x2238.
fn syn_frame() -> Vec<u8> {
    let mut f = Vec::new();
    f.extend_from_slice(&[1, 2, 3, 4, 5, 6]); // first Ethernet address
    f.extend_from_slice(&[7, 8, 9, 10, 11, 12]); // second Ethernet address
    f.extend_from_slice(&[0x08, 0x00]);
    f.extend_from_slice(&[
        0x45, 0x00, 0x00, 0x28, 0x12, 0x34, 0x40, 0x00, 0x40, 0x06, 0x00, 0x00,
    ]);
    f.extend_from_slice(&[10, 0, 0, 1]); // source IP
    f.extend_from_slice(&[93, 184, 216, 34]); // destination IP
    f.extend_from_slice(&[0x1f, 0x90]); // source port 8080
    f.extend_from_slice(&[0x00, 0x50]); // destination port 80
    f.extend_from_slice(&[0x00, 0x00, 0x00, 0x64]); // sequence number
    f.extend_from_slice(&[0x00, 0x00, 0x00, 0x00]); // acknowledgement
    f.extend_from_slice(&[0x50, 0x02]); // data offset, SYN
    f.extend_from_slice(&[0x22, 0x38]); // window
    f.extend_from_slice(&[0x00, 0x00, 0x00, 0x00]); // checksum, urgent
    f
}

#[test]
fn classification_reads_the_headers() {
    let f = syn_frame();
    assert!(is_ipv4(&f));
    let (syn, ack) = syn_ack_flags(&f[34..]);
    assert!(syn && !ack);
    assert!(matches!(
        get_protocol(&f),
        Protocol::Ipv4(TransportProtocol::TCP(TcpFlags::SynAck(true, false)))
    ));
    let mut udp = syn_frame();
    udp[23] = 17;
    assert!(matches!(
        get_protocol(&udp),
        Protocol::Ipv4(TransportProtocol::UDP(UdpProtocol::DNS))
    ));
    let mut other = syn_frame();
    other[23] = 1;
    assert!(matches!(get_protocol(&other), Protocol::Ipv4(TransportProtocol::Other)));
}

#[test]
fn endpoint_extraction() {
    let f = syn_frame();
    let (src, sport, smac, dst, dport, dmac) = src_dst_details(&f);
    assert_eq!(src, IpAddress::V4([10, 0, 0, 1]));
    assert_eq!(sport, 8080);
    assert_eq!(smac.render(), "01:02:03:04:05:06");
    assert_eq!(dst, IpAddress::V4([93, 184, 216, 34]));
    assert_eq!(dport, 80);
    assert_eq!(dmac.render(), "07:08:09:0A:0B:0C");
    let (seq, ack, window) = tcp_details(&f[34..]);
    assert_eq!(seq, 0x64);
    assert_eq!(ack, 0);
    assert_eq!(window, 0x2238);
}

#[test]
fn rst_derivation_symmetry() {
    let f = syn_frame();
    let rst = build_rst_packet_from(&f, true);
    assert_eq!(rst.len(), 54);
    // layer 2 echoed
    assert_eq!(&rst[0..12], &f[0..12]);
    assert_eq!(&rst[12..14], &[0x08, 0x00]);
    // layer 3 swapped, total length 40
    assert_eq!(&rst[26..30], &f[30..34]);
    assert_eq!(&rst[30..34], &f[26..30]);
    assert_eq!(&rst[16..18], &[0x00, 0x28]);
    // layer 4 swapped ports, seq + 1, RST-only flags
    assert_eq!(&rst[34..36], &f[36..38]);
    assert_eq!(&rst[36..38], &f[34..36]);
    assert_eq!(&rst[38..42], &[0x00, 0x00, 0x00, 0x65]);
    assert_eq!(rst[46], 0x50);
    assert_eq!(rst[47], 0x04);
    assert_eq!(&rst[48..50], &f[48..50]); // window echoed
}

#[test]
fn rst_checksums_validate() {
    let f = syn_frame();
    let rst = build_rst_packet_from(&f, false);
    // recomputing the IP header checksum over the header yields zero
    assert_eq!(interceptor::packet_utils::checksum(&rst[14..34]), 0);
    // and so does the TCP checksum over the pseudo-header
    let mut pseudo = Vec::new();
    pseudo.extend_from_slice(&rst[26..34]);
    pseudo.extend_from_slice(&[0x00, 0x06, 0x00, 0x14]);
    pseudo.extend_from_slice(&rst[34..54]);
    assert_eq!(interceptor::packet_utils::checksum(&pseudo), 0);
}

fn wildcard_reset_rules() -> Blacklist {
    let root = ConfigValue::Table(vec![(
        String::from("filter"),
        ConfigValue::Array(vec![ConfigValue::Table(vec![(
            String::from("mode"),
            ConfigValue::Text(String::from("reset")),
        )])]),
    )]);
    let cfg = Config::build(&root).unwrap();
    Blacklist::build(cfg.filter)
}

#[test]
fn frame_routing_resets_matching_tcp() {
    let bl = wildcard_reset_rules();
    let mut learner = Resolved::build();
    let lookups: Vec<(IpAddress, Option<String>)> = Vec::new();
    let f = syn_frame();
    match handle_frame(&bl, &mut learner, &f, &lookups) {
        FrameOutcome::SendRst(rst) => {
            assert_eq!(rst, build_rst_packet_from(&f, true));
        },
        _ => panic!("expected a forged RST"),
    }
}

#[test]
fn frame_routing_feeds_the_learner_from_dns() {
    let bl = wildcard_reset_rules();
    let mut learner = Resolved::build();
    let lookups: Vec<(IpAddress, Option<String>)> = Vec::new();
    // a UDP frame whose DNS payload at byte 42 answers example.com -> 93.184.216.34
    let mut f = vec![0u8; 42];
    f[14] = 0x45;
    f[23] = 17;
    f.extend_from_slice(&[0x12, 0x34, 0x81, 0x80, 0x00, 0x00, 0x00, 0x01, 0x00, 0x00, 0x00, 0x00]);
    f.extend_from_slice(&[7]);
    f.extend_from_slice(b"example");
    f.extend_from_slice(&[3]);
    f.extend_from_slice(b"com");
    f.push(0);
    f.extend_from_slice(&[0x00, 0x01, 0x00, 0x01, 0x00, 0x00, 0x00, 0x3c, 0x00, 0x04]);
    f.extend_from_slice(&[93, 184, 216, 34]);
    assert!(matches!(handle_frame(&bl, &mut learner, &f, &lookups), FrameOutcome::Nothing));
    let ip = IpAddress::V4([93, 184, 216, 34]);
    assert_eq!(learner.get(&ip).as_deref(), Some("example.com"));

    // the same frame with a garbled payload is reported as a DNS error
    let mut bad = vec![0u8; 50];
    bad[14] = 0x45;
    bad[23] = 17;
    bad[45] = 0xff;
    assert!(matches!(handle_frame(&bl, &mut learner, &bad, &lookups), FrameOutcome::DnsError));
}

#[test]
fn frame_routing_asks_for_lookups_under_regex_rules() {
    let root = ConfigValue::Table(vec![(
        String::from("filter"),
        ConfigValue::Array(vec![ConfigValue::Table(vec![
            (String::from("dst_regex"), ConfigValue::Text(String::from("example"))),
            (String::from("mode"), ConfigValue::Text(String::from("monitor"))),
        ])]),
    )]);
    let cfg = Config::build(&root).unwrap();
    let bl = Blacklist::build(cfg.filter);
    let mut learner = Resolved::build();
    let f = syn_frame();
    let none: Vec<(IpAddress, Option<String>)> = Vec::new();
    let dst = IpAddress::V4([93, 184, 216, 34]);
    match handle_frame(&bl, &mut learner, &f, &none) {
        FrameOutcome::NeedLookup(ip) => assert_eq!(ip, dst),
        _ => panic!("expected a lookup request"),
    }
    // the recorded answer settles the decision
    let answered: Vec<(IpAddress, Option<String>)> = vec![(dst, Some(String::from("example.com")))];
    match handle_frame(&bl, &mut learner, &f, &answered) {
        FrameOutcome::Monitor(s, d, rule_idx) => {
            assert_eq!(s, IpAddress::V4([10, 0, 0, 1]));
            assert_eq!(d, dst);
            assert_eq!(rule_idx, 0);
        },
        _ => panic!("expected a monitor record"),
    }
    // a recorded miss leaves only the rendered IP, which the pattern misses
    let missed: Vec<(IpAddress, Option<String>)> = vec![(dst, None)];
    assert!(matches!(handle_frame(&bl, &mut learner, &f, &missed), FrameOutcome::Nothing));
}

#[test]
fn frame_routing_drops_short_and_foreign_frames() {
    let bl = wildcard_reset_rules();
    let mut learner = Resolved::build();
    let lookups: Vec<(IpAddress, Option<String>)> = Vec::new();
    assert!(matches!(
        handle_frame(&bl, &mut learner, &[0u8; 10], &lookups),
        FrameOutcome::Dropped
    ));
    let mut v6 = syn_frame();
    v6[14] = 0x60;
    assert!(matches!(handle_frame(&bl, &mut learner, &v6, &lookups), FrameOutcome::Nothing));
}
