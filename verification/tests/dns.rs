use interceptor::addrs::IpAddress;
use interceptor::domains::Resolved;

/// A frame whose DNS payload starts at byte 42: a response with one answer
/// mapping example.com to 93.184.216.34.
fn dns_response_frame() -> Vec<u8> {
    let mut f = vec![0u8; 42];
    // header: id, flags (response), counts: 0 questions, 1 answer
    f.extend_from_slice(&[0x12, 0x34, 0x81, 0x80, 0x00, 0x00, 0x00, 0x01, 0x00, 0x00, 0x00, 0x00]);
    // owner name: example.com
    f.extend_from_slice(&[7]);
    f.extend_from_slice(b"example");
    f.extend_from_slice(&[3]);
    f.extend_from_slice(b"com");
    f.push(0);
    // type A, class IN, TTL 60, rdlength 4, rdata
    f.extend_from_slice(&[0x00, 0x01, 0x00, 0x01, 0x00, 0x00, 0x00, 0x3c, 0x00, 0x04]);
    f.extend_from_slice(&[93, 184, 216, 34]);
    f
}

#[test]
fn learner_absorbs_address_answers() {
    let mut learner = Resolved::build();
    assert!(learner.update_from_dns(&dns_response_frame()));
    let ip = IpAddress::V4([93, 184, 216, 34]);
    assert_eq!(learner.get(&ip).as_deref(), Some("example.com"));
    assert!(learner.get(&IpAddress::V4([1, 2, 3, 4])).is_none());
}

#[test]
fn learner_keeps_the_last_writer() {
    let mut learner = Resolved::build();
    let ip = IpAddress::V4([9, 9, 9, 9]);
    learner.insert(ip, String::from("first.example"));
    learner.insert(ip, String::from("second.example"));
    assert_eq!(learner.get(&ip).as_deref(), Some("second.example"));
}

#[test]
fn malformed_dns_frames_are_dropped() {
    let mut learner = Resolved::build();
    // too short for the fixed 42-byte offset
    assert!(!learner.update_from_dns(&[0u8; 30]));
    // long enough but not a DNS packet
    let garbage = vec![0xffu8; 50];
    assert!(!learner.update_from_dns(&garbage));
    assert!(learner.get(&IpAddress::V4([93, 184, 216, 34])).is_none());
}
