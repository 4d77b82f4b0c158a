use mktorrent::torrent::parse_torrent;
use mktorrent::tracker::{
    announce_query, announce_request, clamp_interval, connect_request, merge_peers, parse_announce_response,
    parse_connect_response, parse_tracker_response, udp_timeout_ms, AnnounceStep, Failover, TrackerError, TrackerReq,
    LISTEN_PORT, TRACKER_ATTEMPTS,
};

fn req() -> TrackerReq {
    TrackerReq {
        info_hash: vec![0x12; 20],
        peer_id: b"abcdefghij0123456789".to_vec(),
        port: 6881,
        uploaded: 1,
        downloaded: 22,
        left: 333,
    }
}

#[test]
fn http_query() {
    let q = String::from_utf8(announce_query(&req())).unwrap();
    let expected = format!(
        "?info_hash={}&peer_id={}&port=6881&uploaded=1&downloaded=22&left=333&compact=1",
        "%12".repeat(20),
        "abcdefghij0123456789".bytes().map(|b| format!("%{:02x}", b)).collect::<String>()
    );
    assert_eq!(q, expected);
}

#[test]
fn init_from_torrent() {
    let mut b = b"d8:announce1:x4:infod6:lengthi10e4:name1:n12:piece lengthi16e6:pieces20:".to_vec();
    b.extend([0u8; 20]);
    b.extend_from_slice(b"ee");
    let t = parse_torrent(&b).unwrap();
    let r = TrackerReq::init(&t);
    assert_eq!(r.info_hash, t.info_hash);
    assert_eq!(r.left, 10);
    assert_eq!(r.port, LISTEN_PORT);
    assert_eq!(r.peer_id.len(), 20);
    assert!(r.peer_id.iter().all(|c| c.is_ascii_alphanumeric()));
}

#[test]
fn http_reply_with_compact_peers() {
    let mut body = b"d8:intervali1800e5:peers12:".to_vec();
    body.extend_from_slice(&[127, 0, 0, 1, 0x1a, 0xe1, 10, 1, 2, 3, 0, 80]);
    body.push(b'e');
    let r = parse_tracker_response(&body).unwrap();
    assert_eq!(r.interval, 1800);
    assert_eq!(r.peers, vec!["127.0.0.1:6881".to_string(), "10.1.2.3:80".to_string()]);
    assert_eq!(parse_tracker_response(b"d8:intervali5ee").err(), Some(TrackerError::TrackerProtocol));
    assert_eq!(parse_tracker_response(b"<html>").err(), Some(TrackerError::TrackerProtocol));
}

#[test]
fn udp_connect_round() {
    let p = connect_request(0xdeadbeef);
    assert_eq!(p, vec![0, 0, 4, 0x17, 0x27, 0x10, 0x19, 0x80, 0, 0, 0, 0, 0xde, 0xad, 0xbe, 0xef]);
    let reply = [0, 0, 0, 0, 0xde, 0xad, 0xbe, 0xef, 1, 2, 3, 4, 5, 6, 7, 8];
    assert_eq!(parse_connect_response(&reply, 0xdeadbeef), Ok(0x0102030405060708));
    assert_eq!(parse_connect_response(&reply, 1), Err(TrackerError::TrackerProtocol));
    assert_eq!(parse_connect_response(&reply[..15], 0xdeadbeef), Err(TrackerError::TrackerProtocol));
}

#[test]
fn udp_announce_round() {
    let p = announce_request(0x0102030405060708, 7, &req());
    assert_eq!(p.len(), 98);
    assert_eq!(&p[0..8], &[1, 2, 3, 4, 5, 6, 7, 8]);
    assert_eq!(&p[8..16], &[0, 0, 0, 1, 0, 0, 0, 7]);
    assert_eq!(&p[16..36], &[0x12; 20]);
    assert_eq!(&p[56..64], &[0, 0, 0, 0, 0, 0, 0, 22]);
    assert_eq!(&p[92..96], &[0xff; 4]);
    assert_eq!(&p[96..98], &[0x1a, 0xe1]);
    let mut reply = vec![0, 0, 0, 1, 0, 0, 0, 7, 0, 0, 0x07, 0x08, 0, 0, 0, 1, 0, 0, 0, 2];
    reply.extend_from_slice(&[192, 168, 0, 9, 0x1a, 0xe1]);
    let r = parse_announce_response(&reply, 7).unwrap();
    assert_eq!(r.interval, 1800);
    assert_eq!(r.peers, vec!["192.168.0.9:6881".to_string()]);
    assert!(parse_announce_response(&reply, 8).is_err());
}

#[test]
fn retry_schedule_and_interval() {
    assert_eq!(udp_timeout_ms(0), Some(100));
    assert_eq!(udp_timeout_ms(19), Some(2000));
    assert_eq!(udp_timeout_ms(20), None);
    assert_eq!(clamp_interval(5), 60);
    assert_eq!(clamp_interval(900), 900);
    assert_eq!(clamp_interval(100_000), 1800);
}

#[test]
fn failing_tracker_is_passed_over() {
    let mut round = Failover::new();
    // the first tracker fails every attempt
    for _ in 0..TRACKER_ATTEMPTS {
        assert_eq!(round.next(2), AnnounceStep::Ask(0));
        round.record(false);
    }
    assert_eq!(round.next(2), AnnounceStep::Ask(1));
    round.record(true);
    assert_eq!(round.next(2), AnnounceStep::Done);
}

#[test]
fn failover_merges_unique_endpoints() {
    let mut known: Vec<String> = Vec::new();
    // first tracker gave nothing
    assert!(merge_peers(&mut known, &vec![]).is_empty());
    let fresh = merge_peers(&mut known, &vec!["a:1".to_string(), "b:2".to_string(), "a:1".to_string()]);
    assert_eq!(fresh, vec!["a:1".to_string(), "b:2".to_string()]);
    let fresh = merge_peers(&mut known, &vec!["b:2".to_string(), "c:3".to_string()]);
    assert_eq!(fresh, vec!["c:3".to_string()]);
    assert_eq!(known.len(), 3);
}
