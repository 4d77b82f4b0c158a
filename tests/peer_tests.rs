use mktorrent::peer::{
    chunk_requests, decode_body, piece_payload, encode_message, handshake, parse_handshake, parse_piece, parse_request,
    request_payload, should_reconnect, unchoke_wait, IoFailure, PeerAction, PeerMessage, PeerState, PeerStatus,
    WireError,
};
use mktorrent::tasks::ChunksTask;
use mktorrent::torrent::{parse_torrent, Torrent};

fn torrent(length: u64, piece_length: u64) -> Torrent {
    let n = ((length + piece_length - 1) / piece_length) as usize;
    let mut b = format!(
        "d8:announce1:x4:infod6:lengthi{}e4:name1:n12:piece lengthi{}e6:pieces{}:",
        length,
        piece_length,
        n * 20
    )
    .into_bytes();
    b.extend(vec![1u8; n * 20]);
    b.extend_from_slice(b"ee");
    parse_torrent(&b).unwrap()
}

#[test]
fn frames_messages() {
    assert_eq!(encode_message(&PeerMessage::Interested), vec![0, 0, 0, 1, 2]);
    assert_eq!(encode_message(&PeerMessage::KeepAlive), vec![0, 0, 0, 0]);
    assert_eq!(encode_message(&PeerMessage::Have(258)), vec![0, 0, 0, 5, 4, 0, 0, 1, 2]);
    assert_eq!(encode_message(&PeerMessage::Bitfield(vec![0xff, 0x80])), vec![0, 0, 0, 3, 5, 0xff, 0x80]);
    assert_eq!(
        encode_message(&PeerMessage::Request(request_payload(1, 16384, 688))),
        vec![0, 0, 0, 13, 6, 0, 0, 0, 1, 0, 0, 0x40, 0, 0, 0, 0x02, 0xb0]
    );
}

#[test]
fn reads_message_bodies() {
    assert_eq!(decode_body(&[]), Ok(PeerMessage::KeepAlive));
    assert_eq!(decode_body(&[0]), Ok(PeerMessage::Choke));
    assert_eq!(decode_body(&[1]), Ok(PeerMessage::Unchoke));
    assert_eq!(decode_body(&[3]), Ok(PeerMessage::NotInterested));
    assert_eq!(decode_body(&[4, 0, 0, 1, 2]), Ok(PeerMessage::Have(258)));
    assert_eq!(decode_body(&[7, 1, 2]), Ok(PeerMessage::Piece(vec![1, 2])));
    assert_eq!(decode_body(&[8, 9]), Ok(PeerMessage::Cancel(vec![9])));
    assert_eq!(decode_body(&[9]), Err(WireError::BadMessage));
    assert_eq!(decode_body(&[4, 0]), Err(WireError::BadMessage));
    assert_eq!(decode_body(&[2, 0]), Err(WireError::BadMessage));
}

#[test]
fn handshake_layout() {
    let h = handshake(&vec![0xaa; 20], &b"ABCDEFGHIJKLMNOPQRST".to_vec());
    assert_eq!(h.len(), 68);
    assert_eq!(h[0], 19);
    assert_eq!(&h[1..20], b"BitTorrent protocol");
    assert_eq!(&h[20..28], &[0u8; 8]);
    assert_eq!(&h[28..48], &[0xaa; 20]);
    assert_eq!(&h[48..68], b"ABCDEFGHIJKLMNOPQRST");
    let mut reply = h.clone();
    reply[48] = 0x0f;
    reply[67] = 0xa0;
    let id = parse_handshake(&reply).unwrap();
    assert_eq!(id.len(), 40);
    assert!(id.starts_with("0f42"));
    assert!(id.ends_with("a0"));
    assert_eq!(parse_handshake(&h[..67]), Err(WireError::BadHandshake));
}

#[test]
fn payload_fields() {
    assert_eq!(parse_request(&request_payload(7, 32768, 16384)), Some((7, 32768, 16384)));
    assert_eq!(parse_request(&[0; 11]), None);
    let d = parse_piece(&[0, 0, 0, 2, 0, 0, 0x40, 0, 9, 8, 7]).unwrap();
    assert_eq!((d.piece_i, d.begin, d.buf), (2, 16384, vec![9, 8, 7]));
    assert!(parse_piece(&[0; 7]).is_none());
    assert_eq!(piece_payload(2, 16384, &[9, 8, 7]), vec![0, 0, 0, 2, 0, 0, 0x40, 0, 9, 8, 7]);
}

#[test]
fn last_chunk_of_last_piece_is_short() {
    let t = torrent(1_000_000, 262_144);
    let task = ChunksTask { piece_i: 3, chunks: 0..14, includes_last_chunk: true };
    let reqs = chunk_requests(&t, &task);
    assert_eq!(reqs.len(), 14);
    assert_eq!(reqs[0], (0, 16384));
    // 213,568 - 13 * 16,384
    assert_eq!(reqs[13], (13 * 16384, 213_568 - 13 * 16384));
    assert_eq!(reqs[13].1, 576);
    let task = ChunksTask { piece_i: 0, chunks: 10..16, includes_last_chunk: true };
    let reqs = chunk_requests(&t, &task);
    assert_eq!(reqs[5], (15 * 16384, 16384));
}

#[test]
fn no_requests_while_choked() {
    let t = torrent(1_000_000, 262_144);
    let task = ChunksTask { piece_i: 0, chunks: 0..3, includes_last_chunk: false };
    let mut s = PeerState::new();
    assert!(s.batch_requests(&t, &task).is_none());
    s.on_message(PeerMessage::Unchoke);
    assert_eq!(s.batch_requests(&t, &task).unwrap(), vec![(0, 16384), (16384, 16384), (32768, 16384)]);
    s.on_message(PeerMessage::Choke);
    assert!(s.batch_requests(&t, &task).is_none());
}

#[test]
fn remote_bitfield_tracking() {
    let mut s = PeerState::new();
    assert!(s.have_piece(1000));
    assert!(matches!(s.on_message(PeerMessage::Bitfield(vec![0b0100_0000])), PeerAction::Nothing));
    assert!(s.have_piece(1));
    assert!(!s.have_piece(0));
    assert!(!s.have_piece(20));
    s.on_message(PeerMessage::Have(20));
    assert!(s.have_piece(20));
    assert!(s.have_piece(1));
    assert!(!s.have_piece(19));
    let mut fresh = PeerState::new();
    fresh.record_have(3);
    assert!(fresh.have_piece(3) && !fresh.have_piece(2));
}

#[test]
fn session_reacts_to_messages() {
    let mut s = PeerState::new();
    s.on_message(PeerMessage::Unchoke);
    assert_eq!(s.status, PeerStatus::Unchoked);
    assert!(matches!(s.on_message(PeerMessage::Choke), PeerAction::Choked));
    assert_eq!(s.status, PeerStatus::Choked);
    assert!(matches!(s.on_message(PeerMessage::Interested), PeerAction::SendUnchoke));
    assert!(matches!(s.on_message(PeerMessage::Request(request_payload(1, 0, 16384))), PeerAction::Serve(1, 0, 16384)));
    assert!(matches!(s.on_message(PeerMessage::Request(request_payload(1, 0, 16385))), PeerAction::Nothing));
    match s.on_message(PeerMessage::Piece(vec![0, 0, 0, 1, 0, 0, 0, 0, 5])) {
        PeerAction::Deliver(d) => assert_eq!((d.piece_i, d.begin, d.buf), (1, 0, vec![5])),
        _ => panic!("expected a block"),
    }
}

#[test]
fn message_names() {
    assert_eq!(PeerMessage::Choke.name(), "choke");
    assert_eq!(PeerMessage::Have(1).name(), "have");
    assert_eq!(PeerMessage::KeepAlive.name(), "keep-alive");
    assert_eq!(PeerMessage::NotInterested.name(), "not-interested");
}

#[test]
fn failure_policy() {
    assert!(should_reconnect(IoFailure::BrokenPipe));
    assert!(should_reconnect(IoFailure::UnexpectedEof));
    assert!(!should_reconnect(IoFailure::Other));
    assert_eq!(unchoke_wait(0), Some(1));
    assert_eq!(unchoke_wait(1), Some(4));
    assert_eq!(unchoke_wait(2), Some(7));
    assert_eq!(unchoke_wait(3), None);
}
