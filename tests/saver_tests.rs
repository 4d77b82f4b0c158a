use std::collections::VecDeque;

use mktorrent::saver::{digest_equal, piece_matches, SaveDecision, SaverEvent, SaverState};
use mktorrent::store::{position_of, remove_by_info_hash, upsert, DownloadStatus, TorrentBackupInfo};
use mktorrent::tasks::{ChunksTask, PieceTask};
use mktorrent::torrent::{parse_torrent, Torrent};

fn torrent_with_hashes(length: u64, piece_length: u64, hashes: &[u8]) -> Torrent {
    let mut b = format!(
        "d8:announce1:x4:infod6:lengthi{}e4:name1:n12:piece lengthi{}e6:pieces{}:",
        length,
        piece_length,
        hashes.len()
    )
    .into_bytes();
    b.extend_from_slice(hashes);
    b.extend_from_slice(b"ee");
    parse_torrent(&b).unwrap()
}

#[test]
fn corrupted_piece_is_retried() {
    let t = torrent_with_hashes(40000, 20000, &[0u8; 40]);
    let mut s = SaverState::new(&t, 0);
    assert_eq!(s.on_data(&t, 1, 0), SaveDecision::Write(20000));
    assert!(!s.record(&t, 1, 0));
    assert_eq!(s.on_data(&t, 1, 0), SaveDecision::Discard);
    assert_eq!(s.on_data(&t, 1, 16384), SaveDecision::Write(36384));
    assert!(s.record(&t, 1, 16384));
    assert_eq!(s.on_hash(&t, 1, false), SaverEvent::InvalidHash(1));
    assert_eq!(s.on_data(&t, 1, 0), SaveDecision::Write(20000));
    s.record(&t, 1, 0);
    assert!(s.record(&t, 1, 16384));
    assert_eq!(s.on_hash(&t, 1, true), SaverEvent::PieceDone(false));
    // the last piece is reported done too, with the download finished
    assert_eq!(s.pieces_finished(), 1);
    s.record(&t, 0, 0);
    s.record(&t, 0, 16384);
    assert_eq!(s.on_hash(&t, 0, true), SaverEvent::PieceDone(true));
}

#[test]
fn books_are_rebuilt_from_a_record() {
    let t = torrent_with_hashes(4 * 262_144, 262_144, &[0u8; 80]);
    let mut s = SaverState::new(&t, 2);
    let pieces: VecDeque<PieceTask> = vec![
        PieceTask { piece_i: 1, total_chunks: 16, chunks_done: 10 },
        PieceTask { piece_i: 9, total_chunks: 16, chunks_done: 3 },
    ]
    .into();
    let chunks: VecDeque<ChunksTask> = vec![ChunksTask { piece_i: 1, chunks: 4..10, includes_last_chunk: false }].into();
    s.restore(&t, &pieces, &chunks);
    assert_eq!(s.pieces_finished(), 2);
    assert_eq!(s.on_data(&t, 1, 0), SaveDecision::Discard);
    assert_eq!(s.on_data(&t, 1, 3 * 16384), SaveDecision::Discard);
    assert_eq!(s.on_data(&t, 1, 4 * 16384), SaveDecision::Write(262_144 + 4 * 16384));
    assert_eq!(s.on_data(&t, 1, 12 * 16384), SaveDecision::Write(262_144 + 12 * 16384));
    assert_eq!(s.on_data(&t, 2, 0), SaveDecision::Write(2 * 262_144));
}

#[test]
fn out_of_range_blocks_are_dropped() {
    let t = torrent_with_hashes(40000, 20000, &[0u8; 40]);
    let s = SaverState::new(&t, 0);
    assert_eq!(s.on_data(&t, 2, 0), SaveDecision::Discard);
    assert_eq!(s.on_data(&t, 1, 20000), SaveDecision::Discard);
}

#[test]
fn piece_hash_check() {
    let data: Vec<u8> = (0..20000).map(|i| (i % 251) as u8).collect();
    let mut hashes = hex::decode("7f21d0bec0ec41aea43854e5bb9e97951d383157").unwrap();
    hashes.extend([0u8; 20]);
    let t = torrent_with_hashes(40000, 20000, &hashes);
    assert!(piece_matches(&t, 0, &data));
    assert!(!piece_matches(&t, 1, &data));
    assert!(digest_equal(&vec![1, 2], &vec![1, 2]));
    assert!(!digest_equal(&vec![1, 2], &vec![1, 3]));
}

fn record(hash: u8, done: usize) -> TorrentBackupInfo {
    let t = torrent_with_hashes(10, 16, &[hash; 20]);
    TorrentBackupInfo {
        pieces_tasks: VecDeque::new(),
        chunks_tasks: VecDeque::new(),
        torrent: t,
        save_path: "/tmp/x".to_string(),
        pieces_done: done,
        status: DownloadStatus::Paused,
    }
}

#[test]
fn store_upsert_and_delete() {
    let mut records = Vec::new();
    upsert(&mut records, record(1, 0));
    upsert(&mut records, record(2, 5));
    upsert(&mut records, record(1, 37));
    assert_eq!(records.len(), 2);
    let h1 = records[0].torrent.info_hash.clone();
    assert_eq!(records[0].pieces_done, 37);
    assert_eq!(position_of(&records, &h1), Some(0));
    let removed = remove_by_info_hash(&mut records, &h1).unwrap();
    assert_eq!(removed.pieces_done, 37);
    assert_eq!(records.len(), 1);
    assert!(remove_by_info_hash(&mut records, &h1).is_none());
    assert_eq!(position_of(&records, &h1), None);
}
