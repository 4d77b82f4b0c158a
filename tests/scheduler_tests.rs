use std::collections::VecDeque;

use mktorrent::coordinator::{check_limits, control_of, Control, LimitError, Scheduler, Slot, UiMsg};
use mktorrent::store::DownloadStatus;
use mktorrent::tasks::{add_chunks_tasks, get_piece_tasks, take_chunks, ChunksTask, PieceTask, MAX_CHUNKS_TASKS};
use mktorrent::torrent::{parse_torrent, Torrent};

fn torrent(length: u64, piece_length: u64) -> Torrent {
    let n = ((length + piece_length - 1) / piece_length) as usize;
    let mut b = format!(
        "d8:announce1:x4:infod6:lengthi{}e4:name1:n12:piece lengthi{}e6:pieces{}:",
        length,
        piece_length,
        n * 20
    )
    .into_bytes();
    b.extend(vec![1u8; n * 20]);
    b.extend_from_slice(b"ee");
    parse_torrent(&b).unwrap()
}

fn chunks_of(q: &VecDeque<ChunksTask>) -> u64 {
    q.iter().map(|c| (c.chunks.end - c.chunks.start) as u64).sum()
}

fn remaining_of(q: &VecDeque<PieceTask>) -> u64 {
    q.iter().map(|p| (p.total_chunks - p.chunks_done) as u64).sum()
}

#[test]
fn piece_tasks_skip_done_pieces() {
    let t = torrent(1_000_000, 262_144);
    let tasks = get_piece_tasks(&t, &vec![1, 2]);
    assert_eq!(tasks.len(), 2);
    assert_eq!(tasks[0], PieceTask { piece_i: 0, total_chunks: 16, chunks_done: 0 });
    assert_eq!(tasks[1], PieceTask { piece_i: 3, total_chunks: 14, chunks_done: 0 });
}

#[test]
fn batches_are_cut_in_order() {
    let t = torrent(100 * 16384 + 5, 100 * 16384);
    let mut pieces = get_piece_tasks(&t, &vec![]);
    let mut chunks = VecDeque::new();
    add_chunks_tasks(&mut pieces, &mut chunks, 3);
    assert_eq!(chunks.len(), 3);
    assert_eq!((chunks[0].piece_i, chunks[0].chunks.clone(), chunks[0].includes_last_chunk), (0, 0..60, false));
    assert_eq!((chunks[1].piece_i, chunks[1].chunks.clone(), chunks[1].includes_last_chunk), (0, 60..100, true));
    assert_eq!((chunks[2].piece_i, chunks[2].chunks.clone(), chunks[2].includes_last_chunk), (1, 0..1, true));
    assert_eq!(remaining_of(&pieces), 0);
}

#[test]
fn chunks_are_conserved() {
    let t = torrent(1_048_576, 262_144);
    let mut pieces = get_piece_tasks(&t, &vec![]);
    let total = remaining_of(&pieces);
    assert_eq!(total, 64);
    let mut chunks = VecDeque::new();
    for k in 0..5 {
        add_chunks_tasks(&mut pieces, &mut chunks, k);
        assert_eq!(remaining_of(&pieces) + chunks_of(&chunks), total);
    }
}

#[test]
fn take_chunks_moves_progress() {
    let (rest, batch) = take_chunks(PieceTask { piece_i: 4, total_chunks: 70, chunks_done: 60 });
    assert_eq!(rest, PieceTask { piece_i: 4, total_chunks: 70, chunks_done: 70 });
    assert_eq!(batch.chunks, 60..70);
    assert!(batch.includes_last_chunk);
}

fn in_flight(s: &Scheduler) -> u64 {
    s.slots
        .iter()
        .map(|x| match x {
            Slot::Busy(_, t) => (t.chunks.end - t.chunks.start) as u64,
            _ => 0,
        })
        .sum()
}

fn accounted(s: &Scheduler) -> u64 {
    remaining_of(&s.pieces_tasks) + chunks_of(&s.chunks_tasks) + in_flight(s)
}

#[test]
fn scheduler_assigns_failed_batch_back_to_head() {
    let t = torrent(1_048_576, 262_144);
    let mut s = Scheduler::new(get_piece_tasks(&t, &vec![]));
    s.refill();
    assert_eq!(s.chunks_tasks.len(), 4);
    let a = s.add_peer("1.1.1.1:1".to_string());
    let b = s.add_peer("2.2.2.2:2".to_string());
    assert_eq!((a, b), (0, 1));
    assert!(s.peer_known(&"2.2.2.2:2".to_string()));
    assert!(!s.peer_known(&"3.3.3.3:3".to_string()));
    // first peer lacks the piece: skipped, queue order kept
    assert_eq!(s.assign(&vec![false, true]), Some(1));
    assert_eq!(s.chunks_tasks[0].piece_i, 1);
    assert_eq!(accounted(&s), 64);
    s.task_failed(1);
    assert_eq!(s.chunks_tasks[0].piece_i, 0);
    assert!(matches!(s.slots[1], Slot::Finished));
    assert_eq!(accounted(&s), 64);
    // a new peer takes the finished slot
    assert_eq!(s.add_peer("3.3.3.3:3".to_string()), 1);
    assert_eq!(s.assign(&vec![false, false]), None);
}

#[test]
fn invalid_hash_requeues_piece_first() {
    let t = torrent(1_048_576, 262_144);
    let mut s = Scheduler::new(get_piece_tasks(&t, &vec![]));
    s.refill();
    let p = s.add_peer("1.1.1.1:1".to_string());
    assert_eq!(s.assign(&vec![true]), Some(p));
    s.task_done(p);
    assert_eq!(accounted(&s), 48);
    s.invalid_hash(0, 16);
    assert_eq!(s.pieces_tasks[0], PieceTask { piece_i: 0, total_chunks: 16, chunks_done: 0 });
    assert_eq!(accounted(&s), 64);
}

#[test]
fn pause_returns_work_and_keeps_remaining_pieces() {
    let t = torrent(100 * 16384, 16384);
    let done: Vec<usize> = (0..37).collect();
    let mut s = Scheduler::new(get_piece_tasks(&t, &done));
    assert_eq!(s.pieces_tasks.len(), 63);
    assert_eq!(s.pieces_tasks[0].piece_i, 37);
    s.refill();
    let p = s.add_peer("1.1.1.1:1".to_string());
    s.assign(&vec![true]);
    let head_before = s.chunks_tasks[0].piece_i;
    s.return_all();
    assert!(matches!(s.slots[p], Slot::Finished));
    // the batch that was out is back at the head
    assert_eq!(s.chunks_tasks[0].piece_i, 37);
    assert_eq!(s.chunks_tasks[1].piece_i, head_before);
    assert_eq!(accounted(&s), 63);
    let mut pieces: Vec<u16> = s.chunks_tasks.iter().map(|c| c.piece_i).collect();
    pieces.extend(s.pieces_tasks.iter().filter(|p| p.chunks_done < p.total_chunks).map(|p| p.piece_i));
    pieces.sort();
    assert_eq!(pieces, (37..100).collect::<Vec<u16>>());
    assert_eq!(control_of(&UiMsg::Pause(37)), Control::Persist(DownloadStatus::Paused, 37));
    assert_eq!(control_of(&UiMsg::Stop(3)), Control::Persist(DownloadStatus::Downloading, 3));
    assert_eq!(control_of(&UiMsg::ForceOff), Control::Abort);
    assert_eq!(control_of(&UiMsg::PieceDone(1)), Control::Ignore);
}

#[test]
fn limits_are_checked() {
    let t = torrent(1_000_000, 262_144);
    assert_eq!(check_limits(&t), Ok(()));
    let big = torrent(70_000 * 16, 16);
    assert_eq!(check_limits(&big), Err(LimitError::TooManyPieces));
    // 65,535 whole chunks and one byte more: within the bound
    let edge = torrent(65_535 * 16_384 + 1, 65_535 * 16_384 + 1);
    assert_eq!(check_limits(&edge), Ok(()));
    let tasks = get_piece_tasks(&edge, &vec![]);
    assert_eq!(tasks[0].total_chunks, 65_536);
    let over = torrent(65_536 * 16_384, 65_536 * 16_384);
    assert_eq!(check_limits(&over), Err(LimitError::TooManyChunks));
    assert_eq!(MAX_CHUNKS_TASKS, 100);
}
