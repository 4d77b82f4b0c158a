use mktorrent::coordinator::{DownloadEvents, Scheduler, Slot};
use mktorrent::peer::chunk_requests;
use mktorrent::saver::{piece_matches, SaveDecision, SaverEvent, SaverState};
use mktorrent::tasks::{get_piece_tasks, piece_chunks, ChunksTask};
use mktorrent::torrent::{parse_torrent, Torrent};

fn content(len: usize) -> Vec<u8> {
    (0..len).map(|i| (i * 7 % 253) as u8).collect()
}

fn torrent_for(data: &[u8], piece_length: usize) -> Torrent {
    let mut hashes = Vec::new();
    for piece in data.chunks(piece_length) {
        hashes.extend(Torrent::bytes_hash(&piece.to_vec()));
    }
    let mut b = format!(
        "d8:announce1:x4:infod6:lengthi{}e4:name1:n12:piece lengthi{}e6:pieces{}:",
        data.len(),
        piece_length,
        hashes.len()
    )
    .into_bytes();
    b.extend(hashes);
    b.extend_from_slice(b"ee");
    parse_torrent(&b).unwrap()
}

struct Outcome {
    verified: usize,
    invalid: Vec<u64>,
    requeued_batches: usize,
    disk: Vec<u8>,
    longest_request: u32,
    shortest_request: u32,
}

/// Runs the scheduler and the saver against one seed that has every piece.
/// `corrupt` spoils one chunk (piece, begin) the first time it is sent;
/// `choke_after` makes the seed choke once after that many blocks of a batch.
fn run(t: &Torrent, data: &[u8], corrupt: Option<(u16, u32)>, mut choke_after: Option<usize>) -> Outcome {
    let mut sched = Scheduler::new(get_piece_tasks(t, &vec![]));
    let mut saver = SaverState::new(t, 0);
    let mut disk = vec![0u8; data.len()];
    let mut corrupt = corrupt;
    let mut out = Outcome {
        verified: 0,
        invalid: Vec::new(),
        requeued_batches: 0,
        disk: Vec::new(),
        longest_request: 0,
        shortest_request: u32::MAX,
    };
    sched.handle_event(DownloadEvents::PeerAdd("127.0.0.1:6881".to_string(), true));
    for _ in 0..10_000 {
        sched.refill();
        let has = vec![true; sched.slots.len()];
        let Some(slot) = sched.assign(&has) else { break };
        let task = match &sched.slots[slot] {
            Slot::Busy(_, t) => ChunksTask { piece_i: t.piece_i, chunks: t.chunks.clone(), includes_last_chunk: t.includes_last_chunk },
            _ => unreachable!(),
        };
        let mut failed = false;
        for (k, (begin, len)) in chunk_requests(t, &task).into_iter().enumerate() {
            if choke_after == Some(k) {
                choke_after = None;
                failed = true;
                break;
            }
            out.longest_request = out.longest_request.max(len);
            out.shortest_request = out.shortest_request.min(len);
            let addr = task.piece_i as usize * t.info.piece_length as usize + begin as usize;
            let mut block = data[addr..addr + len as usize].to_vec();
            if corrupt == Some((task.piece_i, begin)) {
                corrupt = None;
                block[0] ^= 0xff;
            }
            let SaveDecision::Write(a) = saver.on_data(t, task.piece_i as u64, begin as u64) else { continue };
            disk[a as usize..a as usize + block.len()].copy_from_slice(&block);
            let piece = task.piece_i as usize;
            if saver.record(t, piece, begin as u64) {
                let start = piece * t.info.piece_length as usize;
                let bytes = disk[start..start + t.get_piece_length(piece) as usize].to_vec();
                match saver.on_hash(t, piece, piece_matches(t, piece, &bytes)) {
                    SaverEvent::PieceDone(false) => out.verified += 1,
                    SaverEvent::PieceDone(true) => {
                        out.verified += 1;
                        out.disk = disk;
                        return out;
                    }
                    SaverEvent::InvalidHash(p) => {
                        out.invalid.push(p);
                        sched.handle_event(DownloadEvents::InvalidHash(p as u16, piece_chunks(t, piece)));
                    }
                }
            }
        }
        if failed {
            out.requeued_batches += 1;
            sched.handle_event(DownloadEvents::ChunksFail(slot));
            assert_eq!(sched.chunks_tasks[0].piece_i, task.piece_i);
            assert_eq!(sched.chunks_tasks[0].chunks, task.chunks);
        } else {
            sched.task_done(slot);
        }
        sched.handle_event(DownloadEvents::PeerAdd("127.0.0.1:6881".to_string(), false));
    }
    out.disk = disk;
    out
}

#[test]
fn single_file_download_from_one_seed() {
    let data = content(1_048_576);
    let t = torrent_for(&data, 262_144);
    assert_eq!(t.info.piece_hashes.len(), 4);
    let out = run(&t, &data, None, None);
    assert_eq!(out.verified, 4);
    assert!(out.invalid.is_empty());
    assert_eq!(out.disk.len(), 1_048_576);
    assert_eq!(Torrent::bytes_hash(&out.disk), Torrent::bytes_hash(&data));
}

#[test]
fn short_last_piece_downloads() {
    let data = content(1_000_000);
    let t = torrent_for(&data, 262_144);
    let out = run(&t, &data, None, None);
    assert_eq!(out.verified, 4);
    assert_eq!(out.shortest_request, 576);
    assert_eq!(out.longest_request, 16384);
    assert_eq!(out.disk, data);
}

#[test]
fn corrupted_block_is_fetched_again() {
    let data = content(1_048_576);
    let t = torrent_for(&data, 262_144);
    let out = run(&t, &data, Some((1, 3 * 16384)), None);
    assert_eq!(out.invalid, vec![1]);
    assert_eq!(out.verified, 4);
    assert_eq!(out.disk, data);
}

#[test]
fn choke_mid_batch_requeues_and_completes() {
    let data = content(10 * 16384);
    let t = torrent_for(&data, 10 * 16384);
    let out = run(&t, &data, None, Some(3));
    assert_eq!(out.requeued_batches, 1);
    assert_eq!(out.verified, 1);
    assert_eq!(out.disk, data);
}
