use mktorrent::bitmap::{PieceBitmap, PieceChunksBitmap};
use mktorrent::torrent::{parse_torrent, Torrent};

const CHUNK: usize = 16384;

fn torrent(length: u64, piece_length: u64) -> Torrent {
    let n = ((length + piece_length - 1) / piece_length) as usize;
    let mut b = format!(
        "d8:announce1:x4:infod6:lengthi{}e4:name1:n12:piece lengthi{}e6:pieces{}:",
        length,
        piece_length,
        n * 20
    )
    .into_bytes();
    b.extend(vec![1u8; n * 20]);
    b.extend_from_slice(b"ee");
    parse_torrent(&b).unwrap()
}

#[test]
fn piece_ready_only_when_every_chunk_added() {
    // last piece: 213,568 bytes, 14 chunks
    let t = torrent(1_000_000, 262_144);
    let mut b = PieceChunksBitmap::new(&t, 3);
    for c in 0..13 {
        b.add_chunk(c * CHUNK);
        assert!(!b.is_piece_ready());
    }
    b.add_chunk(13 * CHUNK);
    assert!(b.is_piece_ready());
    b.remove_chunk(5 * CHUNK);
    assert!(!b.is_piece_ready());
    assert!(!b.chunk_exist(5 * CHUNK));
    assert!(b.chunk_exist(6 * CHUNK + 100));
}

#[test]
fn full_piece_of_eight_chunks() {
    let t = torrent(1_048_576, 262_144);
    let mut b = PieceChunksBitmap::new(&t, 0);
    for c in (0..16).rev() {
        assert!(!b.is_piece_ready());
        b.add_chunk(c * CHUNK);
    }
    assert!(b.is_piece_ready());
}

#[test]
fn add_chunk_is_idempotent() {
    let t = torrent(1_000_000, 262_144);
    let mut b = PieceChunksBitmap::new(&t, 0);
    b.add_chunk(2 * CHUNK);
    b.add_chunk(2 * CHUNK);
    assert!(b.chunk_exist(2 * CHUNK));
    assert!(!b.chunk_exist(CHUNK));
    assert!(!b.chunk_exist(3 * CHUNK));
}

#[test]
fn from_backup_marks_first_chunks() {
    let t = torrent(1_000_000, 262_144);
    let b = PieceChunksBitmap::from_backup(&t, 1, 9);
    for c in 0..16 {
        assert_eq!(b.chunk_exist(c * CHUNK), c < 9);
    }
}

#[test]
fn single_chunk_piece() {
    let t = torrent(5, 16);
    let mut b = PieceChunksBitmap::new(&t, 0);
    assert!(!b.is_piece_ready());
    b.add_chunk(0);
    assert!(b.is_piece_ready());
}

#[test]
fn piece_bitmap_add_and_diff() {
    let mut a = PieceBitmap::new(12);
    let mut b = PieceBitmap::new(12);
    assert_eq!(a.bitmap, vec![0, 0]);
    a.add(0);
    a.add(9);
    a.add(12);
    assert_eq!(a.bitmap, vec![0b1000_0000, 0b0100_0000]);
    b.add(9);
    b.add(3);
    assert_eq!(a.diff(&b), vec![0, 3]);
    assert!(a.has(9) && !a.has(3));
}
