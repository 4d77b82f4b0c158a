//! Bit sets over chunks of a piece and over pieces of a torrent, bit 0 the
//! most significant bit of byte 0.
use vstd::prelude::*;

use crate::tasks::{chunks_in, within_limits, piece_chunks, CHUNK_SIZE};
use crate::torrent::Torrent;

verus! {

/// The bit of position `k` (0..8) within a byte, most significant first.
pub open spec fn bit_mask(k: int) -> u8 {
    (128u8 >> (k as u8)) as u8
}

/// Whether bit `c` of a byte sequence is set.
pub open spec fn has_bit(bm: Seq<u8>, c: int) -> bool {
    bm[c / 8] & bit_mask(c % 8) != 0
}

proof fn lemma_set_bit(x: u8, k: u8, j: u8)
    requires
        k < 8,
        j < 8,
    ensures
        ((x | (128u8 >> k)) & (128u8 >> j)) != 0 <==> (j == k || (x & (128u8 >> j)) != 0),
{
    assert(((x | (128u8 >> k)) & (128u8 >> j)) != 0 <==> (j == k || (x & (128u8 >> j)) != 0))
        by (bit_vector)
        requires
            k < 8,
            j < 8,
    ;
}

/// Setting bit `k` of a byte leaves every other bit as it was.
pub proof fn lemma_set_bit_pub(x: u8, k: u8, j: u8)
    requires
        k < 8,
        j < 8,
    ensures
        ((x | (128u8 >> k)) & (128u8 >> j)) != 0 <==> (j == k || (x & (128u8 >> j)) != 0),
{
    lemma_set_bit(x, k, j);
}

proof fn lemma_clear_bit(x: u8, k: u8, j: u8)
    requires
        k < 8,
        j < 8,
    ensures
        ((x & !(128u8 >> k)) & (128u8 >> j)) != 0 <==> (j != k && (x & (128u8 >> j)) != 0),
{
    assert(((x & !(128u8 >> k)) & (128u8 >> j)) != 0 <==> (j != k && (x & (128u8 >> j)) != 0))
        by (bit_vector)
        requires
            k < 8,
            j < 8,
    ;
}

/// Bits at positions `r..8` stay clear when a bit below `r` is set or any
/// bit is cleared.
proof fn lemma_tail_clear(x: u8, k: u8, r: u8)
    requires
        k < r,
        r <= 8,
        tail_clear(x, r as int),
    ensures
        tail_clear(x | (128u8 >> k), r as int),
        tail_clear(x & !(128u8 >> k), r as int),
{
    if r == 8 {
        return;
    }
    assert((x | (128u8 >> k)) & (255u8 >> r) == 0) by (bit_vector)
        requires
            k < r,
            r < 8,
            x & (255u8 >> r) == 0,
    ;
    assert((x & !(128u8 >> k)) & (255u8 >> r) == 0) by (bit_vector)
        requires
            r < 8,
            x & (255u8 >> r) == 0,
    ;
}

/// With the bits from `r` on clear, a byte equals the mask of its first `r`
/// bits exactly when each of those bits is set.
proof fn lemma_mask_match(x: u8, r: u8)
    requires
        1 <= r <= 8,
        tail_clear(x, r as int),
    ensures
        (x == tail_mask(r as int)) <==> forall|j: u8| j < r ==> #[trigger] (x & (128u8 >> j)) != 0,
{
    assert(128u8 >> 0u8 == 128u8 && 128u8 >> 1u8 == 64u8 && 128u8 >> 2u8 == 32u8 && 128u8 >> 3u8 == 16u8
        && 128u8 >> 4u8 == 8u8 && 128u8 >> 5u8 == 4u8 && 128u8 >> 6u8 == 2u8 && 128u8 >> 7u8 == 1u8)
        by (bit_vector);
    if r == 8 {
        assert((x == 255u8) <==> (x & 128 != 0 && x & 64 != 0 && x & 32 != 0 && x & 16 != 0 && x & 8 != 0
            && x & 4 != 0 && x & 2 != 0 && x & 1 != 0)) by (bit_vector);
    } else {
        assert((x == !(255u8 >> r)) <==> ((0 < r ==> x & 128 != 0) && (1 < r ==> x & 64 != 0) && (2 < r
            ==> x & 32 != 0) && (3 < r ==> x & 16 != 0) && (4 < r ==> x & 8 != 0) && (5 < r ==> x & 4
            != 0) && (6 < r ==> x & 2 != 0))) by (bit_vector)
            requires
                1 <= r < 8,
                x & (255u8 >> r) == 0,
        ;
    }
    let all = (0 < r ==> x & 128 != 0) && (1 < r ==> x & 64 != 0) && (2 < r ==> x & 32 != 0) && (3 < r ==> x
        & 16 != 0) && (4 < r ==> x & 8 != 0) && (5 < r ==> x & 4 != 0) && (6 < r ==> x & 2 != 0) && (7 < r
        ==> x & 1 != 0);
    if all {
        assert forall|j: u8| j < r implies #[trigger] (x & (128u8 >> j)) != 0 by {
            if j == 0 {
            } else if j == 1 {
            } else if j == 2 {
            } else if j == 3 {
            } else if j == 4 {
            } else if j == 5 {
            } else if j == 6 {
            } else {
                assert(j == 7);
            }
        }
    }
    if forall|j: u8| j < r ==> #[trigger] (x & (128u8 >> j)) != 0 {
        assert(0 < r ==> x & (128u8 >> 0u8) != 0);
        assert(1 < r ==> x & (128u8 >> 1u8) != 0);
        assert(2 < r ==> x & (128u8 >> 2u8) != 0);
        assert(3 < r ==> x & (128u8 >> 3u8) != 0);
        assert(4 < r ==> x & (128u8 >> 4u8) != 0);
        assert(5 < r ==> x & (128u8 >> 5u8) != 0);
        assert(6 < r ==> x & (128u8 >> 6u8) != 0);
        assert(7 < r ==> x & (128u8 >> 7u8) != 0);
    }
}

/// The first `t` bits of a byte (1 <= t <= 8).
pub open spec fn tail_mask(t: int) -> u8 {
    if t >= 8 {
        255u8
    } else {
        !(255u8 >> (t as u8))
    }
}

/// The bits from position `t` on are clear.
pub open spec fn tail_clear(x: u8, t: int) -> bool {
    t >= 8 || x & (255u8 >> (t as u8)) == 0
}

/// The chunk that starts at byte `begin` of its piece.
pub open spec fn chunk_of(begin: usize) -> int {
    begin as int / CHUNK_SIZE as int
}

/// Which chunks of one piece are on disk.
pub struct PieceChunksBitmap {
    bitmap: Vec<u8>,
    last_chunk_mask: u8,
    chunks_n: usize,
}

impl PieceChunksBitmap {
    /// Chunk `c` is recorded, for each chunk of the piece.
    pub closed spec fn view(&self) -> Seq<bool> {
        Seq::new(self.chunks_n as nat, |c: int| has_bit(self.bitmap@, c))
    }

    pub closed spec fn chunks(&self) -> nat {
        self.chunks_n as nat
    }

    /// The bytes of the bitmap, bit 0 the top bit of byte 0.
    pub closed spec fn cells(&self) -> Seq<u8> {
        self.bitmap@
    }

    /// The mask the last byte must equal when the piece is complete.
    pub closed spec fn last_mask(&self) -> u8 {
        self.last_chunk_mask
    }

    pub proof fn lemma_view_len(&self)
        ensures
            self@.len() == self.chunks(),
    {
    }

    /// Bits in use in the last byte.
    spec fn tail_bits(&self) -> int {
        self.chunks_n - 8 * (self.bitmap@.len() - 1)
    }

    pub closed spec fn wf(&self) -> bool {
        &&& self.chunks_n >= 1
        &&& self.bitmap@.len() == (self.chunks_n + 7) / 8
        &&& 1 <= self.tail_bits() <= 8
        &&& self.last_chunk_mask == tail_mask(self.tail_bits())
        &&& tail_clear(self.bitmap@.last(), self.tail_bits())
    }

    /// The mask of the bits in use in the last byte: the first
    /// `chunks % 8` bits, or all eight when that is 0.
    pub closed spec fn last_mask_ok(&self) -> bool {
        self.last_chunk_mask == if self.chunks_n % 8 == 0 {
            255u8
        } else {
            tail_mask(self.chunks_n as int % 8)
        }
    }

    /// An empty bitmap for piece `piece_i`.
    pub fn new(torrent: &Torrent, piece_i: usize) -> (r: Self)
        requires
            torrent.wf(),
            within_limits(*torrent),
            piece_i < torrent.piece_count(),
        ensures
            r.wf(),
            r.last_mask_ok(),
            r.chunks() == chunks_in(torrent.piece_len(piece_i as int)),
            1 <= r.chunks() <= 65536,
            r@ == Seq::new(r.chunks(), |c: int| false),
            r.cells() == Seq::new(((r.chunks() + 7) / 8) as nat, |i: int| 0u8),
            r.last_mask() == if r.chunks() % 8 == 0 {
                255u8
            } else {
                !(255u8 >> ((r.chunks() % 8) as u8))
            },
    {
        let n = piece_chunks(torrent, piece_i) as usize;
        Self::with_chunks(n)
    }

    fn with_chunks(n: usize) -> (r: Self)
        requires
            1 <= n <= 65536,
        ensures
            r.wf(),
            r.last_mask_ok(),
            r.chunks() == n,
            r@ == Seq::new(r.chunks(), |c: int| false),
            r.cells() == Seq::new(((n + 7) / 8) as nat, |i: int| 0u8),
    {
        let cells = (n + 7) / 8;
        let mut bitmap: Vec<u8> = Vec::new();
        let mut i: usize = 0;
        while i < cells
            invariant
                i <= cells,
                bitmap@.len() == i,
                forall|q: int| 0 <= q < i ==> #[trigger] bitmap@[q] == 0,
            decreases cells - i,
        {
            bitmap.push(0);
            i += 1;
        }
        let tail = (n - 8 * (cells - 1)) as u8;
        let last_chunk_mask = if tail >= 8 { 255u8 } else { !(255u8 >> tail) };
        let r = PieceChunksBitmap { bitmap, last_chunk_mask, chunks_n: n };
        assert(r.bitmap@ =~= Seq::new(((n + 7) / 8) as nat, |i: int| 0u8));
        proof {
            if tail < 8 {
                assert(0u8 & (255u8 >> tail) == 0) by (bit_vector);
            }
            if n % 8 == 0 {
                assert(tail == 8);
            } else {
                assert(tail as int == n % 8);
            }
            assert forall|c: int| 0 <= c < n implies !has_bit(r.bitmap@, c) by {
                let m = bit_mask(c % 8);
                assert(0u8 & m == 0) by (bit_vector);
            }
            assert(r@ =~= Seq::new(r.chunks(), |c: int| false));
        }
        r
    }

    /// Marks the chunk that starts at byte `begin` of the piece.
    pub fn add_chunk(&mut self, begin: usize)
        requires
            old(self).wf(),
            chunk_of(begin) < old(self).chunks(),
        ensures
            final(self).wf(),
            final(self).chunks() == old(self).chunks(),
            final(self)@ == old(self)@.update(chunk_of(begin), true),
    {
        let c = begin / CHUNK_SIZE as usize;
        let cell = c / 8;
        let k = (c % 8) as u8;
        let old_cell = self.bitmap[cell];
        let ghost old_bm = self.bitmap@;
        let ghost old_view = self@;
        self.bitmap.set(cell, old_cell | (128u8 >> k));
        proof {
            let tb = self.tail_bits() as u8;
            if cell == self.bitmap@.len() - 1 {
                assert(k < tb);
                lemma_tail_clear(old_cell, k, tb);
            }
            assert forall|q: int| 0 <= q < self.chunks_n implies #[trigger] has_bit(self.bitmap@, q) == old_view.update(c as int, true)[q] by {
                let j = (q % 8) as u8;
                lemma_set_bit(old_bm[q / 8], k, j);
            }
            assert(self@ =~= old_view.update(c as int, true));
        }
    }

    /// Clears the chunk that starts at byte `begin` of the piece.
    pub fn remove_chunk(&mut self, begin: usize)
        requires
            old(self).wf(),
            chunk_of(begin) < old(self).chunks(),
        ensures
            final(self).wf(),
            final(self).chunks() == old(self).chunks(),
            final(self)@ == old(self)@.update(chunk_of(begin), false),
    {
        let c = begin / CHUNK_SIZE as usize;
        let cell = c / 8;
        let k = (c % 8) as u8;
        let old_cell = self.bitmap[cell];
        let ghost old_bm = self.bitmap@;
        let ghost old_view = self@;
        self.bitmap.set(cell, old_cell & !(128u8 >> k));
        proof {
            let tb = self.tail_bits() as u8;
            if cell == self.bitmap@.len() - 1 {
                assert(k < tb);
                lemma_tail_clear(old_cell, k, tb);
            }
            assert forall|q: int| 0 <= q < self.chunks_n implies #[trigger] has_bit(self.bitmap@, q) == old_view.update(c as int, false)[q] by {
                let j = (q % 8) as u8;
                lemma_clear_bit(old_bm[q / 8], k, j);
            }
            assert(self@ =~= old_view.update(c as int, false));
        }
    }

    /// Whether the chunk that starts at byte `begin` is recorded.
    pub fn chunk_exist(&self, begin: usize) -> (r: bool)
        requires
            self.wf(),
            chunk_of(begin) < self.chunks(),
        ensures
            r == self@[chunk_of(begin)],
    {
        let c = begin / CHUNK_SIZE as usize;
        let k = (c % 8) as u8;
        self.bitmap[c / 8] & (128u8 >> k) != 0
    }

    /// Whether every chunk of the piece is recorded. The last byte is held
    /// against the mask of the chunks it carries.
    pub fn is_piece_ready(&self) -> (r: bool)
        requires
            self.wf(),
        ensures
            r == forall|c: int| 0 <= c < self.chunks() ==> #[trigger] self@[c],
    {
        let len = self.bitmap.len();
        let mut i: usize = 0;
        while i < len
            invariant
                self.wf(),
                len == self.bitmap@.len(),
                i <= len,
                forall|c: int| 0 <= c < 8 * i && c < self.chunks_n ==> #[trigger] has_bit(self.bitmap@, c),
            decreases len - i,
        {
            let x = self.bitmap[i];
            let r: u8 = if i == len - 1 { (self.chunks_n - 8 * (len - 1)) as u8 } else { 8 };
            proof {
                lemma_mask_match(x, r);
            }
            let ok = if i == len - 1 { self.last_chunk_mask == x } else { x == 255 };
            if !ok {
                proof {
                    let j = choose|j: u8| j < r && !((x & (128u8 >> j)) != 0);
                    let c = 8 * i + j;
                    assert(c / 8 == i && c % 8 == j);
                    assert(!has_bit(self.bitmap@, c));
                    assert(!self@[c]);
                }
                return false;
            }
            proof {
                assert forall|c: int| 0 <= c < 8 * (i + 1) && c < self.chunks_n implies #[trigger] has_bit(self.bitmap@, c) by {
                    if c >= 8 * i {
                        let j = (c - 8 * i) as u8;
                        assert(c / 8 == i && c % 8 == j);
                        assert(j < r);
                        assert((x & (128u8 >> j)) != 0);
                    }
                }
            }
            i += 1;
        }
        assert forall|c: int| 0 <= c < self.chunks() implies #[trigger] self@[c] by {
            assert(has_bit(self.bitmap@, c));
        }
        true
    }

    /// A bitmap with the first `done` chunks recorded.
    pub fn from_backup(torrent: &Torrent, piece_i: usize, done: usize) -> (r: Self)
        requires
            torrent.wf(),
            within_limits(*torrent),
            piece_i < torrent.piece_count(),
            done <= chunks_in(torrent.piece_len(piece_i as int)),
        ensures
            r.wf(),
            r.chunks() == chunks_in(torrent.piece_len(piece_i as int)),
            r@ == Seq::new(r.chunks(), |c: int| c < done),
    {
        let mut bitmap = PieceChunksBitmap::new(torrent, piece_i);
        let mut i: usize = 0;
        while i < done
            invariant
                i <= done <= bitmap.chunks(),
                bitmap.chunks() == chunks_in(torrent.piece_len(piece_i as int)),
                bitmap.chunks() <= 65536,
                bitmap.wf(),
                bitmap@ == Seq::new(bitmap.chunks(), |c: int| c < i),
            decreases done - i,
        {
            assert(16384 * i <= 16384 * 65536) by (nonlinear_arith)
                requires i <= 65536;
            assert(chunk_of((CHUNK_SIZE as usize * i) as usize) == i) by (nonlinear_arith)
                requires i < 65536;
            bitmap.add_chunk(CHUNK_SIZE as usize * i);
            i += 1;
            assert(bitmap@ =~= Seq::new(bitmap.chunks(), |c: int| c < i));
        }
        bitmap
    }
}

/// Which pieces we hold, as sent in a `bitfield` message.
pub struct PieceBitmap {
    pieces_n: usize,
    pub bitmap: Vec<u8>,
}

/// Ascending positions below `k` where two bit sets differ.
pub open spec fn diff_positions(a: Seq<bool>, b: Seq<bool>, k: int) -> Seq<usize>
    decreases k,
{
    if k <= 0 {
        seq![]
    } else {
        diff_positions(a, b, k - 1) + if a[k - 1] != b[k - 1] {
            seq![(k - 1) as usize]
        } else {
            seq![]
        }
    }
}

impl PieceBitmap {
    pub closed spec fn view(&self) -> Seq<bool> {
        Seq::new(self.pieces_n as nat, |i: int| has_bit(self.bitmap@, i))
    }

    pub closed spec fn wf(&self) -> bool {
        self.bitmap@.len() == (self.pieces_n + 7) / 8
    }

    /// No piece held, out of `pieces_n`.
    pub fn new(pieces_n: usize) -> (r: Self)
        requires
            pieces_n <= 65535,
        ensures
            r.wf(),
            r@ == Seq::new(pieces_n as nat, |i: int| false),
    {
        let cells = (pieces_n + 7) / 8;
        let mut bitmap: Vec<u8> = Vec::new();
        let mut i: usize = 0;
        while i < cells
            invariant
                i <= cells,
                bitmap@.len() == i,
                forall|q: int| 0 <= q < i ==> #[trigger] bitmap@[q] == 0,
            decreases cells - i,
        {
            bitmap.push(0);
            i += 1;
        }
        let r = PieceBitmap { pieces_n, bitmap };
        assert forall|c: int| 0 <= c < pieces_n implies !has_bit(r.bitmap@, c) by {
            let m = bit_mask(c % 8);
            assert(0u8 & m == 0) by (bit_vector);
        }
        assert(r@ =~= Seq::new(pieces_n as nat, |i: int| false));
        r
    }

    /// Records piece `piece_i`; an index past the end is ignored.
    pub fn add(&mut self, piece_i: usize)
        requires
            old(self).wf(),
        ensures
            final(self).wf(),
            final(self)@ == if piece_i < old(self)@.len() {
                old(self)@.update(piece_i as int, true)
            } else {
                old(self)@
            },
    {
        if piece_i >= self.pieces_n {
            return;
        }
        let cell = piece_i / 8;
        let k = (piece_i % 8) as u8;
        let old_cell = self.bitmap[cell];
        let ghost old_bm = self.bitmap@;
        let ghost old_view = self@;
        self.bitmap.set(cell, old_cell | (128u8 >> k));
        proof {
            assert forall|q: int| 0 <= q < self.pieces_n implies #[trigger] has_bit(self.bitmap@, q) == old_view.update(piece_i as int, true)[q] by {
                let j = (q % 8) as u8;
                lemma_set_bit(old_bm[q / 8], k, j);
            }
            assert(self@ =~= old_view.update(piece_i as int, true));
        }
    }

    /// Whether piece `piece_i` is recorded.
    pub fn has(&self, piece_i: usize) -> (r: bool)
        requires
            self.wf(),
            piece_i < self@.len(),
        ensures
            r == self@[piece_i as int],
    {
        self.bitmap[piece_i / 8] & (128u8 >> (piece_i % 8) as u8) != 0
    }

    /// The pieces, ascending, that one bitmap records and the other does not.
    pub fn diff(&self, b2: &PieceBitmap) -> (r: Vec<usize>)
        requires
            self.wf(),
            b2.wf(),
            self@.len() == b2@.len(),
        ensures
            r@ == diff_positions(self@, b2@, self@.len() as int),
    {
        let mut res: Vec<usize> = Vec::new();
        let mut i: usize = 0;
        while i < self.pieces_n
            invariant
                self.wf(),
                b2.wf(),
                self@.len() == b2@.len(),
                self@.len() == self.pieces_n,
                i <= self.pieces_n,
                res@ == diff_positions(self@, b2@, i as int),
            decreases self.pieces_n - i,
        {
            if self.has(i) != b2.has(i) {
                res.push(i);
            }
            i += 1;
        }
        res
    }
}

impl PieceBitmap {
    /// The pieces to announce with `have` when our bitmap lags behind the
    /// saver's: all of them once more than 40 differ, else none yet.
    pub fn pending_haves(&self, done: &PieceBitmap) -> (r: Vec<usize>)
        requires
            self.wf(),
            done.wf(),
            self@.len() == done@.len(),
        ensures
            diff_positions(self@, done@, self@.len() as int).len() > 40 ==> r@ == diff_positions(
                self@,
                done@,
                self@.len() as int,
            ),
            diff_positions(self@, done@, self@.len() as int).len() <= 40 ==> r@.len() == 0,
    {
        let d = self.diff(done);
        if d.len() > 40 {
            d
        } else {
            Vec::new()
        }
    }
}

/// Recording a chunk twice leaves the bitmap as recording it once.
pub proof fn lemma_add_chunk_idempotent(v: Seq<bool>, c: int)
    requires
        0 <= c < v.len(),
    ensures
        v.update(c, true).update(c, true) == v.update(c, true),
{
    assert(v.update(c, true).update(c, true) =~= v.update(c, true));
}

} // verus!
