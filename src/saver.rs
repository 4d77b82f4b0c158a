//! The saver's decisions: which blocks to keep, when a piece is complete,
//! and what a hash check means. The caller writes and reads the files.
use vstd::prelude::*;

use crate::bitmap::{chunk_of, PieceChunksBitmap};
use std::collections::VecDeque;

use crate::tasks::{chunks_in, within_limits, ChunksTask, PieceTask, CHUNK_SIZE};
use crate::torrent::{sha1_of, Torrent};

verus! {

/// What to do with a block that arrived.
#[derive(Debug, PartialEq, Eq, Clone, Copy)]
pub enum SaveDecision {
    /// Already on disk, or outside the torrent: drop it.
    Discard,
    /// Write it at this linear offset.
    Write(u64),
}

/// What a hash check of a complete piece leads to.
#[derive(Debug, PartialEq, Eq, Clone, Copy)]
pub enum SaverEvent {
    /// The piece matched its hash. The flag is set when it was the last
    /// piece missing: `Finished` follows this `PieceDone`.
    PieceDone(bool),
    /// The piece failed its hash check and is to be fetched again.
    InvalidHash(u64),
}

/// The saver's books: a chunk bitmap per piece seen so far, and the number
/// of verified pieces.
pub struct SaverState {
    bitmaps: Vec<Option<PieceChunksBitmap>>,
    pieces_finished: usize,
}

impl SaverState {
    pub closed spec fn wf(&self, t: Torrent) -> bool {
        &&& self.bitmaps@.len() == t.piece_count()
        &&& forall|p: int|
            0 <= p < self.bitmaps@.len() ==> (#[trigger] self.bitmaps@[p] matches Some(b) ==> b.wf() && b.chunks()
                == chunks_in(t.piece_len(p)))
    }

    /// Pieces verified so far.
    pub closed spec fn done_count(&self) -> int {
        self.pieces_finished as int
    }

    pub fn pieces_finished(&self) -> (r: usize)
        ensures
            r == self.done_count(),
    {
        self.pieces_finished
    }

    /// Chunk `c` of piece `p` is recorded.
    pub closed spec fn recorded(&self, p: int, c: int) -> bool {
        &&& 0 <= p < self.bitmaps@.len()
        &&& self.bitmaps@[p] matches Some(b) && 0 <= c < b.chunks() && b@[c]
    }

    /// Every chunk of piece `p` is recorded.
    pub closed spec fn complete(&self, t: Torrent, p: int) -> bool {
        forall|c: int| 0 <= c < chunks_in(t.piece_len(p)) ==> #[trigger] self.recorded(p, c)
    }

    /// Books with nothing recorded, `pieces_done` pieces already verified.
    pub fn new(torrent: &Torrent, pieces_done: usize) -> (r: Self)
        requires
            torrent.wf(),
        ensures
            r.wf(*torrent),
            r.done_count() == pieces_done,
            forall|p: int, c: int| !r.recorded(p, c),
    {
        let mut bitmaps: Vec<Option<PieceChunksBitmap>> = Vec::new();
        let n = torrent.info.piece_hashes.len();
        let mut i: usize = 0;
        while i < n
            invariant
                i <= n,
                bitmaps@.len() == i,
                forall|q: int| 0 <= q < i ==> #[trigger] bitmaps@[q] is None,
            decreases n - i,
        {
            bitmaps.push(None);
            i += 1;
        }
        SaverState { bitmaps, pieces_finished: pieces_done }
    }

    /// Decides whether a block of piece `piece_i` at `begin` is written.
    pub fn on_data(&self, torrent: &Torrent, piece_i: u64, begin: u64) -> (r: SaveDecision)
        requires
            torrent.wf(),
            within_limits(*torrent),
            self.wf(*torrent),
        ensures
            match r {
                SaveDecision::Write(a) => piece_i < torrent.piece_count() && begin < torrent.piece_len(
                    piece_i as int,
                ) && a == piece_i * torrent.info.piece_length + begin && !self.recorded(
                    piece_i as int,
                    begin as int / CHUNK_SIZE as int,
                ),
                SaveDecision::Discard => !(piece_i < torrent.piece_count() && begin < torrent.piece_len(
                    piece_i as int,
                )) || self.recorded(piece_i as int, begin as int / CHUNK_SIZE as int),
            },
    {
        if piece_i >= torrent.info.piece_hashes.len() as u64 {
            return SaveDecision::Discard;
        }
        let plen = torrent.get_piece_length(piece_i as usize);
        if begin >= plen {
            return SaveDecision::Discard;
        }
        proof {
            assert(chunk_of(begin as usize) < chunks_in(plen as int));
        }
        match &self.bitmaps[piece_i as usize] {
            Some(b) => {
                if b.chunk_exist(begin as usize) {
                    return SaveDecision::Discard;
                }
            },
            None => {},
        }
        proof {
            let n = torrent.piece_count() as int;
            let p = torrent.info.piece_length as int;
            let i = piece_i as int;
            if i < n - 1 {
                assert(i * p + p <= (n - 1) * p) by (nonlinear_arith)
                    requires i + 1 <= n - 1, p >= 1;
            }
            assert(i * p + begin < torrent.info.length);
        }
        SaveDecision::Write(piece_i * torrent.info.piece_length + begin)
    }

    /// Records the block of piece `piece_i` at `begin` as written; returns
    /// whether the piece is now complete.
    pub fn record(&mut self, torrent: &Torrent, piece_i: usize, begin: u64) -> (r: bool)
        requires
            torrent.wf(),
            within_limits(*torrent),
            old(self).wf(*torrent),
            piece_i < torrent.piece_count(),
            begin < torrent.piece_len(piece_i as int),
        ensures
            final(self).wf(*torrent),
            final(self).done_count() == old(self).done_count(),
            final(self).recorded(piece_i as int, begin as int / CHUNK_SIZE as int),
            forall|p: int, c: int|
                !(p == piece_i && c == begin as int / CHUNK_SIZE as int) ==> (#[trigger] final(self).recorded(p, c)
                    == old(self).recorded(p, c)),
            r == final(self).complete(*torrent, piece_i as int),
    {
        let mut b = match self.bitmaps[piece_i] {
            Some(_) => {
                let taken = self.bitmaps.remove(piece_i);
                self.bitmaps.insert(piece_i, None);
                match taken {
                    Some(b) => b,
                    None => PieceChunksBitmap::new(torrent, piece_i),
                }
            },
            None => PieceChunksBitmap::new(torrent, piece_i),
        };
        assert(torrent.info.piece_length < 65536 * 16384);
        proof {
            let n = torrent.piece_count() as int;
            let p = torrent.info.piece_length as int;
            assert(n * p == (n - 1) * p + p) by (nonlinear_arith);
            assert(torrent.piece_len(piece_i as int) <= p);
            b.lemma_view_len();
        }
        assert(begin < 0x1_0000_0000);
        let offset = begin as usize;
        assert(offset == begin);
        assert(chunk_of(offset) < b.chunks());
        let ghost before = self.bitmaps@;
        b.add_chunk(offset);
        let ready = b.is_piece_ready();
        self.bitmaps.set(piece_i, Some(b));
        assert(self.bitmaps@[piece_i as int] == Some(b));
        assert(forall|q: int| 0 <= q < self.bitmaps@.len() && q != piece_i ==> self.bitmaps@[q] == before[q]);
        assert(ready == self.complete(*torrent, piece_i as int)) by {
            if ready {
                assert forall|c: int| 0 <= c < chunks_in(torrent.piece_len(piece_i as int)) implies #[trigger] self.recorded(piece_i as int, c) by {
                    assert(b@[c]);
                }
            } else {
                let c = choose|c: int| 0 <= c < b.chunks() && !b@[c];
                assert(!self.recorded(piece_i as int, c));
            }
        }
        ready
    }

    /// The outcome of hashing complete piece `piece_i`: counted and reported
    /// as done when it matched, with whether every piece is now done; else its bitmap is cleared so it can be fetched again.
    pub fn on_hash(&mut self, torrent: &Torrent, piece_i: usize, matched: bool) -> (r: SaverEvent)
        requires
            torrent.wf(),
            within_limits(*torrent),
            old(self).wf(*torrent),
            piece_i < torrent.piece_count(),
            old(self).done_count() < usize::MAX,
        ensures
            final(self).wf(*torrent),
            matched ==> final(self).done_count() == old(self).done_count() + 1,
            matched ==> r == SaverEvent::PieceDone(final(self).done_count() == torrent.piece_count()),
            !matched ==> r == SaverEvent::InvalidHash(piece_i as u64) && final(self).done_count() == old(self).done_count(),
            !matched ==> forall|c: int| !#[trigger] final(self).recorded(piece_i as int, c),
            forall|p: int, c: int| p != piece_i ==> #[trigger] final(self).recorded(p, c) == old(self).recorded(p, c),
    {
        if matched {
            self.pieces_finished = self.pieces_finished + 1;
            SaverEvent::PieceDone(self.pieces_finished == torrent.info.piece_hashes.len())
        } else {
            let b = PieceChunksBitmap::new(torrent, piece_i);
            self.bitmaps.set(piece_i, Some(b));
            SaverEvent::InvalidHash(piece_i as u64)
        }
    }
}

/// A stored piece task that names a piece of the torrent and fits in it.
pub open spec fn task_fits(t: Torrent, pt: PieceTask) -> bool {
    (pt.piece_i as int) < t.piece_count() && pt.chunks_done <= chunks_in(t.piece_len(pt.piece_i as int))
}

/// The progress of the last fitting task for piece `p` among `pts`.
pub open spec fn last_done(t: Torrent, pts: Seq<PieceTask>, p: int) -> Option<int>
    decreases pts.len(),
{
    if pts.len() == 0 {
        None
    } else if task_fits(t, pts.last()) && pts.last().piece_i == p {
        Some(pts.last().chunks_done as int)
    } else {
        last_done(t, pts.drop_last(), p)
    }
}

/// Some stored batch of piece `p` covers chunk `c`.
pub open spec fn in_batch(cts: Seq<ChunksTask>, p: int, c: int) -> bool {
    exists|k: int|
        0 <= k < cts.len() && (#[trigger] cts[k]).piece_i == p && cts[k].chunks.start <= c < cts[k].chunks.end
}

/// What a stored record says is on disk: the chunks before a piece task's
/// progress, less those of batches that were still out.
pub open spec fn restored(t: Torrent, pts: Seq<PieceTask>, cts: Seq<ChunksTask>, p: int, c: int) -> bool {
    &&& last_done(t, pts, p) matches Some(d) && c < d
    &&& !in_batch(cts, p, c)
}

proof fn lemma_in_batch_push(cts: Seq<ChunksTask>, k: int)
    requires
        0 <= k < cts.len(),
    ensures
        forall|p: int, c: int|
            #[trigger] in_batch(cts.subrange(0, k + 1), p, c) == (in_batch(cts.subrange(0, k), p, c) || (p == cts[k].piece_i
                && cts[k].chunks.start <= c < cts[k].chunks.end)),
{
    let pre = cts.subrange(0, k);
    let post = cts.subrange(0, k + 1);
    assert forall|p: int, c: int| #[trigger] in_batch(post, p, c) == (in_batch(pre, p, c) || (p == cts[k].piece_i
        && cts[k].chunks.start <= c < cts[k].chunks.end)) by {
        if in_batch(pre, p, c) {
            let q = choose|q: int| 0 <= q < pre.len() && (#[trigger] pre[q]).piece_i == p && pre[q].chunks.start <= c < pre[q].chunks.end;
            assert(post[q] == pre[q]);
        }
        if in_batch(post, p, c) {
            let q = choose|q: int| 0 <= q < post.len() && (#[trigger] post[q]).piece_i == p && post[q].chunks.start <= c < post[q].chunks.end;
            if q < k {
                assert(pre[q] == post[q]);
            }
        }
        if p == cts[k].piece_i && cts[k].chunks.start <= c < cts[k].chunks.end {
            assert(post[k] == cts[k]);
        }
    }
}

impl SaverState {
    /// Rebuilds the books from a stored record: each piece task marks the
    /// chunks before its progress, and the chunks of stored batches are
    /// cleared again.
    pub fn restore(&mut self, torrent: &Torrent, pieces_tasks: &VecDeque<PieceTask>, chunks_tasks: &VecDeque<ChunksTask>)
        requires
            torrent.wf(),
            within_limits(*torrent),
            old(self).wf(*torrent),
            forall|p: int, c: int| !old(self).recorded(p, c),
        ensures
            final(self).wf(*torrent),
            final(self).done_count() == old(self).done_count(),
            forall|p: int, c: int|
                0 <= p < torrent.piece_count() && 0 <= c < chunks_in(torrent.piece_len(p)) ==> (#[trigger] final(self).recorded(p, c)
                    == restored(*torrent, pieces_tasks@, chunks_tasks@, p, c)),
    {
        let n = torrent.info.piece_hashes.len();
        let mut i: usize = 0;
        while i < pieces_tasks.len()
            invariant
                torrent.wf(),
                within_limits(*torrent),
                n == torrent.piece_count(),
                i <= pieces_tasks@.len(),
                self.wf(*torrent),
                self.done_count() == old(self).done_count(),
                forall|p: int, c: int|
                    0 <= p < n && 0 <= c < chunks_in(torrent.piece_len(p)) ==> (#[trigger] self.recorded(p, c) == (
                    last_done(*torrent, pieces_tasks@.subrange(0, i as int), p) matches Some(d) && c < d)),
            decreases pieces_tasks@.len() - i,
        {
            let t = pieces_tasks[i];
            let ghost st = *self;
            let ghost pre = pieces_tasks@.subrange(0, i as int);
            let ghost post = pieces_tasks@.subrange(0, i + 1);
            assert(post.drop_last() =~= pre);
            assert(post.last() == t);
            assert forall|p: int| #[trigger] last_done(*torrent, post, p) == if task_fits(*torrent, t) && t.piece_i == p {
                Some(t.chunks_done as int)
            } else {
                last_done(*torrent, pre, p)
            } by {}
            if (t.piece_i as usize) < n {
                let total = crate::tasks::piece_chunks(torrent, t.piece_i as usize);
                if t.chunks_done <= total {
                    let b = PieceChunksBitmap::from_backup(torrent, t.piece_i as usize, t.chunks_done as usize);
                    let ghost before = self.bitmaps@;
                    self.bitmaps.set(t.piece_i as usize, Some(b));
                    proof {
                        b.lemma_view_len();
                        assert(self.bitmaps@[t.piece_i as int] == Some(b));
                        assert(task_fits(*torrent, t));
                        assert forall|p: int, c: int|
                            0 <= p < n && 0 <= c < chunks_in(torrent.piece_len(p)) implies (#[trigger] self.recorded(p, c) == (
                            last_done(*torrent, post, p) matches Some(d) && c < d)) by {
                            if p != t.piece_i {
                                assert(self.bitmaps@[p] == before[p]);
                                assert(st.recorded(p, c) == self.recorded(p, c));
                                assert(last_done(*torrent, post, p) == last_done(*torrent, pre, p));
                            } else {
                                assert(last_done(*torrent, post, p) == Some(t.chunks_done as int));
                                assert(self.bitmaps@[p] == Some(b));
                                assert(b.chunks() == chunks_in(torrent.piece_len(p)));
                                assert(b@[c] == (c < t.chunks_done));
                            }
                        }
                    }
                }
            }
            i += 1;
        }
        assert(pieces_tasks@.subrange(0, pieces_tasks@.len() as int) =~= pieces_tasks@);
        let mut k: usize = 0;
        while k < chunks_tasks.len()
            invariant
                torrent.wf(),
                within_limits(*torrent),
                n == torrent.piece_count(),
                k <= chunks_tasks@.len(),
                self.wf(*torrent),
                self.done_count() == old(self).done_count(),
                forall|p: int, c: int|
                    0 <= p < n && 0 <= c < chunks_in(torrent.piece_len(p)) ==> (#[trigger] self.recorded(p, c)
                        == restored(*torrent, pieces_tasks@, chunks_tasks@.subrange(0, k as int), p, c)),
            decreases chunks_tasks@.len() - k,
        {
            let ct = &chunks_tasks[k];
            let piece = ct.piece_i as usize;
            let ghost pre = chunks_tasks@.subrange(0, k as int);
            let ghost post = chunks_tasks@.subrange(0, k + 1);
            assert(post[k as int] == chunks_tasks@[k as int]);
            if piece < n {
                let total = crate::tasks::piece_chunks(torrent, piece);
                let mut c = ct.chunks.start;
                while c < ct.chunks.end && c < total
                    invariant
                        torrent.wf(),
                        within_limits(*torrent),
                        n == torrent.piece_count(),
                        piece < n,
                        total == chunks_in(torrent.piece_len(piece as int)),
                        total <= 65536,
                        ct.chunks.start <= c,
                        c <= ct.chunks.end || c == ct.chunks.start,
                        *ct == chunks_tasks@[k as int],
                        k < chunks_tasks@.len(),
                        self.wf(*torrent),
                        self.done_count() == old(self).done_count(),
                        forall|p: int, x: int|
                            0 <= p < n && 0 <= x < chunks_in(torrent.piece_len(p)) ==> (#[trigger] self.recorded(p, x)
                                == (restored(*torrent, pieces_tasks@, pre, p, x) && !(p == piece && ct.chunks.start <= x < c))),
                    decreases ct.chunks.end - c,
                {
                    let ghost s0 = self.bitmaps@;
                    let ghost st = *self;
                    match &self.bitmaps[piece] {
                        Some(_) => {
                            let taken = self.bitmaps.remove(piece);
                            assert(taken == s0[piece as int]);
                            let ghost mid = self.bitmaps@;
                            self.bitmaps.insert(piece, None);
                            match taken {
                                Some(mut b) => {
                                    proof {
                                        assert(16384 * (c as int) <= 16384 * 65536) by (nonlinear_arith)
                                            requires c <= 65536;
                                        assert(chunk_of((CHUNK_SIZE as usize * c as usize) as usize) == c) by (nonlinear_arith)
                                            requires c < 65536;
                                        b.lemma_view_len();
                                    }
                                    let ghost b0 = b@;
                                    b.remove_chunk(CHUNK_SIZE as usize * c as usize);
                                    let ghost before = self.bitmaps@;
                                    self.bitmaps.set(piece, Some(b));
                                    assert(self.bitmaps@ =~= s0.update(piece as int, Some(b)));
                                    proof {
                                        b.lemma_view_len();
                                        assert(b@ == b0.update(c as int, false));
                                        assert forall|p: int, x: int|
                                            0 <= p < n && 0 <= x < chunks_in(torrent.piece_len(p)) implies (#[trigger] self.recorded(p, x)
                                                == (restored(*torrent, pieces_tasks@, pre, p, x) && !(p == piece && ct.chunks.start <= x < c + 1))) by {
                                            assert(st.recorded(p, x) == (restored(*torrent, pieces_tasks@, pre, p, x) && !(p
                                                == piece && ct.chunks.start <= x < c)));
                                            if p != piece {
                                                assert(self.bitmaps@[p] == s0[p]);
                                                assert(st.recorded(p, x) == self.recorded(p, x));
                                            } else {
                                                assert(self.bitmaps@[p] == Some(b));
                                                assert(s0[p] == Some(taken->Some_0));
                                                if x != c {
                                                    assert(b@[x] == b0[x]);
                                                } else {
                                                    assert(!b@[x]);
                                                }
                                            }
                                        }
                                    }
                                },
                                None => {},
                            }
                        },
                        None => {},
                    }
                    c += 1;
                }
                proof {
                    lemma_in_batch_push(chunks_tasks@, k as int);
                    assert forall|p: int, x: int|
                        0 <= p < n && 0 <= x < chunks_in(torrent.piece_len(p)) implies (#[trigger] self.recorded(p, x)
                            == restored(*torrent, pieces_tasks@, post, p, x)) by {
                        assert(restored(*torrent, pieces_tasks@, post, p, x) == (restored(*torrent, pieces_tasks@, pre, p, x)
                            && !(p == piece && ct.chunks.start <= x < ct.chunks.end)));
                        if p == piece && ct.chunks.start <= x < ct.chunks.end && x >= c {
                            assert(x >= total);
                        }
                    }
                }
            } else {
                proof {
                    lemma_in_batch_push(chunks_tasks@, k as int);
                    assert forall|p: int, x: int|
                        0 <= p < n && 0 <= x < chunks_in(torrent.piece_len(p)) implies (#[trigger] self.recorded(p, x)
                            == restored(*torrent, pieces_tasks@, post, p, x)) by {}
                }
            }
            k += 1;
        }
        assert(chunks_tasks@.subrange(0, chunks_tasks@.len() as int) =~= chunks_tasks@);
    }
}

/// Whether the bytes of piece `piece_i` hash to the digest the torrent lists.
pub fn piece_matches(torrent: &Torrent, piece_i: usize, data: &Vec<u8>) -> (r: bool)
    requires
        piece_i < torrent.piece_count(),
    ensures
        r == (sha1_of(data@) == torrent.info.piece_hashes@[piece_i as int]@),
{
    let h = Torrent::bytes_hash(data);
    digest_equal(&h, &torrent.info.piece_hashes[piece_i])
}

/// Compares a computed digest with an expected one.
pub fn digest_equal(a: &Vec<u8>, b: &Vec<u8>) -> (r: bool)
    ensures
        r == (a@ == b@),
{
    crate::bencode::keys_equal(a.as_slice(), b.as_slice())
}

} // verus!
