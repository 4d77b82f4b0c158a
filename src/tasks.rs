//! Work queues: a piece is split into chunks, and runs of chunks are handed
//! out as one batch.
use vstd::prelude::*;

use std::collections::VecDeque;
use std::ops::Range;

use crate::torrent::Torrent;

verus! {

/// Bytes in one chunk, the unit of a request.
pub const CHUNK_SIZE: u64 = 16384;

/// The chunk queue is kept at most this long.
pub const MAX_CHUNKS_TASKS: usize = 100;

/// Chunks in one batch at most.
pub const CHUNKS_PER_TASK: u32 = 60;

/// The work left inside one piece.
#[derive(Debug, Clone, Copy, PartialEq, Eq)]
pub struct PieceTask {
    pub piece_i: u16,
    pub total_chunks: u32,
    pub chunks_done: u32,
}

/// A run of chunks of one piece, requested from one peer as one batch.
#[derive(Debug)]
pub struct ChunksTask {
    pub piece_i: u16,
    pub chunks: Range<u32>,
    pub includes_last_chunk: bool,
}

/// How many chunks cover `len` bytes.
pub open spec fn chunks_in(len: int) -> int {
    (len + CHUNK_SIZE - 1) / CHUNK_SIZE as int
}

pub open spec fn remaining(t: PieceTask) -> int {
    t.total_chunks - t.chunks_done
}

pub open spec fn task_len(c: ChunksTask) -> int {
    c.chunks.end - c.chunks.start
}

/// Chunks not yet handed out, over a piece queue.
pub open spec fn sum_remaining(q: Seq<PieceTask>) -> int
    decreases q.len(),
{
    if q.len() == 0 {
        0
    } else {
        remaining(q[0]) + sum_remaining(q.drop_first())
    }
}

/// Chunks in a chunk queue.
pub open spec fn sum_chunks(q: Seq<ChunksTask>) -> int
    decreases q.len(),
{
    if q.len() == 0 {
        0
    } else {
        task_len(q[0]) + sum_chunks(q.drop_first())
    }
}

pub open spec fn pieces_wf(q: Seq<PieceTask>) -> bool {
    forall|i: int| 0 <= i < q.len() ==> (#[trigger] q[i]).chunks_done <= q[i].total_chunks
}

pub open spec fn chunk_task_wf(c: ChunksTask) -> bool {
    c.chunks.start < c.chunks.end
}

pub proof fn lemma_sum_chunks_push(q: Seq<ChunksTask>, c: ChunksTask)
    ensures
        sum_chunks(q.push(c)) == sum_chunks(q) + task_len(c),
    decreases q.len(),
{
    if q.len() > 0 {
        lemma_sum_chunks_push(q.drop_first(), c);
        assert(q.push(c).drop_first() =~= q.drop_first().push(c));
        assert(q.push(c)[0] == q[0]);
    } else {
        assert(q.push(c).drop_first() =~= seq![]);
        assert(sum_chunks(q.push(c).drop_first()) == 0);
        assert(q.push(c)[0] == c);
    }
}

/// The task for a piece that nothing of has been handed out.
pub open spec fn fresh_task(t: Torrent, i: int) -> PieceTask {
    PieceTask {
        piece_i: i as u16,
        total_chunks: chunks_in(t.piece_len(i)) as u32,
        chunks_done: 0,
    }
}

/// Tasks for pieces `0..k` that `done` does not list, in ascending order.
pub open spec fn initial_tasks(t: Torrent, done: Seq<usize>, k: int) -> Seq<PieceTask>
    decreases k,
{
    if k <= 0 {
        seq![]
    } else {
        initial_tasks(t, done, k - 1) + if done.contains((k - 1) as usize) {
            seq![]
        } else {
            seq![fresh_task(t, k - 1)]
        }
    }
}

/// At most 65,535 pieces, and at most 65,535 whole chunks in a piece:
/// piece indices fit in 16 bits, chunk counts in 17.
pub open spec fn within_limits(t: Torrent) -> bool {
    &&& t.piece_count() <= u16::MAX
    &&& t.info.piece_length as int / CHUNK_SIZE as int <= u16::MAX
}

/// The number of chunks in piece `piece_i`.
pub fn piece_chunks(torrent: &Torrent, piece_i: usize) -> (r: u32)
    requires
        torrent.wf(),
        within_limits(*torrent),
        piece_i < torrent.piece_count(),
    ensures
        r == chunks_in(torrent.piece_len(piece_i as int)),
        1 <= r <= 65536,
{
    let len = torrent.get_piece_length(piece_i);
    let n = len / CHUNK_SIZE + if len % CHUNK_SIZE == 0 { 0 } else { 1 };
    assert(n == chunks_in(len as int));
    assert(chunks_in(len as int) <= chunks_in(torrent.info.piece_length as int));
    n as u32
}

/// One task per piece that `pieces_done` does not list, in piece order.
pub fn get_piece_tasks(torrent: &Torrent, pieces_done: &Vec<usize>) -> (r: VecDeque<PieceTask>)
    requires
        torrent.wf(),
        within_limits(*torrent),
    ensures
        r@ == initial_tasks(*torrent, pieces_done@, torrent.piece_count() as int),
{
    let n = torrent.info.piece_hashes.len();
    let mut tasks: VecDeque<PieceTask> = VecDeque::new();
    let mut i: usize = 0;
    while i < n
        invariant
            i <= n,
            n == torrent.piece_count(),
            torrent.wf(),
            within_limits(*torrent),
            tasks@ == initial_tasks(*torrent, pieces_done@, i as int),
        decreases n - i,
    {
        let mut listed = false;
        let mut j: usize = 0;
        while j < pieces_done.len()
            invariant
                j <= pieces_done.len(),
                listed == exists|q: int| 0 <= q < j && pieces_done@[q] == i,
            decreases pieces_done.len() - j,
        {
            if pieces_done[j] == i {
                listed = true;
            }
            j += 1;
        }
        assert(listed == pieces_done@.contains(i));
        if !listed {
            let total = piece_chunks(torrent, i);
            tasks.push_back(PieceTask { piece_i: i as u16, total_chunks: total, chunks_done: 0 });
            assert(tasks@ =~= initial_tasks(*torrent, pieces_done@, i as int) + seq![fresh_task(*torrent, i as int)]);
        } else {
            assert(tasks@ =~= initial_tasks(*torrent, pieces_done@, i as int) + seq![]);
        }
        i += 1;
    }
    tasks
}


/// A batch as plain values: piece, first chunk, end chunk, whether it ends
/// the piece.
pub open spec fn batch_of(c: ChunksTask) -> (u16, u32, u32, bool) {
    (c.piece_i, c.chunks.start, c.chunks.end, c.includes_last_chunk)
}

/// The progress a batch cut from `t` leaves behind.
pub open spec fn cut_end(t: PieceTask) -> u32 {
    if t.chunks_done + CHUNKS_PER_TASK > t.total_chunks {
        t.total_chunks
    } else {
        (t.chunks_done + CHUNKS_PER_TASK) as u32
    }
}

/// The piece queue without its finished head tasks.
pub open spec fn drop_done(q: Seq<PieceTask>) -> Seq<PieceTask>
    decreases q.len(),
{
    if q.len() == 0 {
        q
    } else if q[0].chunks_done >= q[0].total_chunks {
        drop_done(q.drop_first())
    } else {
        q
    }
}

/// `k` refill steps: the batches cut, in order, and the piece queue left.
/// Each step cuts the next batch off the first unfinished task.
pub open spec fn refill(q: Seq<PieceTask>, k: nat) -> (Seq<(u16, u32, u32, bool)>, Seq<PieceTask>)
    decreases k,
{
    if k == 0 {
        (seq![], q)
    } else {
        let (bs, rest) = refill(q, (k - 1) as nat);
        let open = drop_done(rest);
        if open.len() == 0 {
            (bs, seq![])
        } else {
            let t = open[0];
            let up = cut_end(t);
            (
                bs.push((t.piece_i, t.chunks_done, up, up == t.total_chunks)),
                seq![PieceTask { piece_i: t.piece_i, total_chunks: t.total_chunks, chunks_done: up }]
                    + open.drop_first(),
            )
        }
    }
}

/// Cuts the next batch off a piece task: the batch starts where the task's
/// progress stands, and the progress moves to where the batch ends, so
/// successive batches of one piece never overlap and leave no gap.
pub fn take_chunks(t: PieceTask) -> (r: (PieceTask, ChunksTask))
    requires
        t.chunks_done < t.total_chunks,
    ensures
        r.0.piece_i == t.piece_i,
        r.0.total_chunks == t.total_chunks,
        r.1.piece_i == t.piece_i,
        r.1.chunks.start == t.chunks_done,
        r.1.chunks.end == r.0.chunks_done,
        t.chunks_done < r.0.chunks_done <= t.total_chunks,
        r.0.chunks_done - t.chunks_done <= CHUNKS_PER_TASK,
        r.0.chunks_done == t.total_chunks || r.0.chunks_done - t.chunks_done == CHUNKS_PER_TASK,
        r.1.includes_last_chunk == (r.0.chunks_done == t.total_chunks),
        r.0.chunks_done == cut_end(t),
{
    let up: u32 = if t.chunks_done as u64 + CHUNKS_PER_TASK as u64 > t.total_chunks as u64 {
        t.total_chunks
    } else {
        t.chunks_done + CHUNKS_PER_TASK
    };
    (
        PieceTask { piece_i: t.piece_i, total_chunks: t.total_chunks, chunks_done: up },
        ChunksTask { piece_i: t.piece_i, chunks: t.chunks_done..up, includes_last_chunk: up == t.total_chunks },
    )
}

/// Removes the finished tasks at the head of the queue and takes out the
/// first unfinished one.
fn next_open(pieces_tasks: &mut VecDeque<PieceTask>) -> (r: Option<PieceTask>)
    requires
        pieces_wf(old(pieces_tasks)@),
    ensures
        pieces_wf(final(pieces_tasks)@),
        match r {
            None => sum_remaining(old(pieces_tasks)@) == 0 && final(pieces_tasks)@.len() == 0 && drop_done(
                old(pieces_tasks)@,
            ).len() == 0,
            Some(t) => t.chunks_done < t.total_chunks && sum_remaining(old(pieces_tasks)@) == remaining(t)
                + sum_remaining(final(pieces_tasks)@) && drop_done(old(pieces_tasks)@).len() > 0 && t == drop_done(
                old(pieces_tasks)@,
            )[0] && final(pieces_tasks)@ == drop_done(old(pieces_tasks)@).drop_first(),
        },
{
    let ghost start = pieces_tasks@;
    loop
        invariant
            start == old(pieces_tasks)@,
            pieces_wf(pieces_tasks@),
            sum_remaining(start) == sum_remaining(pieces_tasks@),
            drop_done(start) == drop_done(pieces_tasks@),
        decreases pieces_tasks@.len(),
    {
        let ghost before = pieces_tasks@;
        match pieces_tasks.pop_front() {
            None => {
                assert(before.len() == 0);
                assert(sum_remaining(before) == 0);
                return None;
            },
            Some(t) => {
                assert(before.drop_first() =~= pieces_tasks@);
                assert(pieces_wf(pieces_tasks@)) by {
                    assert forall|i: int| 0 <= i < pieces_tasks@.len() implies (#[trigger] pieces_tasks@[i]).chunks_done
                        <= pieces_tasks@[i].total_chunks by {
                        assert(pieces_tasks@[i] == before[i + 1]);
                    }
                }
                if t.chunks_done < t.total_chunks {
                    return Some(t);
                }
            },
        }
    }
}

/// Moves up to `chunks_to_add` batches from the head of the piece queue to
/// the back of the chunk queue. Chunks are neither lost nor duplicated: what
/// leaves the piece queue is what arrives in the chunk queue.
pub fn add_chunks_tasks(
    pieces_tasks: &mut VecDeque<PieceTask>,
    chunks_tasks: &mut VecDeque<ChunksTask>,
    chunks_to_add: usize,
)
    requires
        pieces_wf(old(pieces_tasks)@),
    ensures
        pieces_wf(final(pieces_tasks)@),
        sum_remaining(final(pieces_tasks)@) + sum_chunks(final(chunks_tasks)@) == sum_remaining(
            old(pieces_tasks)@,
        ) + sum_chunks(old(chunks_tasks)@),
        final(chunks_tasks)@.len() <= old(chunks_tasks)@.len() + chunks_to_add,
        final(chunks_tasks)@.subrange(0, old(chunks_tasks)@.len() as int) == old(chunks_tasks)@,
        forall|k: int|
            old(chunks_tasks)@.len() <= k < final(chunks_tasks)@.len() ==> chunk_task_wf(
                #[trigger] final(chunks_tasks)@[k],
            ),
        final(chunks_tasks)@.len() == old(chunks_tasks)@.len() + chunks_to_add || sum_remaining(
            final(pieces_tasks)@,
        ) == 0,
        final(chunks_tasks)@.len() == old(chunks_tasks)@.len() + refill(old(pieces_tasks)@, chunks_to_add as nat).0.len(),
        forall|k: int|
            0 <= k < refill(old(pieces_tasks)@, chunks_to_add as nat).0.len() ==> batch_of(
                #[trigger] final(chunks_tasks)@[old(chunks_tasks)@.len() + k],
            ) == refill(old(pieces_tasks)@, chunks_to_add as nat).0[k],
        final(pieces_tasks)@ == refill(old(pieces_tasks)@, chunks_to_add as nat).1,
        pieces_unique(old(pieces_tasks)@) ==> forall|a: int, b: int|
            old(chunks_tasks)@.len() <= a < b < final(chunks_tasks)@.len() && (#[trigger] final(chunks_tasks)@[a]).piece_i
                == (#[trigger] final(chunks_tasks)@[b]).piece_i ==> final(chunks_tasks)@[a].chunks.end
                <= final(chunks_tasks)@[b].chunks.start,
        pieces_unique(old(pieces_tasks)@) ==> batch_ids(refill(old(pieces_tasks)@, chunks_to_add as nat).0) == out_ids(
            old(pieces_tasks)@,
        ).difference(out_ids(final(pieces_tasks)@)),
{
    let ghost start_pieces = pieces_tasks@;
    let ghost start_chunks = chunks_tasks@;
    let mut added: usize = 0;
    while added < chunks_to_add
        invariant
            start_pieces == old(pieces_tasks)@,
            start_chunks == old(chunks_tasks)@,
            pieces_wf(start_pieces),
            added <= chunks_to_add,
            pieces_wf(pieces_tasks@),
            sum_remaining(pieces_tasks@) + sum_chunks(chunks_tasks@) == sum_remaining(start_pieces) + sum_chunks(start_chunks),
            chunks_tasks@.len() == start_chunks.len() + added,
            chunks_tasks@.subrange(0, start_chunks.len() as int) == start_chunks,
            forall|k: int| start_chunks.len() <= k < chunks_tasks@.len() ==> chunk_task_wf(#[trigger] chunks_tasks@[k]),
            refill(start_pieces, added as nat).0.len() == added,
            forall|k: int|
                0 <= k < added ==> batch_of(#[trigger] chunks_tasks@[start_chunks.len() + k]) == refill(start_pieces, added as nat).0[k],
            pieces_tasks@ == refill(start_pieces, added as nat).1,
        decreases chunks_to_add - added,
    {
        let ghost q_before = pieces_tasks@;
        let t = match next_open(pieces_tasks) {
            None => {
                proof {
                    lemma_refill_stays(start_pieces, added as nat, chunks_to_add as nat);
                    if pieces_unique(start_pieces) {
                        lemma_new_batches_disjoint(start_chunks, chunks_tasks@, start_pieces, chunks_to_add as nat);
                        lemma_refill_moves_chunks(start_pieces, chunks_to_add as nat);
                    }
                }
                return;
            },
            Some(t) => t,
        };
        let (rest, batch) = take_chunks(t);
        let ghost c_before = chunks_tasks@;
        proof {
            lemma_sum_chunks_push(c_before, batch);
        }
        chunks_tasks.push_back(batch);
        assert(chunks_tasks@.subrange(0, start_chunks.len() as int) =~= c_before.subrange(0, start_chunks.len() as int));
        let ghost p_before = pieces_tasks@;
        pieces_tasks.push_front(rest);
        assert(pieces_tasks@.drop_first() =~= p_before);
        assert(pieces_wf(pieces_tasks@)) by {
            assert forall|i: int| 0 <= i < pieces_tasks@.len() implies (#[trigger] pieces_tasks@[i]).chunks_done
                <= pieces_tasks@[i].total_chunks by {
                if i > 0 {
                    assert(pieces_tasks@[i] == p_before[i - 1]);
                }
            }
        }
        proof {
            let (bs, rest) = refill(start_pieces, added as nat);
            assert(rest == q_before);
            let nb = refill(start_pieces, (added + 1) as nat);
            assert(nb.0 == bs.push(batch_of(batch)));
            assert(nb.1 =~= pieces_tasks@);
            assert forall|k: int| 0 <= k < added + 1 implies batch_of(#[trigger] chunks_tasks@[start_chunks.len() + k]) == nb.0[k] by {
                if k < added {
                    assert(chunks_tasks@[start_chunks.len() + k] == c_before[start_chunks.len() + k]);
                }
            }
        }
        added += 1;
    }
    proof {
        if pieces_unique(start_pieces) {
            lemma_new_batches_disjoint(start_chunks, chunks_tasks@, start_pieces, chunks_to_add as nat);
            lemma_refill_moves_chunks(start_pieces, chunks_to_add as nat);
        }
    }
}

proof fn lemma_new_batches_disjoint(before: Seq<ChunksTask>, after: Seq<ChunksTask>, q: Seq<PieceTask>, k: nat)
    requires
        pieces_unique(q),
        pieces_wf(q),
        after.len() == before.len() + refill(q, k).0.len(),
        forall|i: int| 0 <= i < refill(q, k).0.len() ==> batch_of(#[trigger] after[before.len() + i]) == refill(q, k).0[i],
    ensures
        forall|a: int, b: int|
            before.len() <= a < b < after.len() && (#[trigger] after[a]).piece_i == (#[trigger] after[b]).piece_i
                ==> after[a].chunks.end <= after[b].chunks.start,
{
    lemma_batches_disjoint(q, k);
    let bs = refill(q, k).0;
    assert forall|a: int, b: int|
        before.len() <= a < b < after.len() && (#[trigger] after[a]).piece_i == (#[trigger] after[b]).piece_i
            implies after[a].chunks.end <= after[b].chunks.start by {
        let i = a - before.len();
        let j = b - before.len();
        assert(batch_of(after[before.len() + i]) == bs[i]);
        assert(batch_of(after[before.len() + j]) == bs[j]);
    }
}

/// Once the queue holds no unfinished task, further steps cut nothing.
proof fn lemma_refill_stays(q: Seq<PieceTask>, a: nat, b: nat)
    requires
        a <= b,
        drop_done(refill(q, a).1).len() == 0,
    ensures
        refill(q, b).0 == refill(q, a).0,
        refill(q, b).1 =~= seq![] || (a == b && refill(q, b).1 == refill(q, a).1),
    decreases b - a,
{
    if a < b {
        lemma_refill_stays(q, a, (b - 1) as nat);
        let (bs, rest) = refill(q, (b - 1) as nat);
        assert(drop_done(rest).len() == 0) by {
            if rest.len() != 0 {
                assert(a == b - 1);
            }
        }
    }
}


/// Chunks of the pieces `0..k` that `done` does not list.
pub open spec fn pending_chunks(t: Torrent, done: Seq<usize>, k: int) -> int
    decreases k,
{
    if k <= 0 {
        0
    } else {
        pending_chunks(t, done, k - 1) + if done.contains((k - 1) as usize) {
            0
        } else {
            chunks_in(t.piece_len(k - 1))
        }
    }
}

proof fn lemma_sum_remaining_push(q: Seq<PieceTask>, x: PieceTask)
    ensures
        sum_remaining(q.push(x)) == sum_remaining(q) + remaining(x),
    decreases q.len(),
{
    if q.len() > 0 {
        lemma_sum_remaining_push(q.drop_first(), x);
        assert(q.push(x).drop_first() =~= q.drop_first().push(x));
        assert(q.push(x)[0] == q[0]);
    } else {
        assert(q.push(x).drop_first() =~= seq![]);
        assert(sum_remaining(q.push(x).drop_first()) == 0);
        assert(q.push(x)[0] == x);
    }
}

/// Chunks of the pieces `0..k`.
pub open spec fn total_chunks(t: Torrent, k: int) -> int
    decreases k,
{
    if k <= 0 {
        0
    } else {
        total_chunks(t, k - 1) + chunks_in(t.piece_len(k - 1))
    }
}

/// Chunks of the pieces `0..k` that `done` lists.
pub open spec fn done_chunks(t: Torrent, done: Seq<usize>, k: int) -> int
    decreases k,
{
    if k <= 0 {
        0
    } else {
        done_chunks(t, done, k - 1) + if done.contains((k - 1) as usize) {
            chunks_in(t.piece_len(k - 1))
        } else {
            0
        }
    }
}

/// At a clean start the piece queue holds every chunk of every piece not
/// yet on disk, each once; the scheduler's operations keep that count
/// (see their contracts), less what was delivered, plus what failed its hash.
pub proof fn lemma_initial_accounting(t: Torrent, done: Seq<usize>, k: int)
    requires
        t.wf(),
        within_limits(t),
        0 <= k <= t.piece_count(),
    ensures
        sum_remaining(initial_tasks(t, done, k)) == pending_chunks(t, done, k),
        sum_remaining(initial_tasks(t, done, k)) + done_chunks(t, done, k) == total_chunks(t, k),
        pieces_wf(initial_tasks(t, done, k)),
        pieces_unique(initial_tasks(t, done, k)),
        forall|i: int|
            0 <= i < initial_tasks(t, done, k).len() ==> (#[trigger] initial_tasks(t, done, k)[i]).piece_i < k,
        forall|i: int, j: int|
            0 <= i < j < initial_tasks(t, done, k).len() ==> (#[trigger] initial_tasks(t, done, k)[i]).piece_i < (
            #[trigger] initial_tasks(t, done, k)[j]).piece_i,
    decreases k,
{
    if k > 0 {
        lemma_initial_accounting(t, done, k - 1);
        let prev = initial_tasks(t, done, k - 1);
        if !done.contains((k - 1) as usize) {
            let f = fresh_task(t, k - 1);
            let len = t.piece_len(k - 1);
            let n = t.piece_count() as int;
            let p = t.info.piece_length as int;
            if k - 1 == n - 1 {
                assert((n - 1) * p >= 0) by (nonlinear_arith)
                    requires n >= 1, p >= 1;
                assert(n * p == (n - 1) * p + p) by (nonlinear_arith);
            }
            assert(1 <= len <= p);
            assert(chunks_in(len) <= chunks_in(p));
            lemma_sum_remaining_push(prev, f);
            assert(initial_tasks(t, done, k) =~= prev.push(f));
            assert forall|i: int| 0 <= i < prev.push(f).len() implies (#[trigger] prev.push(f)[i]).piece_i < k by {
                if i < prev.len() {
                    assert(prev.push(f)[i] == prev[i]);
                }
            }
            assert forall|i: int, j: int| 0 <= i < j < prev.push(f).len() implies (#[trigger] prev.push(f)[i]).piece_i < (
            #[trigger] prev.push(f)[j]).piece_i by {
                assert(prev.push(f)[i] == prev[i]);
                if j < prev.len() {
                    assert(prev.push(f)[j] == prev[j]);
                }
            }
            assert(pieces_wf(prev.push(f))) by {
                assert forall|i: int| 0 <= i < prev.push(f).len() implies (#[trigger] prev.push(f)[i]).chunks_done
                    <= prev.push(f)[i].total_chunks by {
                    if i < prev.len() {
                        assert(prev.push(f)[i] == prev[i]);
                    }
                }
            }
        } else {
            assert(initial_tasks(t, done, k) =~= prev);
        }
    }
}


/// Each piece has at most one task in the queue.
pub open spec fn pieces_unique(q: Seq<PieceTask>) -> bool {
    forall|i: int, j: int| 0 <= i < j < q.len() ==> (#[trigger] q[i]).piece_i != (#[trigger] q[j]).piece_i
}

/// Every batch already cut ends at or before the progress of its piece's
/// task, where that task is still queued.
pub open spec fn behind_progress(bs: Seq<(u16, u32, u32, bool)>, q: Seq<PieceTask>) -> bool {
    forall|i: int, j: int|
        0 <= i < bs.len() && 0 <= j < q.len() && (#[trigger] bs[i]).0 == (#[trigger] q[j]).piece_i ==> bs[i].2
            <= q[j].chunks_done
}

proof fn lemma_drop_done_suffix(q: Seq<PieceTask>)
    ensures
        exists|k: int| 0 <= k <= q.len() && drop_done(q) == q.subrange(k, q.len() as int),
        drop_done(q).len() > 0 ==> drop_done(q)[0].chunks_done < drop_done(q)[0].total_chunks,
    decreases q.len(),
{
    if q.len() == 0 {
        assert(drop_done(q) == q.subrange(0, 0));
    } else if q[0].chunks_done >= q[0].total_chunks {
        lemma_drop_done_suffix(q.drop_first());
        let k = choose|k: int| 0 <= k <= q.drop_first().len() && drop_done(q.drop_first()) == q.drop_first().subrange(
            k,
            q.drop_first().len() as int,
        );
        assert(q.drop_first().subrange(k, q.drop_first().len() as int) =~= q.subrange(k + 1, q.len() as int));
    } else {
        assert(q.subrange(0, q.len() as int) =~= q);
    }
}

proof fn lemma_refill_invariant(q: Seq<PieceTask>, k: nat)
    requires
        pieces_unique(q),
        pieces_wf(q),
    ensures
        pieces_unique(refill(q, k).1),
        pieces_wf(refill(q, k).1),
        behind_progress(refill(q, k).0, refill(q, k).1),
        forall|i: int, j: int|
            0 <= i < j < refill(q, k).0.len() && (#[trigger] refill(q, k).0[i]).0 == (#[trigger] refill(q, k).0[j]).0
                ==> refill(q, k).0[i].2 <= refill(q, k).0[j].1,
        forall|i: int| 0 <= i < refill(q, k).0.len() ==> (#[trigger] refill(q, k).0[i]).1 < refill(q, k).0[i].2,
        forall|i: int, j: int|
            0 <= i < refill(q, k).0.len() && 0 <= j < q.len() && (#[trigger] refill(q, k).0[i]).0 == (#[trigger] q[j]).piece_i
                ==> q[j].chunks_done <= refill(q, k).0[i].1,
    decreases k,
{
    if k > 0 {
        lemma_refill_invariant(q, (k - 1) as nat);
        let (bs, rest) = refill(q, (k - 1) as nat);
        let open = drop_done(rest);
        lemma_drop_done_suffix(rest);
        let s = choose|s: int| 0 <= s <= rest.len() && open == rest.subrange(s, rest.len() as int);
        assert forall|j: int| 0 <= j < open.len() implies #[trigger] open[j] == rest[s + j] by {}
        if open.len() > 0 {
            let t = open[0];
            let up = cut_end(t);
            let nt = PieceTask { piece_i: t.piece_i, total_chunks: t.total_chunks, chunks_done: up };
            let nrest = seq![nt] + open.drop_first();
            let nbs = bs.push((t.piece_i, t.chunks_done, up, up == t.total_chunks));
            assert(refill(q, k).1 == nrest);
            assert(refill(q, k).0 == nbs);
            assert(t.chunks_done < t.total_chunks);
            assert forall|i: int, j: int| 0 <= i < j < nrest.len() implies (#[trigger] nrest[i]).piece_i != (
                #[trigger] nrest[j]).piece_i by {
                assert(nrest[j] == rest[s + j]);
                if i > 0 {
                    assert(nrest[i] == rest[s + i]);
                } else {
                    assert(t == rest[s]);
                }
            }
            assert forall|j: int| 0 <= j < nrest.len() implies (#[trigger] nrest[j]).chunks_done <= nrest[j].total_chunks by {
                if j > 0 {
                    assert(nrest[j] == rest[s + j]);
                }
            }
            assert forall|i: int, j: int|
                0 <= i < nbs.len() && 0 <= j < nrest.len() && (#[trigger] nbs[i]).0 == (#[trigger] nrest[j]).piece_i
                    implies nbs[i].2 <= nrest[j].chunks_done by {
                if i < bs.len() {
                    assert(nbs[i] == bs[i]);
                    if j > 0 {
                        assert(nrest[j] == rest[s + j]);
                    } else {
                        assert(t == rest[s]);
                    }
                } else if j > 0 {
                    assert(nrest[j] == rest[s + j]);
                    assert(t == rest[s]);
                    assert(false);
                }
            }
            assert forall|i: int, j: int|
                0 <= i < j < nbs.len() && (#[trigger] nbs[i]).0 == (#[trigger] nbs[j]).0 implies nbs[i].2 <= nbs[j].1 by {
                if j < bs.len() {
                    assert(nbs[i] == bs[i] && nbs[j] == bs[j]);
                } else {
                    assert(nbs[i] == bs[i]);
                    assert(t == rest[s]);
                }
            }
            assert forall|i: int| 0 <= i < nbs.len() implies (#[trigger] nbs[i]).1 < nbs[i].2 by {
                if i < bs.len() {
                    assert(nbs[i] == bs[i]);
                }
            }
            assert forall|i: int, j: int|
                0 <= i < nbs.len() && 0 <= j < q.len() && (#[trigger] nbs[i]).0 == (#[trigger] q[j]).piece_i implies q[j].chunks_done
                    <= nbs[i].1 by {
                if i < bs.len() {
                    assert(nbs[i] == bs[i]);
                } else {
                    lemma_progress_grows(q, (k - 1) as nat, j, s);
                }
            }
        } else {
            assert(refill(q, k).1 =~= seq![]);
            assert(refill(q, k).0 == bs);
        }
    }
}

/// A queued task's progress never falls below where its piece started.
proof fn lemma_progress_grows(q: Seq<PieceTask>, k: nat, j: int, s: int)
    requires
        pieces_unique(q),
        pieces_wf(q),
        0 <= j < q.len(),
        0 <= s < refill(q, k).1.len(),
        refill(q, k).1[s].piece_i == q[j].piece_i,
    ensures
        q[j].chunks_done <= refill(q, k).1[s].chunks_done,
    decreases k,
{
    if k > 0 {
        let (bs, rest) = refill(q, (k - 1) as nat);
        let open = drop_done(rest);
        lemma_drop_done_suffix(rest);
        let o = choose|o: int| 0 <= o <= rest.len() && open == rest.subrange(o, rest.len() as int);
        lemma_refill_invariant(q, (k - 1) as nat);
        if open.len() > 0 {
            let r = refill(q, k).1;
            if s == 0 {
                assert(open[0] == rest[o]);
                lemma_progress_grows(q, (k - 1) as nat, j, o);
            } else {
                assert(r[s] == open[s]);
                assert(open[s] == rest[o + s]);
                lemma_progress_grows(q, (k - 1) as nat, j, o + s);
            }
        }
    } else {
        if s != j {
            assert(q[s].piece_i != q[j].piece_i);
        }
    }
}

/// Batches cut from a queue in which each piece has one task never
/// overlap: a later batch of a piece starts where an earlier one ended or
/// after, so no chunk is handed out twice by the refill.
pub proof fn lemma_batches_disjoint(q: Seq<PieceTask>, k: nat)
    requires
        pieces_unique(q),
        pieces_wf(q),
    ensures
        forall|i: int, j: int|
            0 <= i < j < refill(q, k).0.len() && (#[trigger] refill(q, k).0[i]).0 == (#[trigger] refill(q, k).0[j]).0
                ==> refill(q, k).0[i].2 <= refill(q, k).0[j].1,
        forall|i: int| 0 <= i < refill(q, k).0.len() ==> (#[trigger] refill(q, k).0[i]).1 < refill(q, k).0[i].2,
{
    lemma_refill_invariant(q, k);
}


/// Chunk `x.1` of piece `x.0` is still to hand out in task `t`.
pub open spec fn task_has(t: PieceTask, x: (int, int)) -> bool {
    x.0 == t.piece_i && t.chunks_done <= x.1 < t.total_chunks
}

/// Chunk `x.1` of piece `x.0` is in batch `b`.
pub open spec fn batch_has(b: (u16, u32, u32, bool), x: (int, int)) -> bool {
    x.0 == b.0 && b.1 <= x.1 < b.2
}

/// The chunks a piece queue has yet to hand out, as (piece, chunk) pairs.
pub open spec fn out_ids(q: Seq<PieceTask>) -> Set<(int, int)> {
    Set::new(|x: (int, int)| exists|i: int| 0 <= i < q.len() && #[trigger] task_has(q[i], x))
}

/// The chunks of a sequence of batches, as (piece, chunk) pairs.
pub open spec fn batch_ids(bs: Seq<(u16, u32, u32, bool)>) -> Set<(int, int)> {
    Set::new(|x: (int, int)| exists|i: int| 0 <= i < bs.len() && #[trigger] batch_has(bs[i], x))
}

proof fn lemma_refill_ids(q: Seq<PieceTask>, k: nat)
    requires
        pieces_unique(q),
        pieces_wf(q),
    ensures
        out_ids(q) == batch_ids(refill(q, k).0).union(out_ids(refill(q, k).1)),
        batch_ids(refill(q, k).0).disjoint(out_ids(refill(q, k).1)),
    decreases k,
{
    if k == 0 {
        assert(batch_ids(refill(q, k).0) =~= Set::empty());
        assert(out_ids(q) =~= batch_ids(refill(q, k).0).union(out_ids(refill(q, k).1)));
    } else {
        lemma_refill_ids(q, (k - 1) as nat);
        lemma_refill_invariant(q, (k - 1) as nat);
        let (bs, rest) = refill(q, (k - 1) as nat);
        let open = drop_done(rest);
        lemma_drop_done_suffix(rest);
        let s = choose|s: int| 0 <= s <= rest.len() && open == rest.subrange(s, rest.len() as int);
        assert forall|j: int| 0 <= j < open.len() implies #[trigger] open[j] == rest[s + j] by {}
        assert(forall|j: int| 0 <= j < s ==> rest[j].chunks_done >= rest[j].total_chunks) by {
            lemma_drop_done_prefix(rest, s);
        }
        // finished tasks hand out nothing
        assert(out_ids(open) =~= out_ids(rest)) by {
            assert forall|x: (int, int)| out_ids(rest).contains(x) implies out_ids(open).contains(x) by {
                let i = choose|i: int| 0 <= i < rest.len() && #[trigger] task_has(rest[i], x);
                assert(i >= s);
                assert(task_has(open[i - s], x));
            }
            assert forall|x: (int, int)| out_ids(open).contains(x) implies out_ids(rest).contains(x) by {
                let i = choose|i: int| 0 <= i < open.len() && #[trigger] task_has(open[i], x);
                assert(task_has(rest[s + i], x));
            }
        }
        if open.len() == 0 {
            assert(refill(q, k).0 == bs);
            assert(out_ids(refill(q, k).1) =~= out_ids(open));
        } else {
            let t = open[0];
            let up = cut_end(t);
            let b = (t.piece_i, t.chunks_done, up, up == t.total_chunks);
            let nt = PieceTask { piece_i: t.piece_i, total_chunks: t.total_chunks, chunks_done: up };
            let nrest = seq![nt] + open.drop_first();
            let nbs = bs.push(b);
            assert(refill(q, k).1 == nrest);
            assert(refill(q, k).0 == nbs);
            assert(t == rest[s]);
            // the other tasks of the queue are other pieces
            assert forall|j: int| 1 <= j < open.len() implies (#[trigger] open[j]).piece_i != t.piece_i by {
                assert(open[j] == rest[s + j]);
            }
            {
                assert forall|x: (int, int)| #[trigger] batch_ids(nbs).contains(x) == (batch_ids(bs).contains(x) || batch_has(b, x)) by {
                    if batch_ids(nbs).contains(x) {
                        let i = choose|i: int| 0 <= i < nbs.len() && #[trigger] batch_has(nbs[i], x);
                        if i < bs.len() {
                            assert(nbs[i] == bs[i]);
                        }
                    }
                    if batch_ids(bs).contains(x) {
                        let i = choose|i: int| 0 <= i < bs.len() && #[trigger] batch_has(bs[i], x);
                        assert(nbs[i] == bs[i]);
                        assert(batch_has(nbs[i], x));
                    }
                    if batch_has(b, x) {
                        assert(nbs[bs.len() as int] == b);
                    }
                }
            }
            assert forall|x: (int, int)| #[trigger] out_ids(open).contains(x) == (batch_has(b, x) || out_ids(nrest).contains(x)) by {
                if out_ids(open).contains(x) {
                    let i = choose|i: int| 0 <= i < open.len() && #[trigger] task_has(open[i], x);
                    if i > 0 {
                        assert(nrest[i] == open[i]);
                        assert(task_has(nrest[i], x));
                    } else if x.1 >= up {
                        assert(task_has(nrest[0], x));
                    }
                }
                if out_ids(nrest).contains(x) {
                    let i = choose|i: int| 0 <= i < nrest.len() && #[trigger] task_has(nrest[i], x);
                    if i > 0 {
                        assert(nrest[i] == open[i]);
                        assert(task_has(open[i], x));
                    } else {
                        assert(task_has(open[0], x));
                    }
                }
                if batch_has(b, x) {
                    assert(task_has(open[0], x));
                }
            }
            assert forall|x: (int, int)| batch_has(b, x) implies !out_ids(nrest).contains(x) by {
                if out_ids(nrest).contains(x) {
                    let i = choose|i: int| 0 <= i < nrest.len() && #[trigger] task_has(nrest[i], x);
                    if i > 0 {
                        assert(nrest[i] == open[i]);
                    }
                }
            }
            assert(out_ids(q) =~= batch_ids(nbs).union(out_ids(nrest)));
            assert(batch_ids(nbs).disjoint(out_ids(nrest)));
        }
    }
}

proof fn lemma_drop_done_prefix(q: Seq<PieceTask>, s: int)
    requires
        0 <= s <= q.len(),
        drop_done(q) == q.subrange(s, q.len() as int),
    ensures
        forall|j: int| 0 <= j < s ==> q[j].chunks_done >= q[j].total_chunks,
    decreases q.len(),
{
    if q.len() > 0 && s > 0 {
        if q[0].chunks_done < q[0].total_chunks {
            assert(drop_done(q) == q);
            assert(q.subrange(s, q.len() as int).len() < q.len());
        } else {
            let r = q.drop_first();
            assert(r.subrange(s - 1, r.len() as int) =~= q.subrange(s, q.len() as int));
            lemma_drop_done_prefix(r, s - 1);
            assert forall|j: int| 0 <= j < s implies q[j].chunks_done >= q[j].total_chunks by {
                if j > 0 {
                    assert(q[j] == r[j - 1]);
                }
            }
        }
    }
}

/// The batches the refill cuts are exactly the chunks that leave the piece
/// queue, and none is left behind in it: no chunk is duplicated or lost.
pub proof fn lemma_refill_moves_chunks(q: Seq<PieceTask>, k: nat)
    requires
        pieces_unique(q),
        pieces_wf(q),
    ensures
        batch_ids(refill(q, k).0) == out_ids(q).difference(out_ids(refill(q, k).1)),
        out_ids(refill(q, k).1).subset_of(out_ids(q)),
{
    lemma_refill_ids(q, k);
    assert(batch_ids(refill(q, k).0) =~= out_ids(q).difference(out_ids(refill(q, k).1)));
}

} // verus!
