//! The download coordinator's decisions: which peer slot gets which batch,
//! and what each event does to the queues. The caller runs the loop, owns
//! the connections and performs the actions.
use vstd::prelude::*;

use std::collections::VecDeque;

use crate::tasks::{
    add_chunks_tasks, batch_of, within_limits, pieces_wf, refill, remaining, sum_chunks,
    sum_remaining, task_len, ChunksTask, PieceTask, CHUNK_SIZE, MAX_CHUNKS_TASKS,
};
use crate::store::{DownloadStatus, TorrentBackupInfo};
use crate::torrent::Torrent;

verus! {

/// A place for one peer.
pub enum Slot {
    /// Connected and idle.
    Free(String),
    /// Working on a batch.
    Busy(String, ChunksTask),
    /// Empty; can take a new peer.
    Finished,
}

pub open spec fn slot_chunks(s: Slot) -> int {
    match s {
        Slot::Busy(_, t) => task_len(t),
        _ => 0,
    }
}

/// Chunks held by busy slots.
pub open spec fn in_flight(s: Seq<Slot>) -> int
    decreases s.len(),
{
    if s.len() == 0 {
        0
    } else {
        in_flight(s.drop_last()) + slot_chunks(s.last())
    }
}

pub struct Scheduler {
    pub pieces_tasks: VecDeque<PieceTask>,
    pub chunks_tasks: VecDeque<ChunksTask>,
    pub slots: Vec<Slot>,
}

/// Why a torrent cannot be scheduled.
#[derive(Debug, PartialEq, Eq, Clone, Copy)]
pub enum LimitError {
    TooManyPieces,
    TooManyChunks,
}

proof fn lemma_in_flight_update(s: Seq<Slot>, i: int, x: Slot)
    requires
        0 <= i < s.len(),
    ensures
        in_flight(s.update(i, x)) == in_flight(s) - slot_chunks(s[i]) + slot_chunks(x),
    decreases s.len(),
{
    if i < s.len() - 1 {
        lemma_in_flight_update(s.drop_last(), i, x);
        assert(s.update(i, x).drop_last() =~= s.drop_last().update(i, x));
    } else {
        assert(s.update(i, x).drop_last() =~= s.drop_last());
    }
}

proof fn lemma_in_flight_push(s: Seq<Slot>, x: Slot)
    ensures
        in_flight(s.push(x)) == in_flight(s) + slot_chunks(x),
{
    assert(s.push(x).drop_last() =~= s);
}

proof fn lemma_sum_chunks_front(q: Seq<ChunksTask>, c: ChunksTask)
    ensures
        sum_chunks(seq![c] + q) == task_len(c) + sum_chunks(q),
{
    assert((seq![c] + q).drop_first() =~= q);
}

/// Rejects torrents with more than 65,535 pieces, or with more than 65,535
/// whole chunks in a piece.
pub fn check_limits(torrent: &Torrent) -> (r: Result<(), LimitError>)
    ensures
        r is Ok <==> within_limits(*torrent),
        r is Ok <==> torrent.piece_count() <= 65535 && torrent.info.piece_length as int / CHUNK_SIZE as int <= 65535,
        r == Err::<(), LimitError>(LimitError::TooManyPieces) <==> torrent.piece_count() > u16::MAX,
{
    if torrent.info.piece_hashes.len() > 65535 {
        return Err(LimitError::TooManyPieces);
    }
    let pl = torrent.info.piece_length;
    if pl / CHUNK_SIZE > 65535 {
        return Err(LimitError::TooManyChunks);
    }
    Ok(())
}

impl Scheduler {
    /// Chunks the scheduler is responsible for: not yet handed out, queued,
    /// or in flight.
    pub open spec fn accounted(&self) -> int {
        sum_remaining(self.pieces_tasks@) + sum_chunks(self.chunks_tasks@) + in_flight(self.slots@)
    }

    pub open spec fn wf(&self) -> bool {
        pieces_wf(self.pieces_tasks@)
    }

    /// A scheduler over the given pending pieces, with no batches and no peers.
    pub fn new(pieces_tasks: VecDeque<PieceTask>) -> (r: Scheduler)
        requires
            pieces_wf(pieces_tasks@),
        ensures
            r.wf(),
            r.pieces_tasks@ == pieces_tasks@,
            r.chunks_tasks@.len() == 0,
            r.slots@.len() == 0,
            r.accounted() == sum_remaining(pieces_tasks@),
    {
        Scheduler { pieces_tasks, chunks_tasks: VecDeque::new(), slots: Vec::new() }
    }

    /// Tops the chunk queue up to `MAX_CHUNKS_TASKS` batches.
    pub fn refill(&mut self)
        requires
            old(self).wf(),
        ensures
            final(self).wf(),
            final(self).accounted() == old(self).accounted(),
            final(self).slots@ == old(self).slots@,
            old(self).chunks_tasks@.len() < MAX_CHUNKS_TASKS ==> final(self).chunks_tasks@.len()
                == MAX_CHUNKS_TASKS || sum_remaining(final(self).pieces_tasks@) == 0,
            final(self).chunks_tasks@.subrange(0, old(self).chunks_tasks@.len() as int) == old(self).chunks_tasks@,
            old(self).chunks_tasks@.len() >= MAX_CHUNKS_TASKS ==> *final(self) == *old(self),
            old(self).chunks_tasks@.len() < MAX_CHUNKS_TASKS ==> {
                let (bs, rest) = refill(old(self).pieces_tasks@, (MAX_CHUNKS_TASKS - old(self).chunks_tasks@.len()) as nat);
                &&& final(self).pieces_tasks@ == rest
                &&& final(self).chunks_tasks@.len() == old(self).chunks_tasks@.len() + bs.len()
                &&& forall|k: int|
                    0 <= k < bs.len() ==> batch_of(#[trigger] final(self).chunks_tasks@[old(self).chunks_tasks@.len() + k])
                        == bs[k]
            },
    {
        let len = self.chunks_tasks.len();
        if len < MAX_CHUNKS_TASKS {
            add_chunks_tasks(&mut self.pieces_tasks, &mut self.chunks_tasks, MAX_CHUNKS_TASKS - len);
        }
    }

    /// Whether a free or busy slot already holds the peer at `addr`.
    pub fn peer_known(&self, addr: &String) -> (r: bool)
        ensures
            r == exists|i: int|
                0 <= i < self.slots@.len() && match #[trigger] self.slots@[i] {
                    Slot::Free(a) => a@ == addr@,
                    Slot::Busy(a, _) => a@ == addr@,
                    Slot::Finished => false,
                },
    {
        let mut i: usize = 0;
        while i < self.slots.len()
            invariant
                i <= self.slots@.len(),
                forall|q: int|
                    0 <= q < i ==> !match #[trigger] self.slots@[q] {
                        Slot::Free(a) => a@ == addr@,
                        Slot::Busy(a, _) => a@ == addr@,
                        Slot::Finished => false,
                    },
            decreases self.slots@.len() - i,
        {
            let hit = match &self.slots[i] {
                Slot::Free(a) => a.eq(addr),
                Slot::Busy(a, _) => a.eq(addr),
                Slot::Finished => false,
            };
            if hit {
                assert(match self.slots@[i as int] {
                    Slot::Free(a) => a@ == addr@,
                    Slot::Busy(a, _) => a@ == addr@,
                    Slot::Finished => false,
                });
                return true;
            }
            i += 1;
        }
        false
    }

    /// Places a new peer in the first finished slot, or in a new slot at the
    /// end; returns the slot's index.
    pub fn add_peer(&mut self, addr: String) -> (r: usize)
        requires
            old(self).slots@.len() < usize::MAX,
        ensures
            r < final(self).slots@.len(),
            final(self).slots@[r as int] == Slot::Free(addr),
            forall|q: int| 0 <= q < r ==> !(#[trigger] old(self).slots@[q] is Finished),
            r < old(self).slots@.len() ==> old(self).slots@[r as int] is Finished && final(self).slots@
                == old(self).slots@.update(r as int, Slot::Free(addr)),
            r == old(self).slots@.len() ==> final(self).slots@ == old(self).slots@.push(Slot::Free(addr)),
            final(self).pieces_tasks@ == old(self).pieces_tasks@,
            final(self).chunks_tasks@ == old(self).chunks_tasks@,
            final(self).accounted() == old(self).accounted(),
    {
        let mut i: usize = 0;
        while i < self.slots.len()
            invariant
                i <= self.slots@.len(),
                self.slots@ == old(self).slots@,
                self.pieces_tasks@ == old(self).pieces_tasks@,
                self.chunks_tasks@ == old(self).chunks_tasks@,
                forall|q: int| 0 <= q < i ==> !(#[trigger] self.slots@[q] is Finished),
            decreases self.slots@.len() - i,
        {
            if let Slot::Finished = self.slots[i] {
                proof {
                    lemma_in_flight_update(self.slots@, i as int, Slot::Free(addr));
                }
                self.slots.set(i, Slot::Free(addr));
                return i;
            }
            i += 1;
        }
        proof {
            lemma_in_flight_push(self.slots@, Slot::Free(addr));
        }
        self.slots.push(Slot::Free(addr));
        i
    }

    /// The piece of the batch at the head of the chunk queue.
    pub fn head_piece(&self) -> (r: Option<u16>)
        ensures
            match r {
                Some(p) => self.chunks_tasks@.len() > 0 && p == self.chunks_tasks@[0].piece_i,
                None => self.chunks_tasks@.len() == 0,
            },
    {
        if self.chunks_tasks.len() == 0 {
            None
        } else {
            Some(self.chunks_tasks[0].piece_i)
        }
    }

    /// Hands the head batch to the first free slot whose peer has its piece
    /// (`has_piece[i]` for slot `i`); the queue order is never changed.
    pub fn assign(&mut self, has_piece: &Vec<bool>) -> (r: Option<usize>)
        requires
            has_piece@.len() == old(self).slots@.len(),
        ensures
            final(self).accounted() == old(self).accounted(),
            final(self).pieces_tasks@ == old(self).pieces_tasks@,
            final(self).slots@.len() == old(self).slots@.len(),
            match r {
                None => {
                    &&& final(self).slots@ == old(self).slots@
                    &&& final(self).chunks_tasks@ == old(self).chunks_tasks@
                    &&& old(self).chunks_tasks@.len() == 0 || forall|q: int|
                        0 <= q < has_piece@.len() ==> !(old(self).slots@[q] is Free && #[trigger] has_piece@[q])
                },
                Some(i) => {
                    &&& i < old(self).slots@.len()
                    &&& old(self).slots@[i as int] is Free && has_piece@[i as int]
                    &&& forall|q: int| 0 <= q < i ==> !(old(self).slots@[q] is Free && #[trigger] has_piece@[q])
                    &&& old(self).chunks_tasks@.len() > 0
                    &&& final(self).chunks_tasks@ == old(self).chunks_tasks@.drop_first()
                    &&& final(self).slots@[i as int] matches Slot::Busy(a, t) && a@ == old(
                        self,
                    ).slots@[i as int]->Free_0@ && t == old(self).chunks_tasks@[0]
                    &&& forall|q: int|
                        0 <= q < final(self).slots@.len() && q != i ==> #[trigger] final(self).slots@[q]
                            == old(self).slots@[q]
                },
            },
    {
        if self.chunks_tasks.len() == 0 {
            return None;
        }
        let mut i: usize = 0;
        while i < self.slots.len()
            invariant
                i <= self.slots@.len(),
                self.slots@ == old(self).slots@,
                self.pieces_tasks@ == old(self).pieces_tasks@,
                self.chunks_tasks@ == old(self).chunks_tasks@,
                self.chunks_tasks@.len() > 0,
                has_piece@.len() == self.slots@.len(),
                forall|q: int| 0 <= q < i ==> !(self.slots@[q] is Free && #[trigger] has_piece@[q]),
            decreases self.slots@.len() - i,
        {
            let addr = match &self.slots[i] {
                Slot::Free(a) => {
                    if has_piece[i] {
                        Some(a.clone())
                    } else {
                        None
                    }
                },
                _ => None,
            };
            if let Some(a) = addr {
                let ghost q0 = self.chunks_tasks@;
                let task = self.chunks_tasks.pop_front().unwrap();
                assert(self.chunks_tasks@ == q0.drop_first());
                proof {
                    lemma_sum_chunks_front(q0.drop_first(), task);
                    assert(seq![task] + q0.drop_first() =~= q0);
                    lemma_in_flight_update(self.slots@, i as int, Slot::Busy(a, task));
                }
                self.slots.set(i, Slot::Busy(a, task));
                return Some(i);
            }
            i += 1;
        }
        None
    }

    /// A batch failed: it goes back to the head of the chunk queue, and the
    /// slot is emptied.
    pub fn task_failed(&mut self, i: usize)
        requires
            i < old(self).slots@.len(),
            old(self).slots@[i as int] is Busy,
        ensures
            final(self).accounted() == old(self).accounted(),
            final(self).pieces_tasks@ == old(self).pieces_tasks@,
            final(self).chunks_tasks@ == seq![old(self).slots@[i as int]->Busy_1] + old(self).chunks_tasks@,
            final(self).slots@ == old(self).slots@.update(i as int, Slot::Finished),
    {
        let ghost s0 = self.slots@;
        let taken = self.slots.remove(i);
        self.slots.insert(i, Slot::Finished);
        assert(self.slots@ =~= s0.update(i as int, Slot::Finished));
        proof {
            lemma_in_flight_update(s0, i as int, Slot::Finished);
        }
        match taken {
            Slot::Busy(_, t) => {
                proof {
                    lemma_sum_chunks_front(self.chunks_tasks@, t);
                }
                self.chunks_tasks.push_front(t);
            },
            _ => {},
        }
    }

    /// A batch was delivered: its chunks leave the scheduler's books and the
    /// slot is emptied.
    pub fn task_done(&mut self, i: usize)
        requires
            i < old(self).slots@.len(),
            old(self).slots@[i as int] is Busy,
        ensures
            final(self).accounted() == old(self).accounted() - task_len(old(self).slots@[i as int]->Busy_1),
            final(self).pieces_tasks@ == old(self).pieces_tasks@,
            final(self).chunks_tasks@ == old(self).chunks_tasks@,
            final(self).slots@ == old(self).slots@.update(i as int, Slot::Finished),
    {
        proof {
            lemma_in_flight_update(self.slots@, i as int, Slot::Finished);
        }
        self.slots.set(i, Slot::Finished);
    }

    /// A piece failed its hash check: all of it is queued again, first.
    pub fn invalid_hash(&mut self, piece_i: u16, total_chunks: u32)
        requires
            old(self).wf(),
        ensures
            final(self).wf(),
            final(self).accounted() == old(self).accounted() + total_chunks,
            final(self).pieces_tasks@ == seq![PieceTask { piece_i, total_chunks, chunks_done: 0 }] + old(
                self,
            ).pieces_tasks@,
            final(self).chunks_tasks@ == old(self).chunks_tasks@,
            final(self).slots@ == old(self).slots@,
    {
        let t = PieceTask { piece_i, total_chunks, chunks_done: 0 };
        let ghost start_pieces = self.pieces_tasks@;
        self.pieces_tasks.push_front(t);
        assert(self.pieces_tasks@.drop_first() =~= start_pieces);
        assert(self.pieces_tasks@ =~= seq![t] + start_pieces);
        assert(remaining(t) == total_chunks);
        assert(pieces_wf(self.pieces_tasks@)) by {
            assert forall|q: int| 0 <= q < self.pieces_tasks@.len() implies (#[trigger] self.pieces_tasks@[q]).chunks_done
                <= self.pieces_tasks@[q].total_chunks by {
                if q > 0 {
                    assert(self.pieces_tasks@[q] == start_pieces[q - 1]);
                }
            }
        }
    }

    /// Pause or stop: every batch in flight goes back to the head of the
    /// chunk queue and every slot is emptied.
    pub fn return_all(&mut self)
        ensures
            final(self).accounted() == old(self).accounted(),
            final(self).pieces_tasks@ == old(self).pieces_tasks@,
            in_flight(final(self).slots@) == 0,
            final(self).slots@.len() == old(self).slots@.len(),
            forall|q: int| 0 <= q < final(self).slots@.len() ==> #[trigger] final(self).slots@[q] is Finished,
            final(self).chunks_tasks@ == returned(old(self).slots@) + old(self).chunks_tasks@,
    {
        let mut i: usize = 0;
        assert(old(self).slots@.subrange(0, 0) =~= seq![]);
        assert(returned(seq![]) + old(self).chunks_tasks@ =~= old(self).chunks_tasks@);
        while i < self.slots.len()
            invariant
                i <= self.slots@.len(),
                self.slots@.len() == old(self).slots@.len(),
                self.pieces_tasks@ == old(self).pieces_tasks@,
                self.accounted() == old(self).accounted(),
                forall|q: int| 0 <= q < i ==> #[trigger] self.slots@[q] is Finished,
                forall|q: int| i <= q < self.slots@.len() ==> #[trigger] self.slots@[q] == old(self).slots@[q],
                self.chunks_tasks@ == returned(old(self).slots@.subrange(0, i as int)) + old(self).chunks_tasks@,
            decreases self.slots@.len() - i,
        {
            let ghost s0 = old(self).slots@;
            assert(s0.subrange(0, i + 1).drop_last() =~= s0.subrange(0, i as int));
            assert(s0.subrange(0, i + 1).last() == s0[i as int]);
            if let Slot::Busy(_, _) = self.slots[i] {
                let ghost c0 = self.chunks_tasks@;
                self.task_failed(i);
                assert(self.chunks_tasks@ =~= returned(s0.subrange(0, i + 1)) + old(self).chunks_tasks@);
            } else {
                proof {
                    lemma_in_flight_update(self.slots@, i as int, Slot::Finished);
                }
                self.slots.set(i, Slot::Finished);
                assert(self.chunks_tasks@ =~= returned(s0.subrange(0, i + 1)) + old(self).chunks_tasks@);
            }
            i += 1;
        }
        proof {
            lemma_in_flight_finished(self.slots@);
        }
        assert(old(self).slots@.subrange(0, old(self).slots@.len() as int) =~= old(self).slots@);
    }
}

/// The batches of the busy slots, as `return_all` leaves them at the head of
/// the chunk queue: each goes to the front in slot order, so the last busy
/// slot's batch comes first.
pub open spec fn returned(s: Seq<Slot>) -> Seq<ChunksTask>
    decreases s.len(),
{
    if s.len() == 0 {
        seq![]
    } else {
        (match s.last() {
            Slot::Busy(_, t) => seq![t],
            _ => seq![],
        }) + returned(s.drop_last())
    }
}

proof fn lemma_in_flight_finished(s: Seq<Slot>)
    requires
        forall|q: int| 0 <= q < s.len() ==> #[trigger] s[q] is Finished,
    ensures
        in_flight(s) == 0,
    decreases s.len(),
{
    if s.len() > 0 {
        lemma_in_flight_finished(s.drop_last());
    }
}


/// Events that reach the coordinator from its tasks.
pub enum DownloadEvents {
    /// The batch of this slot failed.
    ChunksFail(usize),
    /// This piece failed its hash check; it has this many chunks.
    InvalidHash(u16, u32),
    /// Every piece is verified.
    Finished,
    /// A peer is ready; `true` when the tracker found it.
    PeerAdd(String, bool),
}

/// What the loop does after an event.
#[derive(Debug, PartialEq, Eq, Clone, Copy)]
pub enum EventOutcome {
    Continue,
    /// The peer went into this slot.
    Placed(usize),
    /// A discovered peer that a slot already holds: ignored.
    Duplicate,
    Done,
}

impl Scheduler {
    /// Applies one event to the queues and slots.
    pub fn handle_event(&mut self, event: DownloadEvents) -> (r: EventOutcome)
        requires
            old(self).wf(),
            old(self).slots@.len() < usize::MAX,
        ensures
            final(self).wf(),
            match event {
                DownloadEvents::ChunksFail(i) => r == EventOutcome::Continue && if i < old(self).slots@.len()
                    && old(self).slots@[i as int] is Busy {
                    final(self).chunks_tasks@ == seq![old(self).slots@[i as int]->Busy_1] + old(self).chunks_tasks@
                        && final(self).accounted() == old(self).accounted()
                } else {
                    *final(self) == *old(self)
                },
                DownloadEvents::InvalidHash(p, n) => r == EventOutcome::Continue && final(self).pieces_tasks@
                    == seq![PieceTask { piece_i: p, total_chunks: n, chunks_done: 0 }] + old(self).pieces_tasks@
                    && final(self).accounted() == old(self).accounted() + n && final(self).chunks_tasks@ == old(
                    self,
                ).chunks_tasks@ && final(self).slots@ == old(self).slots@,
                DownloadEvents::Finished => r == EventOutcome::Done && *final(self) == *old(self),
                DownloadEvents::PeerAdd(a, discovered) => final(self).accounted() == old(self).accounted() && if discovered
                    && (exists|i: int|
                    0 <= i < old(self).slots@.len() && match #[trigger] old(self).slots@[i] {
                        Slot::Free(x) => x@ == a@,
                        Slot::Busy(x, _) => x@ == a@,
                        Slot::Finished => false,
                    }) {
                    r == EventOutcome::Duplicate && *final(self) == *old(self)
                } else {
                    r matches EventOutcome::Placed(k) && k < final(self).slots@.len() && final(self).slots@[k as int]
                        == Slot::Free(a)
                },
            },
    {
        match event {
            DownloadEvents::ChunksFail(i) => {
                if i < self.slots.len() {
                    if let Slot::Busy(_, _) = self.slots[i] {
                        self.task_failed(i);
                    }
                }
                EventOutcome::Continue
            },
            DownloadEvents::InvalidHash(p, n) => {
                self.invalid_hash(p, n);
                EventOutcome::Continue
            },
            DownloadEvents::Finished => EventOutcome::Done,
            DownloadEvents::PeerAdd(a, discovered) => {
                if discovered && self.peer_known(&a) {
                    return EventOutcome::Duplicate;
                }
                EventOutcome::Placed(self.add_peer(a))
            },
        }
    }
}

/// What a download starts from: a fresh descriptor, or a record of the
/// session store.
pub enum TorrentInfo {
    Torrent(Torrent),
    Backup(TorrentBackupInfo),
}

/// Events for the user interface, and directives from it.
#[derive(Debug, PartialEq, Eq, Clone)]
pub enum UiMsg {
    PeerDiscovered(String),
    PeerDisconnect(String),
    TorrentFinished,
    PieceDone(u16),
    ForceOff,
    /// Error text.
    TorrentErr(String),
    /// Pieces done so far.
    Pause(u16),
    /// Pieces done so far.
    Stop(u16),
    /// Bytes uploaded.
    DataUploaded(u64),
}

/// What the coordinator does with a message from the user interface.
#[derive(Debug, PartialEq, Eq, Clone)]
pub enum Control {
    /// Abort every task and exit, keeping nothing.
    Abort,
    /// Return the batches in flight, store the queues with this status and
    /// count of done pieces, stop the saver, exit.
    Persist(DownloadStatus, usize),
    /// Not a directive.
    Ignore,
}

/// The coordinator's answer to a user-interface message.
pub fn control_of(msg: &UiMsg) -> (r: Control)
    ensures
        r == match *msg {
            UiMsg::ForceOff => Control::Abort,
            UiMsg::Pause(d) => Control::Persist(DownloadStatus::Paused, d as usize),
            UiMsg::Stop(d) => Control::Persist(DownloadStatus::Downloading, d as usize),
            _ => Control::Ignore,
        },
{
    match msg {
        UiMsg::ForceOff => Control::Abort,
        UiMsg::Pause(d) => Control::Persist(DownloadStatus::Paused, *d as usize),
        UiMsg::Stop(d) => Control::Persist(DownloadStatus::Downloading, *d as usize),
        _ => Control::Ignore,
    }
}

} // verus!
