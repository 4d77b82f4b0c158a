//! The session store's records and the operations on the list of them,
//! keyed by info-hash. Reading and writing the file is the caller's part.
use vstd::prelude::*;

use std::collections::VecDeque;

use crate::tasks::{ChunksTask, PieceTask};
use crate::torrent::Torrent;

verus! {

/// Where a torrent stands.
#[derive(Debug, PartialEq, Eq, Clone)]
pub enum DownloadStatus {
    Downloading,
    Paused,
    Finished,
    Error(String),
}

/// What is kept of a torrent across restarts.
pub struct TorrentBackupInfo {
    pub pieces_tasks: VecDeque<PieceTask>,
    pub chunks_tasks: VecDeque<ChunksTask>,
    pub torrent: Torrent,
    pub save_path: String,
    pub pieces_done: usize,
    pub status: DownloadStatus,
}

/// The position of the first record with info-hash `h`.
pub fn position_of(records: &Vec<TorrentBackupInfo>, info_hash: &Vec<u8>) -> (r: Option<usize>)
    ensures
        match r {
            Some(i) => i < records@.len() && records@[i as int].torrent.info_hash@ == info_hash@ && forall|q: int|
                0 <= q < i ==> (#[trigger] records@[q]).torrent.info_hash@ != info_hash@,
            None => forall|q: int|
                0 <= q < records@.len() ==> (#[trigger] records@[q]).torrent.info_hash@ != info_hash@,
        },
{
    let mut i: usize = 0;
    while i < records.len()
        invariant
            i <= records@.len(),
            forall|q: int| 0 <= q < i ==> (#[trigger] records@[q]).torrent.info_hash@ != info_hash@,
        decreases records@.len() - i,
    {
        if crate::bencode::keys_equal(records[i].torrent.info_hash.as_slice(), info_hash.as_slice()) {
            return Some(i);
        }
        i += 1;
    }
    None
}

/// Replaces the record with the same info-hash, or appends `data`.
pub fn upsert(records: &mut Vec<TorrentBackupInfo>, data: TorrentBackupInfo)
    ensures
        match position_spec(old(records)@, data.torrent.info_hash@) {
            Some(i) => final(records)@ == old(records)@.update(i, data),
            None => final(records)@ == old(records)@.push(data),
        },
{
    match position_of(records, &data.torrent.info_hash) {
        Some(i) => {
            proof {
                lemma_position_spec(old(records)@, data.torrent.info_hash@, i as int);
            }
            records.set(i, data);
        },
        None => {
            proof {
                lemma_position_spec_none(old(records)@, data.torrent.info_hash@);
            }
            records.push(data);
        },
    }
}

/// Removes the first record with info-hash `info_hash`, if any.
pub fn remove_by_info_hash(records: &mut Vec<TorrentBackupInfo>, info_hash: &Vec<u8>) -> (r: Option<
    TorrentBackupInfo,
>)
    ensures
        match position_spec(old(records)@, info_hash@) {
            Some(i) => final(records)@ == old(records)@.remove(i) && r == Some(old(records)@[i]),
            None => final(records)@ == old(records)@ && r is None,
        },
{
    match position_of(records, info_hash) {
        Some(i) => {
            proof {
                lemma_position_spec(old(records)@, info_hash@, i as int);
            }
            Some(records.remove(i))
        },
        None => {
            proof {
                lemma_position_spec_none(old(records)@, info_hash@);
            }
            None
        },
    }
}

/// The first position holding info-hash `h`.
pub open spec fn position_spec(v: Seq<TorrentBackupInfo>, h: Seq<u8>) -> Option<int> {
    if exists|i: int| 0 <= i < v.len() && (#[trigger] v[i]).torrent.info_hash@ == h {
        Some(
            choose|i: int|
                0 <= i < v.len() && (#[trigger] v[i]).torrent.info_hash@ == h && forall|q: int|
                    0 <= q < i ==> (#[trigger] v[q]).torrent.info_hash@ != h,
        )
    } else {
        None
    }
}

proof fn lemma_position_spec(v: Seq<TorrentBackupInfo>, h: Seq<u8>, i: int)
    requires
        0 <= i < v.len(),
        v[i].torrent.info_hash@ == h,
        forall|q: int| 0 <= q < i ==> (#[trigger] v[q]).torrent.info_hash@ != h,
    ensures
        position_spec(v, h) == Some(i),
{
    assert(exists|i: int| 0 <= i < v.len() && (#[trigger] v[i]).torrent.info_hash@ == h);
    let j = choose|j: int|
        0 <= j < v.len() && (#[trigger] v[j]).torrent.info_hash@ == h && forall|q: int|
            0 <= q < j ==> (#[trigger] v[q]).torrent.info_hash@ != h;
    if j < i {
        assert(v[j].torrent.info_hash@ != h);
    } else if j > i {
        assert(v[i].torrent.info_hash@ != h);
    }
}

proof fn lemma_position_spec_none(v: Seq<TorrentBackupInfo>, h: Seq<u8>)
    requires
        forall|q: int| 0 <= q < v.len() ==> (#[trigger] v[q]).torrent.info_hash@ != h,
    ensures
        position_spec(v, h) is None,
{
}

} // verus!
