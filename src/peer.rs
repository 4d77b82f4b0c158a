//! The peer wire protocol: message framing, the handshake, payloads, the
//! remote bitfield, and the requests of one batch.
use vstd::prelude::*;

use crate::bencode::copy_range;
use crate::bitmap::has_bit;
use crate::tasks::{ChunksTask, CHUNK_SIZE};
use crate::torrent::Torrent;

verus! {

/// A peer wire message. Payload-carrying variants hold the bytes after the
/// message id.
#[derive(Debug, PartialEq, Eq)]
pub enum PeerMessage {
    Choke,
    Unchoke,
    Interested,
    NotInterested,
    Have(u32),
    Bitfield(Vec<u8>),
    Request(Vec<u8>),
    Piece(Vec<u8>),
    Cancel(Vec<u8>),
    KeepAlive,
}

#[derive(Debug, PartialEq, Eq, Clone, Copy)]
pub enum PeerStatus {
    NotConnected,
    Choked,
    Unchoked,
}

/// Why bytes from a peer were refused.
#[derive(Debug, PartialEq, Eq, Clone, Copy)]
pub enum WireError {
    /// Unknown id, or a payload of the wrong size.
    BadMessage,
    /// The handshake reply is not 68 bytes.
    BadHandshake,
}

impl PeerMessage {
    /// The message's name, as logs show it.
    pub fn name(&self) -> (r: &'static str)
        ensures
            r@ == match *self {
                PeerMessage::Choke => "choke"@,
                PeerMessage::Unchoke => "unchoke"@,
                PeerMessage::Interested => "interested"@,
                PeerMessage::NotInterested => "not-interested"@,
                PeerMessage::Have(_) => "have"@,
                PeerMessage::Bitfield(_) => "bitfield"@,
                PeerMessage::Request(_) => "request"@,
                PeerMessage::Piece(_) => "piece"@,
                PeerMessage::Cancel(_) => "cancel"@,
                PeerMessage::KeepAlive => "keep-alive"@,
            },
    {
        match self {
            PeerMessage::Choke => "choke",
            PeerMessage::Unchoke => "unchoke",
            PeerMessage::Interested => "interested",
            PeerMessage::NotInterested => "not-interested",
            PeerMessage::Have(_) => "have",
            PeerMessage::Bitfield(_) => "bitfield",
            PeerMessage::Request(_) => "request",
            PeerMessage::Piece(_) => "piece",
            PeerMessage::Cancel(_) => "cancel",
            PeerMessage::KeepAlive => "keep-alive",
        }
    }
}

/// Big-endian bytes of a 32-bit integer.
pub open spec fn be32(n: u32) -> Seq<u8> {
    seq![(n >> 24u32) as u8, ((n >> 16u32) & 0xff) as u8, ((n >> 8u32) & 0xff) as u8, (n & 0xff) as u8]
}

/// The integer of four big-endian bytes.
pub open spec fn be32_value(s: Seq<u8>) -> int {
    s[0] * 0x100_0000 + s[1] * 0x1_0000 + s[2] * 0x100 + s[3]
}

pub open spec fn msg_id(m: PeerMessage) -> u8 {
    match m {
        PeerMessage::Choke => 0,
        PeerMessage::Unchoke => 1,
        PeerMessage::Interested => 2,
        PeerMessage::NotInterested => 3,
        PeerMessage::Have(_) => 4,
        PeerMessage::Bitfield(_) => 5,
        PeerMessage::Request(_) => 6,
        PeerMessage::Piece(_) => 7,
        PeerMessage::Cancel(_) => 8,
        PeerMessage::KeepAlive => 0,
    }
}

pub open spec fn payload(m: PeerMessage) -> Seq<u8> {
    match m {
        PeerMessage::Have(i) => be32(i),
        PeerMessage::Bitfield(b) => b@,
        PeerMessage::Request(b) => b@,
        PeerMessage::Piece(b) => b@,
        PeerMessage::Cancel(b) => b@,
        _ => seq![],
    }
}

/// What follows the length prefix: nothing for a keep-alive, else the id
/// and the payload.
pub open spec fn body(m: PeerMessage) -> Seq<u8> {
    match m {
        PeerMessage::KeepAlive => seq![],
        _ => seq![msg_id(m)] + payload(m),
    }
}

/// `<u32 big-endian length><body>`.
pub open spec fn frame(m: PeerMessage) -> Seq<u8> {
    be32(body(m).len() as u32) + body(m)
}

pub(crate) fn push_u32(buf: &mut Vec<u8>, n: u32)
    ensures
        final(buf)@ == old(buf)@ + be32(n),
{
    buf.push((n >> 24) as u8);
    buf.push(((n >> 16) & 0xff) as u8);
    buf.push(((n >> 8) & 0xff) as u8);
    buf.push((n & 0xff) as u8);
    assert(buf@ =~= old(buf)@ + be32(n));
}

pub(crate) fn push_all(buf: &mut Vec<u8>, b: &[u8])
    ensures
        final(buf)@ == old(buf)@ + b@,
{
    let mut i: usize = 0;
    while i < b.len()
        invariant
            i <= b.len(),
            buf@ == old(buf)@ + b@.subrange(0, i as int),
        decreases b.len() - i,
    {
        buf.push(b[i]);
        i += 1;
        assert(buf@ =~= old(buf)@ + b@.subrange(0, i as int));
    }
    assert(b@.subrange(0, b.len() as int) =~= b@);
}

/// Reads four big-endian bytes at `i`.
pub fn read_u32(b: &[u8], i: usize) -> (r: u32)
    requires
        i + 4 <= b.len(),
    ensures
        r == be32_value(b@.subrange(i as int, i + 4)),
{
    let r = (b[i] as u32) * 0x100_0000 + (b[i + 1] as u32) * 0x1_0000 + (b[i + 2] as u32) * 0x100 + b[i + 3] as u32;
    r
}

proof fn lemma_be32_roundtrip(n: u32)
    ensures
        be32_value(be32(n)) == n,
{
    assert(((n >> 24u32) as u8) as int * 0x100_0000 + (((n >> 16u32) & 0xff) as u8) as int * 0x1_0000 + (((n
        >> 8u32) & 0xff) as u8) as int * 0x100 + ((n & 0xff) as u8) as int == n) by (bit_vector);
}

/// A frame reads back as it was written: its length prefix is the length of
/// its body, and the body follows it.
pub proof fn lemma_frame_length(m: PeerMessage)
    requires
        body(m).len() <= u32::MAX,
    ensures
        be32_value(frame(m).subrange(0, 4)) == body(m).len(),
        frame(m).subrange(4, frame(m).len() as int) == body(m),
{
    lemma_be32_roundtrip(body(m).len() as u32);
    assert(frame(m).subrange(0, 4) =~= be32(body(m).len() as u32));
    assert(frame(m).subrange(4, frame(m).len() as int) =~= body(m));
}

/// The bytes of a message on the wire.
pub fn encode_message(msg: &PeerMessage) -> (r: Vec<u8>)
    requires
        payload(*msg).len() < u32::MAX,
    ensures
        r@ == frame(*msg),
{
    let mut buf: Vec<u8> = Vec::new();
    let (id, data): (u8, Option<&Vec<u8>>) = match msg {
        PeerMessage::KeepAlive => {
            push_u32(&mut buf, 0);
            return buf;
        },
        PeerMessage::Choke => (0, None),
        PeerMessage::Unchoke => (1, None),
        PeerMessage::Interested => (2, None),
        PeerMessage::NotInterested => (3, None),
        PeerMessage::Have(i) => {
            push_u32(&mut buf, 5);
            buf.push(4);
            push_u32(&mut buf, *i);
            assert(buf@ =~= frame(*msg));
            return buf;
        },
        PeerMessage::Bitfield(b) => (5, Some(b)),
        PeerMessage::Request(b) => (6, Some(b)),
        PeerMessage::Piece(b) => (7, Some(b)),
        PeerMessage::Cancel(b) => (8, Some(b)),
    };
    match data {
        None => {
            push_u32(&mut buf, 1);
            buf.push(id);
        },
        Some(b) => {
            push_u32(&mut buf, (b.len() + 1) as u32);
            buf.push(id);
            push_all(&mut buf, b.as_slice());
        },
    }
    assert(buf@ =~= frame(*msg));
    buf
}

/// Reads a message from its body: the bytes after the length prefix.
pub fn decode_body(b: &[u8]) -> (r: Result<PeerMessage, WireError>)
    ensures
        match r {
            Ok(m) => body(m) == b@,
            Err(_) => !(b@.len() == 0 || (b@[0] <= 3 && b@.len() == 1) || (b@[0] == 4 && b@.len() == 5) || (5
                <= b@[0] <= 8)),
        },
{
    if b.len() == 0 {
        return Ok(PeerMessage::KeepAlive);
    }
    let id = b[0];
    if id <= 3 {
        if b.len() != 1 {
            return Err(WireError::BadMessage);
        }
        let m = if id == 0 {
            PeerMessage::Choke
        } else if id == 1 {
            PeerMessage::Unchoke
        } else if id == 2 {
            PeerMessage::Interested
        } else {
            PeerMessage::NotInterested
        };
        assert(body(m) =~= b@);
        return Ok(m);
    }
    if id == 4 {
        if b.len() != 5 {
            return Err(WireError::BadMessage);
        }
        let i = read_u32(b, 1);
        proof {
            let s = b@.subrange(1, 5);
            assert(be32(i) =~= s) by {
                assert(i == be32_value(s));
                let (a0, a1, a2, a3) = (s[0], s[1], s[2], s[3]);
                assert(((i >> 24u32) as u8) == a0 && (((i >> 16u32) & 0xff) as u8) == a1 && (((i >> 8u32) & 0xff)
                    as u8) == a2 && ((i & 0xff) as u8) == a3) by (bit_vector)
                    requires
                        i == a0 as u32 * 0x100_0000u32 + a1 as u32 * 0x1_0000u32 + a2 as u32 * 0x100u32 + a3 as u32,
                ;
            }
            assert(body(PeerMessage::Have(i)) =~= b@);
        }
        return Ok(PeerMessage::Have(i));
    }
    if id > 8 {
        return Err(WireError::BadMessage);
    }
    let data = copy_range(b, 1, b.len());
    let m = if id == 5 {
        PeerMessage::Bitfield(data)
    } else if id == 6 {
        PeerMessage::Request(data)
    } else if id == 7 {
        PeerMessage::Piece(data)
    } else {
        PeerMessage::Cancel(data)
    };
    assert(body(m) =~= b@);
    Ok(m)
}


/// `BitTorrent protocol`
pub open spec fn protocol_name() -> Seq<u8> {
    seq![66u8, 105, 116, 84, 111, 114, 114, 101, 110, 116, 32, 112, 114, 111, 116, 111, 99, 111, 108]
}

/// `<u8 19>"BitTorrent protocol"<8 zero bytes><info_hash><peer_id>`
pub open spec fn handshake_bytes(info_hash: Seq<u8>, peer_id: Seq<u8>) -> Seq<u8> {
    seq![19u8] + protocol_name() + Seq::new(8, |i: int| 0u8) + info_hash + peer_id
}

/// Our side of the handshake.
pub fn handshake(info_hash: &Vec<u8>, peer_id: &Vec<u8>) -> (r: Vec<u8>)
    requires
        info_hash@.len() == 20,
        peer_id@.len() == 20,
    ensures
        r@ == handshake_bytes(info_hash@, peer_id@),
        r@.len() == 68,
{
    let mut msg: Vec<u8> = Vec::new();
    msg.push(19u8);
    let name: Vec<u8> = vec![66u8, 105, 116, 84, 111, 114, 114, 101, 110, 116, 32, 112, 114, 111, 116, 111, 99, 111, 108];
    assert(name@ =~= protocol_name());
    push_all(&mut msg, name.as_slice());
    let zeros: Vec<u8> = vec![0u8, 0, 0, 0, 0, 0, 0, 0];
    assert(zeros@ =~= Seq::new(8, |i: int| 0u8));
    push_all(&mut msg, zeros.as_slice());
    push_all(&mut msg, info_hash.as_slice());
    push_all(&mut msg, peer_id.as_slice());
    assert(msg@ =~= handshake_bytes(info_hash@, peer_id@));
    msg
}

/// Lowercase hex digit of a value below 16.
pub open spec fn hex_digit(v: int) -> char {
    if v < 10 {
        ((48 + v) as u8) as char
    } else {
        ((87 + v) as u8) as char
    }
}

/// Two lowercase hex digits per byte, high nibble first.
pub open spec fn hex_of(b: Seq<u8>) -> Seq<char>
    decreases b.len(),
{
    if b.len() == 0 {
        seq![]
    } else {
        hex_of(b.drop_last()) + seq![hex_digit(b.last() as int / 16), hex_digit(b.last() as int % 16)]
    }
}

/// Relies on `hex::encode`: each byte as two lowercase hex digits, high
/// nibble first, in order.
#[verifier::external_body]
fn to_hex(b: &[u8]) -> (r: String)
    ensures
        r@ == hex_of(b@),
{
    hex::encode(b)
}

/// The remote peer id, in hex, from the peer's 68-byte handshake reply.
pub fn parse_handshake(resp: &[u8]) -> (r: Result<String, WireError>)
    ensures
        match r {
            Ok(id) => resp@.len() == 68 && id@ == hex_of(resp@.subrange(48, 68)),
            Err(_) => resp@.len() != 68,
        },
{
    if resp.len() != 68 {
        return Err(WireError::BadHandshake);
    }
    let id = copy_range(resp, 48, 68);
    Ok(to_hex(id.as_slice()))
}

/// The payload of a `request` (and of a `cancel`).
pub fn request_payload(piece: u32, begin: u32, length: u32) -> (r: Vec<u8>)
    ensures
        r@ == be32(piece) + be32(begin) + be32(length),
{
    let mut buf: Vec<u8> = Vec::new();
    push_u32(&mut buf, piece);
    push_u32(&mut buf, begin);
    push_u32(&mut buf, length);
    buf
}

/// The payload of a `piece` message: index, offset, then the block.
pub fn piece_payload(piece: u32, begin: u32, block: &[u8]) -> (r: Vec<u8>)
    ensures
        r@ == be32(piece) + be32(begin) + block@,
{
    let mut buf: Vec<u8> = Vec::new();
    push_u32(&mut buf, piece);
    push_u32(&mut buf, begin);
    push_all(&mut buf, block);
    buf
}

/// The fields of a `request` payload; extra bytes are ignored.
pub fn parse_request(buf: &[u8]) -> (r: Option<(u32, u32, u32)>)
    ensures
        match r {
            Some((p, b, l)) => buf@.len() >= 12 && p == be32_value(buf@.subrange(0, 4)) && b == be32_value(
                buf@.subrange(4, 8),
            ) && l == be32_value(buf@.subrange(8, 12)),
            None => buf@.len() < 12,
        },
{
    if buf.len() < 12 {
        return None;
    }
    Some((read_u32(buf, 0), read_u32(buf, 4), read_u32(buf, 8)))
}

/// A block received in a `piece` payload: piece index, offset, bytes.
#[derive(Debug)]
pub struct DataPiece {
    pub buf: Vec<u8>,
    pub piece_i: u64,
    pub begin: u64,
}

/// Splits a `piece` payload into index, offset and block.
pub fn parse_piece(buf: &[u8]) -> (r: Option<DataPiece>)
    ensures
        match r {
            Some(d) => buf@.len() >= 8 && d.piece_i == be32_value(buf@.subrange(0, 4)) && d.begin == be32_value(
                buf@.subrange(4, 8),
            ) && d.buf@ == buf@.subrange(8, buf@.len() as int),
            None => buf@.len() < 8,
        },
{
    if buf.len() < 8 {
        return None;
    }
    let piece_i = read_u32(buf, 0) as u64;
    let begin = read_u32(buf, 4) as u64;
    Some(DataPiece { buf: copy_range(buf, 8, buf.len()), piece_i, begin })
}

/// The byte length of chunk `i` of piece `p`: a full chunk, except the
/// last chunk of a piece, which holds what remains of it.
pub open spec fn chunk_len(t: Torrent, p: int, i: int) -> int {
    let rest = t.piece_len(p) - i * CHUNK_SIZE;
    if rest < CHUNK_SIZE {
        rest
    } else {
        CHUNK_SIZE as int
    }
}

/// The `(begin, length)` of each request of a batch, in chunk order.
pub fn chunk_requests(torrent: &Torrent, task: &ChunksTask) -> (r: Vec<(u32, u32)>)
    requires
        torrent.wf(),
        (task.piece_i as int) < torrent.piece_count(),
        task.chunks.start <= task.chunks.end,
        task.chunks.end * CHUNK_SIZE < torrent.piece_len(task.piece_i as int) + CHUNK_SIZE,
        torrent.info.piece_length <= u32::MAX,
    ensures
        r@.len() == task.chunks.end - task.chunks.start,
        forall|k: int|
            0 <= k < r@.len() ==> {
                let i = task.chunks.start + k;
                &&& (#[trigger] r@[k]).0 == i * CHUNK_SIZE
                &&& r@[k].1 == chunk_len(*torrent, task.piece_i as int, i)
            },
{
    let plen = torrent.get_piece_length(task.piece_i as usize);
    let mut out: Vec<(u32, u32)> = Vec::new();
    let mut i: u32 = task.chunks.start;
    while i < task.chunks.end
        invariant
            task.chunks.start <= i <= task.chunks.end,
            plen == torrent.piece_len(task.piece_i as int),
            plen <= torrent.info.piece_length <= u32::MAX,
            task.chunks.end * CHUNK_SIZE < plen + CHUNK_SIZE,
            out@.len() == i - task.chunks.start,
            forall|k: int|
                0 <= k < out@.len() ==> {
                    let c = task.chunks.start + k;
                    &&& (#[trigger] out@[k]).0 == c * CHUNK_SIZE
                    &&& out@[k].1 == chunk_len(*torrent, task.piece_i as int, c)
                },
        decreases task.chunks.end - i,
    {
        let begin: u64 = i as u64 * CHUNK_SIZE;
        assert(begin < plen);
        let rest = plen - begin;
        let length = if rest < CHUNK_SIZE { rest } else { CHUNK_SIZE };
        out.push((begin as u32, length as u32));
        i += 1;
    }
    out
}

/// What we know of a remote peer: the connection state and its bitfield,
/// unknown until a `bitfield` or `have` arrives.
pub struct PeerState {
    pub status: PeerStatus,
    pub peer_bitfield: Option<Vec<u8>>,
}

/// Whether a bitfield has bit `i` set (positions past its end are clear).
pub open spec fn field_has(b: Seq<u8>, i: int) -> bool {
    i / 8 < b.len() && has_bit(b, i)
}

/// A remote peer is taken to have piece `i` until its bitfield says
/// otherwise.
pub open spec fn peer_has(s: PeerState, i: int) -> bool {
    match s.peer_bitfield {
        None => true,
        Some(b) => field_has(b@, i),
    }
}

/// Where an incoming message leaves us, and what to do about it.
#[derive(Debug)]
pub enum PeerAction {
    /// Nothing to do.
    Nothing,
    /// The peer choked us: the batch fails and the session goes back to choked.
    Choked,
    /// A block arrived: hand it to the saver.
    Deliver(DataPiece),
    /// The peer is interested: answer `unchoke`.
    SendUnchoke,
    /// The peer asks for a block we may hold: serve it if we do.
    Serve(u32, u32, u32),
}

impl PeerState {
    pub fn new() -> (r: Self)
        ensures
            r.status == PeerStatus::NotConnected,
            r.peer_bitfield is None,
    {
        PeerState { status: PeerStatus::NotConnected, peer_bitfield: None }
    }

    /// Whether the peer has piece `piece_i`; true while no bitfield is known.
    pub fn have_piece(&self, piece_i: usize) -> (r: bool)
        ensures
            r == peer_has(*self, piece_i as int),
    {
        match &self.peer_bitfield {
            None => true,
            Some(b) => {
                if piece_i / 8 < b.len() {
                    b[piece_i / 8] & (128u8 >> (piece_i % 8) as u8) != 0
                } else {
                    false
                }
            },
        }
    }

    /// The requests of a batch, or none while the peer keeps us choked:
    /// no block is requested unless the session is unchoked.
    pub fn batch_requests(&self, torrent: &Torrent, task: &ChunksTask) -> (r: Option<Vec<(u32, u32)>>)
        requires
            torrent.wf(),
            (task.piece_i as int) < torrent.piece_count(),
            task.chunks.start <= task.chunks.end,
            task.chunks.end * CHUNK_SIZE < torrent.piece_len(task.piece_i as int) + CHUNK_SIZE,
            torrent.info.piece_length <= u32::MAX,
        ensures
            r is Some <==> self.status == PeerStatus::Unchoked,
            r matches Some(v) ==> v@.len() == task.chunks.end - task.chunks.start && forall|k: int|
                0 <= k < v@.len() ==> {
                    let i = task.chunks.start + k;
                    &&& (#[trigger] v@[k]).0 == i * CHUNK_SIZE
                    &&& v@[k].1 == chunk_len(*torrent, task.piece_i as int, i)
                },
    {
        match self.status {
            PeerStatus::Unchoked => Some(chunk_requests(torrent, task)),
            _ => None,
        }
    }

    /// A `have(i)`: sets bit `i`, growing the bitfield when needed.
    pub fn record_have(&mut self, i: u32)
        ensures
            final(self).status == old(self).status,
            final(self).peer_bitfield is Some,
            forall|j: int|
                0 <= j ==> (#[trigger] peer_has(*final(self), j) <==> (j == i || (old(self).peer_bitfield is Some
                    && peer_has(*old(self), j)))),
            old(self).peer_bitfield matches Some(b) ==> b@.len() <= final(self).peer_bitfield->Some_0@.len(),
    {
        let cell = (i / 8) as usize;
        let mut b = match self.peer_bitfield.take() {
            Some(b) => b,
            None => Vec::new(),
        };
        let ghost old_b = b@;
        let ghost had = old(self).peer_bitfield is Some;
        assert(had ==> old_b == old(self).peer_bitfield->Some_0@);
        assert(!had ==> old_b.len() == 0);
        while b.len() <= cell
            invariant
                old_b.len() <= b@.len(),
                b@.subrange(0, old_b.len() as int) == old_b,
                forall|q: int| old_b.len() <= q < b@.len() ==> #[trigger] b@[q] == 0,
            decreases cell + 1 - b.len(),
        {
            b.push(0);
        }
        let ghost grown = b@;
        let k = (i % 8) as u8;
        let old_cell = b[cell];
        b.set(cell, old_cell | (128u8 >> k));
        proof {
            assert forall|j: int| 0 <= j implies #[trigger] field_has(b@, j) <==> (j == i || (had && field_has(old_b, j))) by {
                if j / 8 < b@.len() {
                    let jj = (j % 8) as u8;
                    crate::bitmap::lemma_set_bit_pub(grown[j / 8], k, jj);
                    if j / 8 < old_b.len() {
                        assert(grown[j / 8] == old_b[j / 8]);
                    } else {
                        assert(grown[j / 8] == 0);
                        assert(0u8 & (128u8 >> jj) == 0) by (bit_vector);
                    }
                    if j / 8 == cell && j % 8 == k {
                        assert(j == i);
                    }
                }
            }
        }
        self.peer_bitfield = Some(b);
    }

    /// Decides what an incoming message means for the session.
    pub fn on_message(&mut self, msg: PeerMessage) -> (r: PeerAction)
        ensures
            match msg {
                PeerMessage::Bitfield(b) => final(self).peer_bitfield == Some(b) && r is Nothing,
                PeerMessage::Have(i) => r is Nothing && final(self).peer_bitfield is Some && (old(
                    self,
                ).peer_bitfield matches Some(b) ==> b@.len() <= final(self).peer_bitfield->Some_0@.len()) && forall|j: int|
                    0 <= j ==> (#[trigger] peer_has(*final(self), j) <==> (j == i || (old(self).peer_bitfield is Some
                        && peer_has(*old(self), j)))),
                PeerMessage::Unchoke => final(self).status == PeerStatus::Unchoked && r is Nothing,
                PeerMessage::Choke => final(self).status == PeerStatus::Choked && r is Choked,
                PeerMessage::Interested => r is SendUnchoke && *final(self) == *old(self),
                PeerMessage::Piece(b) => *final(self) == *old(self) && match r {
                    PeerAction::Deliver(d) => b@.len() >= 8 && d.piece_i == be32_value(b@.subrange(0, 4))
                        && d.begin == be32_value(b@.subrange(4, 8)) && d.buf@ == b@.subrange(8, b@.len() as int),
                    PeerAction::Nothing => b@.len() < 8,
                    _ => false,
                },
                PeerMessage::Request(b) => *final(self) == *old(self) && match r {
                    PeerAction::Serve(p, o, l) => b@.len() >= 12 && l <= CHUNK_SIZE && p == be32_value(
                        b@.subrange(0, 4),
                    ) && o == be32_value(b@.subrange(4, 8)) && l == be32_value(b@.subrange(8, 12)),
                    PeerAction::Nothing => b@.len() < 12 || be32_value(b@.subrange(8, 12)) > CHUNK_SIZE,
                    _ => false,
                },
                _ => *final(self) == *old(self) && r is Nothing,
            },
    {
        match msg {
            PeerMessage::Bitfield(b) => {
                self.peer_bitfield = Some(b);
                PeerAction::Nothing
            },
            PeerMessage::Have(i) => {
                self.record_have(i);
                PeerAction::Nothing
            },
            PeerMessage::Unchoke => {
                self.status = PeerStatus::Unchoked;
                PeerAction::Nothing
            },
            PeerMessage::Choke => {
                self.status = PeerStatus::Choked;
                PeerAction::Choked
            },
            PeerMessage::Interested => PeerAction::SendUnchoke,
            PeerMessage::Piece(b) => match parse_piece(b.as_slice()) {
                Some(d) => PeerAction::Deliver(d),
                None => PeerAction::Nothing,
            },
            PeerMessage::Request(b) => match parse_request(b.as_slice()) {
                Some((p, o, l)) => {
                    if l as u64 <= CHUNK_SIZE {
                        PeerAction::Serve(p, o, l)
                    } else {
                        PeerAction::Nothing
                    }
                },
                None => PeerAction::Nothing,
            },
            _ => PeerAction::Nothing,
        }
    }
}

/// How an I/O failure on a peer connection is classified.
#[derive(Debug, PartialEq, Eq, Clone, Copy)]
pub enum IoFailure {
    BrokenPipe,
    NotConnected,
    ConnectionReset,
    ConnectionRefused,
    UnexpectedEof,
    Other,
}

/// A lost connection is worth one reconnect; any other failure drops the peer.
pub fn should_reconnect(kind: IoFailure) -> (r: bool)
    ensures
        r == !(kind == IoFailure::Other),
{
    match kind {
        IoFailure::Other => false,
        _ => true,
    }
}

/// Seconds to wait for `unchoke` after the `attempt`-th `interested`
/// (from 0): 1, 4, 7, then give up.
pub fn unchoke_wait(attempt: u8) -> (r: Option<u64>)
    ensures
        attempt < 3 ==> r == Some((1 + 3 * attempt) as u64),
        attempt >= 3 ==> r is None,
{
    if attempt < 3 {
        Some(1 + 3 * attempt as u64)
    } else {
        None
    }
}

} // verus!
