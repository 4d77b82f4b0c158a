//! Tracker requests and responses: the HTTP announce query and its
//! bencoded reply, and the two rounds of the UDP protocol.
use vstd::prelude::*;
use vstd::string::StringExecFns;

use crate::bencode::{dec, lookup, parse, write_dec, BencodeValue};
use crate::peer::{be32, be32_value, push_all, push_u32, read_u32};
use crate::display::{append_dec, dec_chars};
use crate::torrent::{as_bytes, as_num, Torrent};

verus! {

/// The announce parameters of one torrent.
pub struct TrackerReq {
    pub info_hash: Vec<u8>,
    pub peer_id: Vec<u8>,
    pub port: u32,
    pub uploaded: u64,
    pub downloaded: u64,
    pub left: u64,
}

/// What a tracker answered: seconds until the next announce, and peer
/// endpoints as `a.b.c.d:port`.
pub struct TrackerResp {
    pub interval: i64,
    pub peers: Vec<String>,
}

/// Why an announce failed.
#[derive(Debug, PartialEq, Eq, Clone, Copy)]
pub enum TrackerError {
    TrackerTimeout,
    TrackerProtocol,
}

/// The port we announce.
pub const LISTEN_PORT: u32 = 6681;

pub open spec fn is_alnum(c: u8) -> bool {
    (48 <= c <= 57) || (65 <= c <= 90) || (97 <= c <= 122)
}

/// Relies on `rand::distributions::Alphanumeric`: twenty bytes, each drawn
/// from `A-Z`, `a-z` and `0-9`.
#[verifier::external_body]
fn random_peer_id() -> (r: Vec<u8>)
    ensures
        r@.len() == 20,
        forall|i: int| 0 <= i < 20 ==> is_alnum(#[trigger] r@[i]),
{
    <rand::distributions::Alphanumeric as rand::distributions::Distribution<u8>>::sample_iter(
        rand::distributions::Alphanumeric,
        rand::thread_rng(),
    ).take(20).collect()
}

impl TrackerReq {
    /// A first announce for `torrent`, with a fresh random peer id.
    pub fn init(torrent: &Torrent) -> (r: Self)
        ensures
            r.info_hash@ == torrent.info_hash@,
            r.peer_id@.len() == 20,
            forall|i: int| 0 <= i < 20 ==> is_alnum(#[trigger] r.peer_id@[i]),
            r.port == LISTEN_PORT,
            r.uploaded == 0,
            r.downloaded == 0,
            r.left == torrent.info.length,
    {
        let mut info_hash: Vec<u8> = Vec::new();
        push_all(&mut info_hash, torrent.info_hash.as_slice());
        TrackerReq {
            info_hash,
            peer_id: random_peer_id(),
            port: LISTEN_PORT,
            uploaded: 0,
            downloaded: 0,
            left: torrent.info.length,
        }
    }
}

pub open spec fn q_info_hash() -> Seq<u8> {
    seq![63u8, 105, 110, 102, 111, 95, 104, 97, 115, 104, 61]
}

fn push_q_info_hash(buf: &mut Vec<u8>)
    ensures
        final(buf)@ == old(buf)@ + q_info_hash(),
{
    let lit: Vec<u8> = vec![63u8, 105, 110, 102, 111, 95, 104, 97, 115, 104, 61];
    assert(lit@ =~= q_info_hash());
    push_all(buf, lit.as_slice());
}

pub open spec fn q_peer_id() -> Seq<u8> {
    seq![38u8, 112, 101, 101, 114, 95, 105, 100, 61]
}

fn push_q_peer_id(buf: &mut Vec<u8>)
    ensures
        final(buf)@ == old(buf)@ + q_peer_id(),
{
    let lit: Vec<u8> = vec![38u8, 112, 101, 101, 114, 95, 105, 100, 61];
    assert(lit@ =~= q_peer_id());
    push_all(buf, lit.as_slice());
}

pub open spec fn q_port() -> Seq<u8> {
    seq![38u8, 112, 111, 114, 116, 61]
}

fn push_q_port(buf: &mut Vec<u8>)
    ensures
        final(buf)@ == old(buf)@ + q_port(),
{
    let lit: Vec<u8> = vec![38u8, 112, 111, 114, 116, 61];
    assert(lit@ =~= q_port());
    push_all(buf, lit.as_slice());
}

pub open spec fn q_uploaded() -> Seq<u8> {
    seq![38u8, 117, 112, 108, 111, 97, 100, 101, 100, 61]
}

fn push_q_uploaded(buf: &mut Vec<u8>)
    ensures
        final(buf)@ == old(buf)@ + q_uploaded(),
{
    let lit: Vec<u8> = vec![38u8, 117, 112, 108, 111, 97, 100, 101, 100, 61];
    assert(lit@ =~= q_uploaded());
    push_all(buf, lit.as_slice());
}

pub open spec fn q_downloaded() -> Seq<u8> {
    seq![38u8, 100, 111, 119, 110, 108, 111, 97, 100, 101, 100, 61]
}

fn push_q_downloaded(buf: &mut Vec<u8>)
    ensures
        final(buf)@ == old(buf)@ + q_downloaded(),
{
    let lit: Vec<u8> = vec![38u8, 100, 111, 119, 110, 108, 111, 97, 100, 101, 100, 61];
    assert(lit@ =~= q_downloaded());
    push_all(buf, lit.as_slice());
}

pub open spec fn q_left() -> Seq<u8> {
    seq![38u8, 108, 101, 102, 116, 61]
}

fn push_q_left(buf: &mut Vec<u8>)
    ensures
        final(buf)@ == old(buf)@ + q_left(),
{
    let lit: Vec<u8> = vec![38u8, 108, 101, 102, 116, 61];
    assert(lit@ =~= q_left());
    push_all(buf, lit.as_slice());
}

pub open spec fn q_compact() -> Seq<u8> {
    seq![38u8, 99, 111, 109, 112, 97, 99, 116, 61, 49]
}

fn push_q_compact(buf: &mut Vec<u8>)
    ensures
        final(buf)@ == old(buf)@ + q_compact(),
{
    let lit: Vec<u8> = vec![38u8, 99, 111, 109, 112, 97, 99, 116, 61, 49];
    assert(lit@ =~= q_compact());
    push_all(buf, lit.as_slice());
}

pub open spec fn hex_byte(v: int) -> u8 {
    if v < 10 {
        (48 + v) as u8
    } else {
        (87 + v) as u8
    }
}

/// Every byte as `%xx`, lowercase.
pub open spec fn pct(b: Seq<u8>) -> Seq<u8>
    decreases b.len(),
{
    if b.len() == 0 {
        seq![]
    } else {
        pct(b.drop_last()) + seq![37u8, hex_byte(b.last() as int / 16), hex_byte(b.last() as int % 16)]
    }
}

fn push_pct(buf: &mut Vec<u8>, b: &[u8])
    ensures
        final(buf)@ == old(buf)@ + pct(b@),
{
    let mut i: usize = 0;
    assert(b@.subrange(0, 0) =~= seq![]);
    while i < b.len()
        invariant
            i <= b.len(),
            buf@ == old(buf)@ + pct(b@.subrange(0, i as int)),
        decreases b.len() - i,
    {
        let v = b[i];
        let hi = v / 16;
        let lo = v % 16;
        buf.push(37u8);
        buf.push(if hi < 10 { 48 + hi } else { 87 + hi });
        buf.push(if lo < 10 { 48 + lo } else { 87 + lo });
        assert(b@.subrange(0, i + 1).drop_last() =~= b@.subrange(0, i as int));
        i += 1;
        assert(buf@ =~= old(buf)@ + pct(b@.subrange(0, i as int)));
    }
    assert(b@.subrange(0, b.len() as int) =~= b@);
}

/// `?info_hash=..&peer_id=..&port=..&uploaded=..&downloaded=..&left=..&compact=1`
pub open spec fn query_of(r: TrackerReq) -> Seq<u8> {
    q_info_hash() + pct(r.info_hash@) + q_peer_id() + pct(r.peer_id@) + q_port() + dec(r.port as nat)
        + q_uploaded() + dec(r.uploaded as nat) + q_downloaded() + dec(r.downloaded as nat) + q_left() + dec(
        r.left as nat,
    ) + q_compact()
}

/// The query string of an HTTP announce, to append to the tracker URL.
pub fn announce_query(req: &TrackerReq) -> (r: Vec<u8>)
    ensures
        r@ == query_of(*req),
{
    let mut buf: Vec<u8> = Vec::new();
    push_q_info_hash(&mut buf);
    push_pct(&mut buf, req.info_hash.as_slice());
    push_q_peer_id(&mut buf);
    push_pct(&mut buf, req.peer_id.as_slice());
    push_q_port(&mut buf);
    write_dec(req.port as u64, &mut buf);
    push_q_uploaded(&mut buf);
    write_dec(req.uploaded, &mut buf);
    push_q_downloaded(&mut buf);
    write_dec(req.downloaded, &mut buf);
    push_q_left(&mut buf);
    write_dec(req.left, &mut buf);
    push_q_compact(&mut buf);
    assert(buf@ =~= query_of(*req));
    buf
}

/// `a.b.c.d:port` of a 6-byte compact peer record.
pub open spec fn endpoint_text(r: Seq<u8>) -> Seq<char> {
    dec_chars(r[0] as nat) + "."@ + dec_chars(r[1] as nat) + "."@ + dec_chars(r[2] as nat) + "."@ + dec_chars(
        r[3] as nat,
    ) + ":"@ + dec_chars((r[4] * 256 + r[5]) as nat)
}

/// The endpoints of compact peer records starting at `start`, one per whole
/// 6-byte record.
fn compact_peers(b: &[u8], start: usize) -> (r: Vec<String>)
    requires
        start <= b.len(),
    ensures
        r@.len() == (b@.len() - start) / 6,
        forall|k: int|
            0 <= k < r@.len() ==> (#[trigger] r@[k])@ == endpoint_text(b@.subrange(start + 6 * k, start + 6 * k + 6)),
{
    let n = (b.len() - start) / 6;
    let mut out: Vec<String> = Vec::new();
    let mut k: usize = 0;
    while k < n
        invariant
            start <= b.len(),
            n == (b@.len() - start) / 6,
            k <= n,
            out@.len() == k,
            forall|q: int|
                0 <= q < k ==> (#[trigger] out@[q])@ == endpoint_text(b@.subrange(start + 6 * q, start + 6 * q + 6)),
        decreases n - k,
    {
        let o = start + 6 * k;
        let mut text = String::new();
        append_dec(&mut text, b[o] as u64);
        text.append(".");
        append_dec(&mut text, b[o + 1] as u64);
        text.append(".");
        append_dec(&mut text, b[o + 2] as u64);
        text.append(".");
        append_dec(&mut text, b[o + 3] as u64);
        text.append(":");
        append_dec(&mut text, b[o + 4] as u64 * 256 + b[o + 5] as u64);
        let ghost rec = b@.subrange(o as int, o + 6);
        assert(text@ =~= endpoint_text(rec));
        out.push(text);
        k += 1;
    }
    out
}

/// An HTTP announce reply: a bencoded dictionary with a numeric `interval`
/// and a compact `peers` string.
pub open spec fn http_reply_ok(b: Seq<u8>) -> bool {
    &&& parse(b) is Some
    &&& as_bytes(lookup(parse(b)->Some_0.0, k_peers())) is Some
    &&& as_num(lookup(parse(b)->Some_0.0, k_interval())) is Some
}

pub open spec fn k_peers() -> Seq<u8> {
    seq![112u8, 101, 101, 114, 115]
}

pub open spec fn k_interval() -> Seq<u8> {
    seq![105u8, 110, 116, 101, 114, 118, 97, 108]
}

/// Reads an HTTP tracker reply.
pub fn parse_tracker_response(body: &[u8]) -> (r: Result<TrackerResp, TrackerError>)
    ensures
        r is Ok <==> http_reply_ok(body@),
        r is Err ==> r == Err::<TrackerResp, TrackerError>(TrackerError::TrackerProtocol),
        r matches Ok(resp) ==> {
            let v = parse(body@)->Some_0.0;
            let p = as_bytes(lookup(v, k_peers()))->0;
            &&& resp.interval == as_num(lookup(v, k_interval()))->0
            &&& resp.peers@.len() == p.len() / 6
            &&& forall|k: int|
                0 <= k < resp.peers@.len() ==> (#[trigger] resp.peers@[k])@ == endpoint_text(p.subrange(6 * k, 6 * k + 6))
        },
{
    let (v, _) = match BencodeValue::decode_bencoded_value(body) {
        Ok(x) => x,
        Err(_) => {
            return Err(TrackerError::TrackerProtocol);
        },
    };
    let kp: Vec<u8> = vec![112u8, 101, 101, 114, 115];
    assert(kp@ =~= k_peers());
    let ki: Vec<u8> = vec![105u8, 110, 116, 101, 114, 118, 97, 108];
    assert(ki@ =~= k_interval());
    let peers = match v.get(kp.as_slice()) {
        Some(BencodeValue::Bytes(b)) => b,
        _ => {
            return Err(TrackerError::TrackerProtocol);
        },
    };
    let interval = match v.get(ki.as_slice()) {
        Some(BencodeValue::Num(n)) => *n,
        _ => {
            return Err(TrackerError::TrackerProtocol);
        },
    };
    let list = compact_peers(peers.as_slice(), 0);
    Ok(TrackerResp { interval, peers: list })
}

/// The interval to wait before the next announce, in seconds: the
/// tracker's value held within 60 s and 1800 s.
pub fn clamp_interval(interval: i64) -> (r: u64)
    ensures
        r == if interval < 60 {
            60
        } else if interval > 1800 {
            1800
        } else {
            interval as int
        },
{
    if interval < 60 {
        60
    } else if interval > 1800 {
        1800
    } else {
        interval as u64
    }
}


/// Big-endian bytes of a 64-bit integer.
pub open spec fn be64(n: u64) -> Seq<u8> {
    be32((n >> 32u64) as u32) + be32((n & 0xffff_ffff) as u32)
}

fn push_u64(buf: &mut Vec<u8>, n: u64)
    ensures
        final(buf)@ == old(buf)@ + be64(n),
{
    push_u32(buf, (n >> 32) as u32);
    push_u32(buf, (n & 0xffff_ffff) as u32);
    assert(buf@ =~= old(buf)@ + be64(n));
}

/// The constant that opens a UDP connect request.
pub const UDP_MAGIC: u64 = 0x41727101980;

/// `{magic, action = 0, transaction_id}`
pub open spec fn connect_bytes(tid: u32) -> Seq<u8> {
    be64(UDP_MAGIC) + be32(0) + be32(tid)
}

/// The 16-byte connect request.
pub fn connect_request(transaction_id: u32) -> (r: Vec<u8>)
    ensures
        r@ == connect_bytes(transaction_id),
{
    let mut buf: Vec<u8> = Vec::new();
    push_u64(&mut buf, UDP_MAGIC);
    push_u32(&mut buf, 0);
    push_u32(&mut buf, transaction_id);
    buf
}

/// The connection id of a connect reply, which must be at least 16 bytes,
/// carry action 0 and echo our transaction id.
pub fn parse_connect_response(buf: &[u8], transaction_id: u32) -> (r: Result<u64, TrackerError>)
    ensures
        r is Ok <==> (buf@.len() >= 16 && be32_value(buf@.subrange(0, 4)) == 0 && be32_value(buf@.subrange(4, 8))
            == transaction_id),
        r matches Ok(c) ==> c == be32_value(buf@.subrange(8, 12)) * 0x1_0000_0000 + be32_value(
            buf@.subrange(12, 16),
        ),
        r is Err ==> r == Err::<u64, TrackerError>(TrackerError::TrackerProtocol),
{
    if buf.len() < 16 {
        return Err(TrackerError::TrackerProtocol);
    }
    let action = read_u32(buf, 0);
    let tid = read_u32(buf, 4);
    if action != 0 || tid != transaction_id {
        return Err(TrackerError::TrackerProtocol);
    }
    let hi = read_u32(buf, 8) as u64;
    let lo = read_u32(buf, 12) as u64;
    Ok(hi * 0x1_0000_0000 + lo)
}

/// `{connection_id, action = 1, transaction_id, info_hash, peer_id,
/// downloaded, left, uploaded, event = 0, ip = 0, key = 0, num_want = -1,
/// port}`
pub open spec fn announce_bytes(conn: u64, tid: u32, req: TrackerReq) -> Seq<u8> {
    be64(conn) + be32(1) + be32(tid) + req.info_hash@ + req.peer_id@ + be64(req.downloaded) + be64(req.left)
        + be64(req.uploaded) + be32(0) + be32(0) + be32(0) + be32(0xffff_ffff) + be32(req.port).subrange(2, 4)
}

/// The UDP announce request.
pub fn announce_request(connection_id: u64, transaction_id: u32, req: &TrackerReq) -> (r: Vec<u8>)
    ensures
        r@ == announce_bytes(connection_id, transaction_id, *req),
{
    let mut buf: Vec<u8> = Vec::new();
    push_u64(&mut buf, connection_id);
    push_u32(&mut buf, 1);
    push_u32(&mut buf, transaction_id);
    push_all(&mut buf, req.info_hash.as_slice());
    push_all(&mut buf, req.peer_id.as_slice());
    push_u64(&mut buf, req.downloaded);
    push_u64(&mut buf, req.left);
    push_u64(&mut buf, req.uploaded);
    push_u32(&mut buf, 0);
    push_u32(&mut buf, 0);
    push_u32(&mut buf, 0);
    push_u32(&mut buf, 0xffff_ffff);
    let ghost before = buf@;
    buf.push(((req.port >> 8) & 0xff) as u8);
    buf.push((req.port & 0xff) as u8);
    assert(buf@ =~= before + be32(req.port).subrange(2, 4));
    buf
}

/// An announce reply: at least 20 bytes, action 1, our transaction id;
/// the interval at byte 8, then one peer per whole 6-byte record.
pub fn parse_announce_response(buf: &[u8], transaction_id: u32) -> (r: Result<TrackerResp, TrackerError>)
    ensures
        r is Ok <==> (buf@.len() >= 20 && be32_value(buf@.subrange(0, 4)) == 1 && be32_value(buf@.subrange(4, 8))
            == transaction_id),
        r is Err ==> r == Err::<TrackerResp, TrackerError>(TrackerError::TrackerProtocol),
        r matches Ok(resp) ==> {
            &&& resp.interval == be32_value(buf@.subrange(8, 12))
            &&& resp.peers@.len() == (buf@.len() - 20) / 6
            &&& forall|k: int|
                0 <= k < resp.peers@.len() ==> (#[trigger] resp.peers@[k])@ == endpoint_text(buf@.subrange(20 + 6 * k, 20 + 6 * k + 6))
        },
{
    if buf.len() < 20 {
        return Err(TrackerError::TrackerProtocol);
    }
    let action = read_u32(buf, 0);
    let tid = read_u32(buf, 4);
    if action != 1 || tid != transaction_id {
        return Err(TrackerError::TrackerProtocol);
    }
    let interval = read_u32(buf, 8) as i64;
    let peers = compact_peers(buf, 20);
    Ok(TrackerResp { interval, peers })
}

/// Attempts of one UDP round at most.
pub const UDP_MAX_RETRIES: usize = 20;

/// The read timeout of UDP attempt `retry` (from 0), in milliseconds:
/// 100 ms, growing by 100 ms per retry; none once the retries are spent.
pub fn udp_timeout_ms(retry: usize) -> (r: Option<u64>)
    ensures
        retry < UDP_MAX_RETRIES ==> r == Some((100 + 100 * retry) as u64),
        retry >= UDP_MAX_RETRIES ==> r is None,
{
    if retry < UDP_MAX_RETRIES {
        Some(100 + 100 * retry as u64)
    } else {
        None
    }
}

/// Some entry of `v` reads `s`.
pub open spec fn in_list(v: Seq<String>, s: Seq<char>) -> bool {
    exists|q: int| 0 <= q < v.len() && #[trigger] v[q]@ == s
}

fn contains_text(v: &Vec<String>, s: &String) -> (r: bool)
    ensures
        r == in_list(v@, s@),
{
    let mut j: usize = 0;
    while j < v.len()
        invariant
            j <= v@.len(),
            forall|q: int| 0 <= q < j ==> #[trigger] v@[q]@ != s@,
        decreases v@.len() - j,
    {
        if v[j].eq(s) {
            return true;
        }
        j += 1;
    }
    false
}

/// Adds to `known` each endpoint of `found` it lacks, once, and returns the
/// endpoints it added.
pub fn merge_peers(known: &mut Vec<String>, found: &Vec<String>) -> (r: Vec<String>)
    ensures
        final(known)@.len() == old(known)@.len() + r@.len(),
        forall|i: int| 0 <= i < old(known)@.len() ==> #[trigger] final(known)@[i] == old(known)@[i],
        forall|i: int|
            0 <= i < r@.len() ==> (#[trigger] r@[i])@ == final(known)@[old(known)@.len() + i]@,
        forall|i: int|
            0 <= i < r@.len() ==> forall|j: int| 0 <= j < old(known)@.len() ==> #[trigger] old(known)@[j]@ != (
                #[trigger] r@[i])@,
        forall|i: int, j: int| 0 <= i < j < r@.len() ==> (#[trigger] r@[i])@ != (#[trigger] r@[j])@,
        forall|i: int| 0 <= i < found@.len() ==> in_list(final(known)@, (#[trigger] found@[i])@),
        forall|i: int| 0 <= i < r@.len() ==> in_list(found@, (#[trigger] r@[i])@),
{
    let mut fresh: Vec<String> = Vec::new();
    let ghost k0 = known@;
    let mut i: usize = 0;
    while i < found.len()
        invariant
            k0 == old(known)@,
            i <= found@.len(),
            known@.len() == k0.len() + fresh@.len(),
            forall|q: int| 0 <= q < k0.len() ==> #[trigger] known@[q] == k0[q],
            forall|q: int| 0 <= q < fresh@.len() ==> (#[trigger] fresh@[q])@ == known@[k0.len() + q]@,
            forall|q: int|
                0 <= q < fresh@.len() ==> forall|j: int| 0 <= j < k0.len() ==> #[trigger] k0[j]@ != (
                    #[trigger] fresh@[q])@,
            forall|a: int, b: int| 0 <= a < b < fresh@.len() ==> (#[trigger] fresh@[a])@ != (#[trigger] fresh@[b])@,
            forall|q: int| 0 <= q < i ==> in_list(known@, (#[trigger] found@[q])@),
            forall|q: int| 0 <= q < fresh@.len() ==> in_list(found@, (#[trigger] fresh@[q])@),
        decreases found@.len() - i,
    {
        let seen = contains_text(known, &found[i]);
        if !seen {
            let ghost before = known@;
            known.push(found[i].clone());
            assert(known@[known@.len() - 1]@ == found@[i as int]@);
            fresh.push(found[i].clone());
            proof {
                assert forall|q: int| 0 <= q < fresh@.len() - 1 implies forall|j: int|
                    0 <= j < k0.len() ==> #[trigger] k0[j]@ != (#[trigger] fresh@[q])@ by {}
                assert forall|j: int| 0 <= j < k0.len() implies #[trigger] k0[j]@ != fresh@[fresh@.len() - 1]@ by {
                    assert(before[j] == k0[j]);
                }
                assert forall|a: int, b: int| 0 <= a < b < fresh@.len() implies (#[trigger] fresh@[a])@ != (
                    #[trigger] fresh@[b])@ by {
                    if b == fresh@.len() - 1 {
                        assert(before[k0.len() + a] == known@[k0.len() + a]);
                    }
                }
                assert forall|q: int| 0 <= q <= i implies in_list(known@, (#[trigger] found@[q])@) by {
                    if q < i {
                        assert(in_list(before, found@[q]@));
                        let j0 = choose|j: int| 0 <= j < before.len() && #[trigger] before[j]@ == found@[q]@;
                        assert(known@[j0] == before[j0]);
                    } else {
                        assert(known@[known@.len() - 1]@ == found@[q]@);
                    }
                }
            }
        }
        i += 1;
    }
    fresh
}


/// Announce attempts per tracker before it is passed over.
pub const TRACKER_ATTEMPTS: usize = 5;

/// Where a round of announces stands: which tracker of the list is being
/// asked, and how many of its attempts have failed.
#[derive(Debug, PartialEq, Eq, Clone, Copy)]
pub struct Failover {
    pub tracker: usize,
    pub failures: usize,
}

/// What to do next in a round of announces.
#[derive(Debug, PartialEq, Eq, Clone, Copy)]
pub enum AnnounceStep {
    /// Announce to the tracker at this index of the list.
    Ask(usize),
    /// Every tracker has been asked.
    Done,
}

impl Failover {
    pub fn new() -> (r: Self)
        ensures
            r.tracker == 0 && r.failures == 0,
    {
        Failover { tracker: 0, failures: 0 }
    }

    /// The next announce, over a list of `trackers` trackers.
    pub fn next(&self, trackers: usize) -> (r: AnnounceStep)
        ensures
            r == if self.tracker < trackers {
                AnnounceStep::Ask(self.tracker)
            } else {
                AnnounceStep::Done
            },
    {
        if self.tracker < trackers {
            AnnounceStep::Ask(self.tracker)
        } else {
            AnnounceStep::Done
        }
    }

    /// Records how an announce went: a tracker that answered is done with;
    /// one that failed is asked again, and passed over after
    /// `TRACKER_ATTEMPTS` failures.
    pub fn record(&mut self, answered: bool)
        requires
            old(self).failures < TRACKER_ATTEMPTS,
            old(self).tracker < usize::MAX,
        ensures
            final(self).failures < TRACKER_ATTEMPTS,
            answered ==> final(self).tracker == old(self).tracker + 1 && final(self).failures == 0,
            !answered && old(self).failures + 1 < TRACKER_ATTEMPTS ==> final(self).tracker == old(self).tracker
                && final(self).failures == old(self).failures + 1,
            !answered && old(self).failures + 1 == TRACKER_ATTEMPTS ==> final(self).tracker == old(self).tracker + 1
                && final(self).failures == 0,
    {
        if answered || self.failures + 1 == TRACKER_ATTEMPTS {
            self.tracker = self.tracker + 1;
            self.failures = 0;
        } else {
            self.failures = self.failures + 1;
        }
    }
}

} // verus!
