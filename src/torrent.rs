//! The torrent descriptor: what a metainfo file says, resolved once.
use vstd::prelude::*;

use crate::bencode::{BencodeValue, Bv, copy_range, enc, lemma_list_view_index, list_view, lookup, parse};

verus! {

/// The SHA-1 digest of a byte sequence.
pub uninterp spec fn sha1_of(b: Seq<u8>) -> Seq<u8>;

/// Text decoded from bytes as UTF-8, each invalid sequence replaced by U+FFFD.
pub uninterp spec fn lossy_of(b: Seq<u8>) -> Seq<char>;

/// Relies on `String::from_utf8_lossy`: the result depends on the bytes alone.
#[verifier::external_body]
pub(crate) fn lossy_string(b: &[u8]) -> (r: String)
    ensures
        r@ == lossy_of(b@),
{
    String::from_utf8_lossy(b).into_owned()
}

pub struct TorrentFile {
    pub length: u64,
    /// Path segments joined by `/`, relative to the save directory.
    pub path: String,
}

/// Another name for a file entry of a multi-file torrent.
pub type TorrentFiles = TorrentFile;

pub struct TorrentInfo {
    /// Total content length.
    pub length: u64,
    pub files: Option<Vec<TorrentFile>>,
    pub name: String,
    pub piece_length: u64,
    pub piece_hashes: Vec<Vec<u8>>,
}

pub struct Torrent {
    pub tracker_url: String,
    pub tracker_urls: Option<Vec<String>>,
    pub info: TorrentInfo,
    pub info_hash: Vec<u8>,
}

/// Why a metainfo file was refused.
#[derive(Debug, PartialEq, Eq, Clone, Copy)]
pub enum MetainfoError {
    /// The bytes are not bencode.
    MalformedInput,
    /// A required key is missing or has the wrong shape.
    InvalidMetainfo,
}

impl Torrent {
    /// The relation between length, piece length and piece count: every
    /// piece but the last is full, and the last holds at least one byte.
    pub open spec fn wf(&self) -> bool {
        let n = self.info.piece_hashes.len();
        &&& n >= 1
        &&& self.info.piece_length >= 1
        &&& (n - 1) * self.info.piece_length < self.info.length <= n * self.info.piece_length
    }

    pub open spec fn piece_count(&self) -> nat {
        self.info.piece_hashes@.len()
    }

    /// Length of piece `i`: full, except the last, which holds what remains.
    pub open spec fn piece_len(&self, i: int) -> int {
        if i == self.piece_count() - 1 {
            self.info.length - i * self.info.piece_length
        } else {
            self.info.piece_length as int
        }
    }

    /// Relies on `sha1::Sha1::digest`: the 20-byte SHA-1 digest of `src`.
    #[verifier::external_body]
    pub fn bytes_hash(src: &Vec<u8>) -> (r: Vec<u8>)
        ensures
            r@ == sha1_of(src@),
            r@.len() == 20,
    {
        <sha1::Sha1 as sha1::Digest>::digest(src.as_slice()).to_vec()
    }

    /// The length of piece `piece_i`.
    pub fn get_piece_length(&self, piece_i: usize) -> (r: u64)
        requires
            self.wf(),
            piece_i < self.piece_count(),
        ensures
            r == self.piece_len(piece_i as int),
            1 <= r <= self.info.piece_length,
    {
        if piece_i == self.info.piece_hashes.len() - 1 {
            proof {
                let n = self.piece_count() as int;
                let p = self.info.piece_length as int;
                assert((n - 1) * p >= 0) by (nonlinear_arith)
                    requires n >= 1, p >= 1;
                assert(n * p == (n - 1) * p + p) by (nonlinear_arith);
            }
            self.info.length - piece_i as u64 * self.info.piece_length
        } else {
            proof {
                let n = self.piece_count() as int;
                let p = self.info.piece_length as int;
                let i = piece_i as int;
                assert(i * p <= (n - 1) * p) by (nonlinear_arith)
                    requires i <= n - 1, p >= 1;
            }
            self.info.piece_length
        }
    }
}


pub open spec fn k_announce() -> Seq<u8> {
    seq![97u8, 110, 110, 111, 117, 110, 99, 101]
}

pub open spec fn k_announce_list() -> Seq<u8> {
    seq![97u8, 110, 110, 111, 117, 110, 99, 101, 45, 108, 105, 115, 116]
}

pub open spec fn k_info() -> Seq<u8> {
    seq![105u8, 110, 102, 111]
}

pub open spec fn k_name() -> Seq<u8> {
    seq![110u8, 97, 109, 101]
}

pub open spec fn k_piece_length() -> Seq<u8> {
    seq![112u8, 105, 101, 99, 101, 32, 108, 101, 110, 103, 116, 104]
}

pub open spec fn k_pieces() -> Seq<u8> {
    seq![112u8, 105, 101, 99, 101, 115]
}

pub open spec fn k_length() -> Seq<u8> {
    seq![108u8, 101, 110, 103, 116, 104]
}

pub open spec fn k_files() -> Seq<u8> {
    seq![102u8, 105, 108, 101, 115]
}

pub open spec fn k_path() -> Seq<u8> {
    seq![112u8, 97, 116, 104]
}

pub open spec fn as_bytes(v: Option<Bv>) -> Option<Seq<u8>> {
    match v {
        Some(Bv::Bytes(b)) => Some(b),
        _ => None,
    }
}

pub open spec fn as_num(v: Option<Bv>) -> Option<int> {
    match v {
        Some(Bv::Num(n)) => Some(n),
        _ => None,
    }
}

pub open spec fn as_list(v: Option<Bv>) -> Option<Seq<Bv>> {
    match v {
        Some(Bv::List(l)) => Some(l),
        _ => None,
    }
}

pub open spec fn bytes_or_empty(v: Bv) -> Seq<u8> {
    match v {
        Bv::Bytes(b) => b,
        _ => seq![],
    }
}

/// The `info` dictionary of a metainfo value (`Null` when absent).
pub open spec fn info_of(v: Bv) -> Bv {
    match lookup(v, k_info()) {
        Some(i) => i,
        None => Bv::Null,
    }
}

/// Path segments joined by `/`.
pub open spec fn join_path(p: Seq<Bv>) -> Seq<u8>
    decreases p.len(),
{
    if p.len() == 0 {
        seq![]
    } else if p.len() == 1 {
        bytes_or_empty(p[0])
    } else {
        join_path(p.drop_last()) + seq![47u8] + bytes_or_empty(p.last())
    }
}

/// A file entry: a non-negative `length` and a `path` of byte strings.
pub open spec fn file_ok(f: Bv) -> bool {
    &&& as_num(lookup(f, k_length())) matches Some(n) && 0 <= n
    &&& as_list(lookup(f, k_path())) matches Some(p) && forall|i: int|
        0 <= i < p.len() ==> (#[trigger] p[i]) is Bytes
}

pub open spec fn file_len(f: Bv) -> int {
    match as_num(lookup(f, k_length())) {
        Some(n) => n,
        None => 0,
    }
}

pub open spec fn files_total(fs: Seq<Bv>) -> int
    decreases fs.len(),
{
    if fs.len() == 0 {
        0
    } else {
        files_total(fs.drop_last()) + file_len(fs.last())
    }
}

/// The total length: the sum of the `files` lengths for a multi-file
/// torrent, else `length`.
pub open spec fn content_length(info: Bv) -> int {
    match as_list(lookup(info, k_files())) {
        Some(fs) => files_total(fs),
        None => match as_num(lookup(info, k_length())) {
            Some(n) => n,
            None => 0,
        },
    }
}

/// The first URL of a tier of `announce-list`, when it has one.
pub open spec fn tier_url(t: Bv) -> Option<Seq<u8>> {
    match t {
        Bv::List(items) => if items.len() > 0 {
            as_bytes(Some(items[0]))
        } else {
            None
        },
        _ => None,
    }
}

pub open spec fn tier_urls(l: Seq<Bv>) -> Seq<Seq<u8>>
    decreases l.len(),
{
    if l.len() == 0 {
        seq![]
    } else {
        tier_urls(l.drop_last()) + match tier_url(l.last()) {
            Some(u) => seq![u],
            None => seq![],
        }
    }
}

/// The metainfo value has every required key, in the right shape, and
/// its sizes agree.
pub open spec fn valid_metainfo(b: Seq<u8>) -> bool {
    match parse(b) {
        None => false,
        Some((v, _)) => {
            let info = info_of(v);
            let total = content_length(info);
            &&& as_bytes(lookup(v, k_announce())) is Some
            &&& info is Dict
            &&& as_bytes(lookup(info, k_name())) is Some
            &&& as_bytes(lookup(info, k_pieces())) is Some
            &&& as_list(lookup(info, k_files())) is Some || (as_num(lookup(info, k_length())) matches Some(n)
                && n >= 0)
            &&& as_list(lookup(info, k_files())) matches Some(fs) ==> forall|i: int|
                0 <= i < fs.len() ==> file_ok(#[trigger] fs[i])
            &&& total <= u64::MAX
            &&& as_num(lookup(info, k_piece_length())) matches Some(p) && {
                let n = as_bytes(lookup(info, k_pieces()))->0.len() / 20;
                &&& 1 <= p <= u64::MAX
                &&& n >= 1
                &&& (n - 1) * p < total <= n * p
            }
        },
    }
}


fn key_of(k: Ghost<Seq<u8>>, bytes: Vec<u8>) -> (r: Vec<u8>)
    requires
        bytes@ == k@,
    ensures
        r@ == k@,
{
    bytes
}

fn get_bytes<'a>(v: &'a BencodeValue, key: &[u8]) -> (r: Option<&'a Vec<u8>>)
    ensures
        match r {
            Some(b) => as_bytes(lookup(v@, key@)) == Some(b@),
            None => as_bytes(lookup(v@, key@)) is None,
        },
{
    match v.get(key) {
        Some(BencodeValue::Bytes(b)) => Some(b),
        _ => None,
    }
}

fn get_num(v: &BencodeValue, key: &[u8]) -> (r: Option<i64>)
    ensures
        match r {
            Some(n) => as_num(lookup(v@, key@)) == Some(n as int),
            None => as_num(lookup(v@, key@)) is None,
        },
{
    match v.get(key) {
        Some(BencodeValue::Num(n)) => Some(*n),
        _ => None,
    }
}

fn get_list<'a>(v: &'a BencodeValue, key: &[u8]) -> (r: Option<&'a Vec<BencodeValue>>)
    ensures
        match r {
            Some(l) => as_list(lookup(v@, key@)) == Some(list_view(l@)),
            None => as_list(lookup(v@, key@)) is None,
        },
{
    match v.get(key) {
        Some(BencodeValue::List(l)) => Some(l),
        _ => None,
    }
}

proof fn lemma_list_view_prefix(l: Seq<BencodeValue>, i: int)
    requires
        0 <= i < l.len(),
    ensures
        list_view(l.subrange(0, i + 1)) == list_view(l.subrange(0, i)).push(l[i]@),
{
    assert(l.subrange(0, i + 1).drop_last() =~= l.subrange(0, i));
}

/// The segments of a file path joined by `/`.
fn join_segments(p: &Vec<BencodeValue>) -> (r: Vec<u8>)
    ensures
        r@ == join_path(list_view(p@)),
{
    let mut out: Vec<u8> = Vec::new();
    let mut i: usize = 0;
    assert(p@.subrange(0, 0) =~= seq![]);
    while i < p.len()
        invariant
            i <= p.len(),
            out@ == join_path(list_view(p@.subrange(0, i as int))),
        decreases p.len() - i,
    {
        proof {
            lemma_list_view_prefix(p@, i as int);
            lemma_list_view_index(p@.subrange(0, i as int));
            let x = list_view(p@.subrange(0, i as int));
            assert(x.push(p@[i as int]@).drop_last() =~= x);
        }
        if i > 0 {
            out.push(47u8);
        }
        match &p[i] {
            BencodeValue::Bytes(b) => {
                let mut j: usize = 0;
                let ghost start = out@;
                while j < b.len()
                    invariant
                        j <= b.len(),
                        out@ == start + b@.subrange(0, j as int),
                    decreases b.len() - j,
                {
                    out.push(b[j]);
                    j += 1;
                    assert(out@ =~= start + b@.subrange(0, j as int));
                }
                assert(b@.subrange(0, b.len() as int) =~= b@);
            },
            _ => {},
        }
        proof {
            let x = list_view(p@.subrange(0, i as int));
            if i == 0 {
                assert(x.push(p@[i as int]@) =~= seq![p@[i as int]@]);
            }
        }
        i += 1;
        assert(out@ =~= join_path(list_view(p@.subrange(0, i as int))));
    }
    assert(p@.subrange(0, p.len() as int) =~= p@);
    out
}

proof fn lemma_files_total_monotone(fs: Seq<Bv>, k: int)
    requires
        0 <= k <= fs.len(),
        forall|i: int| 0 <= i < fs.len() ==> file_ok(#[trigger] fs[i]),
    ensures
        files_total(fs.subrange(0, k)) <= files_total(fs),
    decreases fs.len() - k,
{
    if k < fs.len() {
        let a = fs.subrange(0, k + 1);
        assert(a.drop_last() =~= fs.subrange(0, k));
        assert(file_ok(fs[k]));
        if k + 1 == fs.len() {
            assert(a =~= fs);
        } else {
            lemma_files_total_monotone(fs, k + 1);
        }
    } else {
        assert(fs.subrange(0, k) =~= fs);
    }
}

/// The file entries of a multi-file torrent, and the sum of their lengths.
fn parse_files(fs: &Vec<BencodeValue>) -> (r: Option<(Vec<TorrentFile>, u64)>)
    ensures
        match r {
            Some((files, total)) => {
                let l = list_view(fs@);
                &&& forall|i: int| 0 <= i < l.len() ==> file_ok(#[trigger] l[i])
                &&& total == files_total(l)
                &&& total == sum_file_lengths(files@)
                &&& files@.len() == l.len()
                &&& forall|i: int|
                    0 <= i < l.len() ==> (#[trigger] files@[i]).length == file_len(l[i])
                        && files@[i].path@ == lossy_of(join_path(as_list(lookup(l[i], k_path()))->0))
            },
            None => !((forall|i: int|
                0 <= i < list_view(fs@).len() ==> file_ok(#[trigger] list_view(fs@)[i])) && files_total(
                list_view(fs@),
            ) <= u64::MAX),
        },
{
    let klen = key_of(Ghost(k_length()), vec![108u8, 101, 110, 103, 116, 104]);
    let kpath = key_of(Ghost(k_path()), vec![112u8, 97, 116, 104]);
    let ghost l = list_view(fs@);
    proof {
        lemma_list_view_index(fs@);
    }
    let mut files: Vec<TorrentFile> = Vec::new();
    let mut total: u64 = 0;
    let mut i: usize = 0;
    assert(l.subrange(0, 0) =~= seq![]);
    while i < fs.len()
        invariant
            i <= fs.len(),
            l == list_view(fs@),
            l.len() == fs.len(),
            forall|q: int| 0 <= q < fs.len() ==> #[trigger] l[q] == fs@[q]@,
            klen@ == k_length(),
            kpath@ == k_path(),
            forall|q: int| 0 <= q < i ==> file_ok(#[trigger] l[q]),
            total == files_total(l.subrange(0, i as int)),
            total == sum_file_lengths(files@),
            files@.len() == i,
            forall|q: int|
                0 <= q < i ==> (#[trigger] files@[q]).length == file_len(l[q]) && files@[q].path@
                    == lossy_of(join_path(as_list(lookup(l[q], k_path()))->0)),
        decreases fs.len() - i,
    {
        let f = &fs[i];
        assert(l[i as int] == f@);
        let n = match get_num(f, klen.as_slice()) {
            Some(n) => n,
            None => {
                assert(!file_ok(l[i as int]));
                return None;
            },
        };
        if n < 0 {
            assert(!file_ok(l[i as int]));
            return None;
        }
        let segs = match get_list(f, kpath.as_slice()) {
            Some(p) => p,
            None => {
                assert(!file_ok(l[i as int]));
                return None;
            },
        };
        let mut j: usize = 0;
        proof {
            lemma_list_view_index(segs@);
        }
        while j < segs.len()
            invariant
                j <= segs.len(),
                list_view(segs@).len() == segs.len(),
                forall|q: int| 0 <= q < segs.len() ==> #[trigger] list_view(segs@)[q] == segs@[q]@,
                forall|q: int| 0 <= q < j ==> (#[trigger] list_view(segs@)[q]) is Bytes,
                i < fs.len(),
                l == list_view(fs@),
                l.len() == fs.len(),
                l[i as int] == f@,
                as_list(lookup(l[i as int], k_path())) == Some(list_view(segs@)),
            decreases segs.len() - j,
        {
            match &segs[j] {
                BencodeValue::Bytes(_) => {},
                _ => {
                    assert(!(list_view(segs@)[j as int] is Bytes));
                    assert(!file_ok(l[i as int]));
                    return None;
                },
            }
            j += 1;
        }
        assert(file_ok(l[i as int]));
        assert(l.subrange(0, i + 1).drop_last() =~= l.subrange(0, i as int));
        if total > u64::MAX - n as u64 {
            proof {
                if forall|q: int| 0 <= q < l.len() ==> file_ok(#[trigger] l[q]) {
                    lemma_files_total_monotone(l, i + 1);
                }
            }
            return None;
        }
        total = total + n as u64;
        let path_bytes = join_segments(segs);
        let path = lossy_string(path_bytes.as_slice());
        let ghost before = files@;
        files.push(TorrentFile { length: n as u64, path });
        assert(files@.drop_last() =~= before);
        i += 1;
    }
    assert(l.subrange(0, fs.len() as int) =~= l);
    Some((files, total))
}

/// The first URL of each tier of `announce-list` that has one.
fn parse_tiers(l: &Vec<BencodeValue>) -> (r: Vec<String>)
    ensures
        r@.len() == tier_urls(list_view(l@)).len(),
        forall|i: int| 0 <= i < r@.len() ==> (#[trigger] r@[i])@ == lossy_of(tier_urls(list_view(l@))[i]),
{
    let ghost lv = list_view(l@);
    proof {
        lemma_list_view_index(l@);
    }
    let mut out: Vec<String> = Vec::new();
    let mut i: usize = 0;
    assert(lv.subrange(0, 0) =~= seq![]);
    while i < l.len()
        invariant
            i <= l.len(),
            lv == list_view(l@),
            lv.len() == l.len(),
            forall|q: int| 0 <= q < l.len() ==> #[trigger] lv[q] == l@[q]@,
            out@.len() == tier_urls(lv.subrange(0, i as int)).len(),
            forall|q: int| 0 <= q < out@.len() ==> (#[trigger] out@[q])@ == lossy_of(tier_urls(lv.subrange(0, i as int))[q]),
        decreases l.len() - i,
    {
        let ghost prev = tier_urls(lv.subrange(0, i as int));
        assert(lv.subrange(0, i + 1).drop_last() =~= lv.subrange(0, i as int));
        assert(lv.subrange(0, i + 1).last() == lv[i as int]);
        match &l[i] {
            BencodeValue::List(items) => {
                proof {
                    lemma_list_view_index(items@);
                }
                if items.len() > 0 {
                    match &items[0] {
                        BencodeValue::Bytes(b) => {
                            let u = lossy_string(b.as_slice());
                            out.push(u);
                            assert(tier_urls(lv.subrange(0, i + 1)) =~= prev + seq![b@]);
                        },
                        _ => {
                            assert(tier_urls(lv.subrange(0, i + 1)) =~= prev + seq![]);
                        },
                    }
                } else {
                    assert(tier_urls(lv.subrange(0, i + 1)) =~= prev + seq![]);
                }
            },
            _ => {
                assert(tier_urls(lv.subrange(0, i + 1)) =~= prev + seq![]);
            },
        }
        i += 1;
    }
    assert(lv.subrange(0, l.len() as int) =~= lv);
    out
}


/// The sum of the lengths of file entries.
pub open spec fn sum_file_lengths(fs: Seq<TorrentFile>) -> int
    decreases fs.len(),
{
    if fs.len() == 0 {
        0
    } else {
        sum_file_lengths(fs.drop_last()) + fs.last().length
    }
}

/// What a parsed torrent holds, field by field, in terms of the metainfo
/// value that `b` decodes to.
pub open spec fn describes(t: Torrent, b: Seq<u8>) -> bool {
    let v = parse(b)->Some_0.0;
    let info = info_of(v);
    let pieces = as_bytes(lookup(info, k_pieces()))->0;
    &&& t.tracker_url@ == lossy_of(as_bytes(lookup(v, k_announce()))->0)
    &&& match as_list(lookup(v, k_announce_list())) {
        None => t.tracker_urls is None,
        Some(l) => t.tracker_urls matches Some(u) && u@.len() == tier_urls(l).len() && forall|i: int|
            0 <= i < u@.len() ==> (#[trigger] u@[i])@ == lossy_of(tier_urls(l)[i]),
    }
    &&& t.info_hash@ == sha1_of(enc(info))
    &&& t.info.name@ == lossy_of(as_bytes(lookup(info, k_name()))->0)
    &&& t.info.piece_length == as_num(lookup(info, k_piece_length()))->0
    &&& t.info.length == content_length(info)
    &&& t.info.piece_hashes@.len() == pieces.len() / 20
    &&& forall|i: int|
        0 <= i < t.info.piece_hashes@.len() ==> (#[trigger] t.info.piece_hashes@[i])@ == pieces.subrange(
            20 * i,
            20 * i + 20,
        )
    &&& match as_list(lookup(info, k_files())) {
        None => t.info.files is None,
        Some(fs) => t.info.files matches Some(files) && files@.len() == fs.len() && forall|i: int|
            0 <= i < fs.len() ==> (#[trigger] files@[i]).length == file_len(fs[i]) && files@[i].path@
                == lossy_of(join_path(as_list(lookup(fs[i], k_path()))->0)),
    }
}

/// Resolves the bytes of a metainfo file into a torrent descriptor.
pub fn parse_torrent(bytes: &[u8]) -> (r: Result<Torrent, MetainfoError>)
    ensures
        (r matches Err(MetainfoError::MalformedInput)) <==> parse(bytes@) is None,
        r is Ok <==> valid_metainfo(bytes@),
        r matches Ok(t) ==> t.wf() && describes(t, bytes@),
        r matches Ok(t) ==> t.info_hash@.len() == 20,
        r matches Ok(t) ==> (t.info.files matches Some(fs) ==> t.info.length == sum_file_lengths(fs@)),
{
    let (v, _) = match BencodeValue::decode_bencoded_value(bytes) {
        Err(_) => {
            return Err(MetainfoError::MalformedInput);
        },
        Ok(x) => x,
    };
    let k_ann = key_of(Ghost(k_announce()), vec![97u8, 110, 110, 111, 117, 110, 99, 101]);
    let k_ann_list = key_of(
        Ghost(k_announce_list()),
        vec![97u8, 110, 110, 111, 117, 110, 99, 101, 45, 108, 105, 115, 116],
    );
    let k_inf = key_of(Ghost(k_info()), vec![105u8, 110, 102, 111]);
    let k_nam = key_of(Ghost(k_name()), vec![110u8, 97, 109, 101]);
    let k_plen = key_of(Ghost(k_piece_length()), vec![112u8, 105, 101, 99, 101, 32, 108, 101, 110, 103, 116, 104]);
    let k_pcs = key_of(Ghost(k_pieces()), vec![112u8, 105, 101, 99, 101, 115]);
    let k_len = key_of(Ghost(k_length()), vec![108u8, 101, 110, 103, 116, 104]);
    let k_fil = key_of(Ghost(k_files()), vec![102u8, 105, 108, 101, 115]);

    let announce = match get_bytes(&v, k_ann.as_slice()) {
        Some(b) => b,
        None => {
            return Err(MetainfoError::InvalidMetainfo);
        },
    };
    let info = match v.get(k_inf.as_slice()) {
        Some(i) => i,
        None => {
            return Err(MetainfoError::InvalidMetainfo);
        },
    };
    let ghost iv = info_of(v@);
    assert(iv == info@);
    match info {
        BencodeValue::Dict(_) => {},
        _ => {
            return Err(MetainfoError::InvalidMetainfo);
        },
    }
    let name = match get_bytes(info, k_nam.as_slice()) {
        Some(b) => b,
        None => {
            return Err(MetainfoError::InvalidMetainfo);
        },
    };
    let pieces = match get_bytes(info, k_pcs.as_slice()) {
        Some(b) => b,
        None => {
            return Err(MetainfoError::InvalidMetainfo);
        },
    };
    let single = get_num(info, k_len.as_slice());
    let file_list = get_list(info, k_fil.as_slice());
    let mut total: u64 = 0;
    let files = match file_list {
        None => {
            match single {
                Some(n) => {
                    if n < 0 {
                        return Err(MetainfoError::InvalidMetainfo);
                    }
                    total = n as u64;
                },
                None => {
                    return Err(MetainfoError::InvalidMetainfo);
                },
            }
            None
        },
        Some(fs) => match parse_files(fs) {
            None => {
                return Err(MetainfoError::InvalidMetainfo);
            },
            Some((files, sum)) => {
                total = sum;
                Some(files)
            },
        },
    };
    assert(total == content_length(iv));
    let p = match get_num(info, k_plen.as_slice()) {
        Some(p) => p,
        None => {
            return Err(MetainfoError::InvalidMetainfo);
        },
    };
    if p < 1 {
        return Err(MetainfoError::InvalidMetainfo);
    }
    let plen = pieces.len();
    let n = plen / 20;
    if n < 1 {
        return Err(MetainfoError::InvalidMetainfo);
    }
    proof {
        let a = (n - 1) as int;
        let b = n as int;
        let c = p as int;
        assert(0 <= a * c <= b * c) by (nonlinear_arith)
            requires 0 <= a <= b, 1 <= c;
        assert(b * c <= 0xffff_ffff_ffff_ffff * 0xffff_ffff_ffff_ffff) by (nonlinear_arith)
            requires 0 <= b <= 0xffff_ffff_ffff_ffff, 1 <= c <= 0xffff_ffff_ffff_ffff;
    }
    let lo: u128 = (n - 1) as u128 * p as u128;
    let hi: u128 = n as u128 * p as u128;
    if !(lo < total as u128 && total as u128 <= hi) {
        return Err(MetainfoError::InvalidMetainfo);
    }
    let mut piece_hashes: Vec<Vec<u8>> = Vec::new();
    let mut i: usize = 0;
    while i < n
        invariant
            i <= n,
            plen == pieces@.len(),
            n == plen / 20,
            piece_hashes@.len() == i,
            forall|q: int|
                0 <= q < i ==> (#[trigger] piece_hashes@[q])@ == pieces@.subrange(20 * q, 20 * q + 20),
        decreases n - i,
    {
        assert(20 * i + 20 <= pieces@.len());
        let h = copy_range(pieces.as_slice(), 20 * i, 20 * i + 20);
        piece_hashes.push(h);
        i += 1;
    }
    let tracker_urls = match get_list(&v, k_ann_list.as_slice()) {
        None => None,
        Some(l) => Some(parse_tiers(l)),
    };
    let mut encoded: Vec<u8> = Vec::new();
    info.encode(&mut encoded);
    assert(encoded@ =~= enc(iv));
    let info_hash = Torrent::bytes_hash(&encoded);
    let t = Torrent {
        tracker_url: lossy_string(announce.as_slice()),
        tracker_urls,
        info: TorrentInfo {
            length: total,
            files,
            name: lossy_string(name.as_slice()),
            piece_length: p as u64,
            piece_hashes,
        },
        info_hash,
    };
    Ok(t)
}


impl BencodeValue {
    /// A byte string as text (invalid UTF-8 replaced), `Null` for any other
    /// kind.
    pub fn to_lossy_string(&self) -> (r: String)
        ensures
            match self@ {
                Bv::Bytes(b) => r@ == lossy_of(b),
                _ => r@ == "Null"@,
            },
    {
        match self {
            BencodeValue::Bytes(b) => lossy_string(b.as_slice()),
            _ => "Null".to_owned(),
        }
    }
}

} // verus!
