//! Where the bytes of a torrent live when it spans several files: a linear
//! offset is mapped to a file and an offset within it through the prefix
//! sums of the file lengths.
use vstd::prelude::*;

use crate::torrent::TorrentFile;

verus! {

/// A run of a block that lands in one file.
#[derive(Debug, Clone, Copy, PartialEq, Eq)]
pub struct Fragment {
    /// Index of the file.
    pub file_i: usize,
    /// Where the run starts within the file.
    pub offset: u64,
    /// Where the run starts within the block.
    pub start: usize,
    /// Length of the run.
    pub len: usize,
}

/// `cum[i]` is the total length of the files before file `i`.
pub open spec fn prefix_sums(cum: Seq<u64>) -> bool {
    &&& cum.len() >= 1
    &&& cum[0] == 0
    &&& forall|i: int, j: int| 0 <= i <= j < cum.len() ==> cum[i] <= cum[j]
}

pub open spec fn sum_lengths(files: Seq<TorrentFile>, k: int) -> int
    decreases k,
{
    if k <= 0 {
        0
    } else {
        sum_lengths(files, k - 1) + files[k - 1].length
    }
}

/// The prefix sums of the file lengths: `files.len() + 1` entries from 0 to
/// the total.
pub fn size_progression(files: &Vec<TorrentFile>) -> (r: Vec<u64>)
    requires
        sum_lengths(files@, files@.len() as int) <= u64::MAX,
    ensures
        prefix_sums(r@),
        r@.len() == files@.len() + 1,
        forall|i: int| 0 <= i <= files@.len() ==> #[trigger] r@[i] == sum_lengths(files@, i),
{
    let mut arr: Vec<u64> = Vec::new();
    arr.push(0);
    let mut i: usize = 0;
    while i < files.len()
        invariant
            i <= files@.len(),
            arr@.len() == i + 1,
            sum_lengths(files@, files@.len() as int) <= u64::MAX,
            forall|q: int| 0 <= q <= i ==> #[trigger] arr@[q] == sum_lengths(files@, q),
            forall|q: int, j: int| 0 <= q <= j <= i ==> arr@[q] <= arr@[j],
        decreases files@.len() - i,
    {
        proof {
            lemma_sum_lengths_monotone(files@, i + 1, files@.len() as int);
        }
        let next = arr[i] + files[i].length;
        arr.push(next);
        i += 1;
    }
    arr
}

proof fn lemma_sum_lengths_monotone(files: Seq<TorrentFile>, k: int, j: int)
    requires
        0 <= k <= j <= files.len(),
    ensures
        sum_lengths(files, k) <= sum_lengths(files, j),
    decreases j - k,
{
    if k < j {
        lemma_sum_lengths_monotone(files, k, j - 1);
    }
}

/// The file that holds linear offset `value`: the `f` with
/// `arr[f] <= value < arr[f + 1]`.
pub fn bin_search(value: u64, arr: &Vec<u64>) -> (f: usize)
    requires
        prefix_sums(arr@),
        value < arr@.last(),
    ensures
        f + 1 < arr@.len(),
        arr@[f as int] <= value < arr@[f + 1],
{
    let mut l: usize = 0;
    let mut r: usize = arr.len() - 1;
    while r - l > 1
        invariant
            prefix_sums(arr@),
            l < r < arr@.len(),
            arr@[l as int] <= value < arr@[r as int],
        decreases r - l,
    {
        let m = l + (r - l) / 2;
        if arr[m] <= value {
            l = m;
        } else {
            r = m;
        }
    }
    l
}

/// The file and the offset within it of linear offset `a`.
pub fn file_offset(cum: &Vec<u64>, a: u64) -> (r: (usize, u64))
    requires
        prefix_sums(cum@),
        a < cum@.last(),
    ensures
        r.0 + 1 < cum@.len(),
        cum@[r.0 as int] + r.1 == a,
        r.1 < cum@[r.0 + 1] - cum@[r.0 as int],
{
    let f = bin_search(a, cum);
    (f, a - cum[f])
}

/// The runs `fr` cut a block of `len` bytes at linear offset `a` into
/// consecutive pieces, each inside one file, in ascending file order.
pub open spec fn tiles(cum: Seq<u64>, a: int, len: int, fr: Seq<Fragment>) -> bool {
    &&& forall|k: int|
        0 <= k < fr.len() ==> {
            let x = #[trigger] fr[k];
            &&& x.len > 0
            &&& x.file_i + 1 < cum.len()
            &&& cum[x.file_i as int] + x.offset == a + x.start
            &&& x.offset + x.len <= cum[x.file_i + 1] - cum[x.file_i as int]
        }
    &&& forall|k: int| 0 < k < fr.len() ==> (#[trigger] fr[k]).start == fr[k - 1].start + fr[k - 1].len
    &&& forall|k: int| 0 < k < fr.len() ==> fr[k - 1].file_i < (#[trigger] fr[k]).file_i
    &&& fr.len() == 0 <==> len == 0
    &&& fr.len() > 0 ==> fr[0].start == 0 && fr.last().start + fr.last().len == len
}

/// Cuts the block of `len` bytes at linear offset `a` into per-file runs.
pub fn plan_fragments(cum: &Vec<u64>, a: u64, len: usize) -> (r: Vec<Fragment>)
    requires
        prefix_sums(cum@),
        a + len <= cum@.last(),
    ensures
        tiles(cum@, a as int, len as int, r@),
{
    let mut frags: Vec<Fragment> = Vec::new();
    if len == 0 {
        return frags;
    }
    let n = cum.len();
    let mut f = bin_search(a, cum);
    let mut done: usize = 0;
    while done < len
        invariant
            prefix_sums(cum@),
            n == cum@.len(),
            a + len <= cum@.last(),
            done <= len,
            len > 0,
            done < len ==> f + 1 < n && cum@[f as int] <= a + done < cum@[f + 1],
            tiles(cum@, a as int, done as int, frags@),
            frags@.len() > 0 ==> frags@.last().file_i < f,
        decreases len - done,
    {
        let pos = a + done as u64;
        let room = cum[f + 1] - pos;
        let take: usize = if room < (len - done) as u64 { room as usize } else { len - done };
        let ghost before = frags@;
        frags.push(Fragment { file_i: f, offset: pos - cum[f], start: done, len: take });
        assert forall|k: int| 0 < k < frags@.len() implies (#[trigger] frags@[k]).start == frags@[k - 1].start
            + frags@[k - 1].len by {
            if k < before.len() {
                assert(frags@[k] == before[k]);
            }
        }
        done = done + take;
        f = f + 1;
        if done < len {
            while f + 1 < n && cum[f + 1] <= a + done as u64
                invariant
                    prefix_sums(cum@),
                    n == cum@.len(),
                    f < n,
                    cum@[f as int] <= a + done,
                    a + done < cum@.last(),
                decreases n - f,
            {
                f = f + 1;
            }
            assert(f + 1 < n) by {
                if f + 1 >= n {
                    assert(f == n - 1);
                }
            }
        }
    }
    frags
}


/// `data` written over `file` at `off`.
pub open spec fn write_at(file: Seq<u8>, off: int, data: Seq<u8>) -> Seq<u8> {
    file.subrange(0, off) + data + file.subrange(off + data.len(), file.len() as int)
}

/// The files after each run of `fr` is written with its part of `block`.
pub open spec fn apply_writes(files: Seq<Seq<u8>>, fr: Seq<Fragment>, block: Seq<u8>) -> Seq<Seq<u8>>
    decreases fr.len(),
{
    if fr.len() == 0 {
        files
    } else {
        let x = fr.last();
        let fs = apply_writes(files, fr.drop_last(), block);
        fs.update(
            x.file_i as int,
            write_at(fs[x.file_i as int], x.offset as int, block.subrange(x.start as int, x.start + x.len)),
        )
    }
}

/// The bytes the runs of `fr` cover, read back in order.
pub open spec fn read_back(files: Seq<Seq<u8>>, fr: Seq<Fragment>) -> Seq<u8>
    decreases fr.len(),
{
    if fr.len() == 0 {
        seq![]
    } else {
        let x = fr.last();
        read_back(files, fr.drop_last()) + files[x.file_i as int].subrange(x.offset as int, x.offset + x.len)
    }
}

/// Runs that follow one another from the start of a block, each inside
/// one file, in ascending file order.
pub open spec fn chain(files: Seq<Seq<u8>>, fr: Seq<Fragment>) -> bool {
    &&& forall|k: int|
        0 <= k < fr.len() ==> {
            let x = #[trigger] fr[k];
            &&& x.file_i < files.len()
            &&& x.offset + x.len <= files[x.file_i as int].len()
        }
    &&& forall|k: int| 0 < k < fr.len() ==> (#[trigger] fr[k]).start == fr[k - 1].start + fr[k - 1].len
    &&& forall|k: int| 0 < k < fr.len() ==> fr[k - 1].file_i < (#[trigger] fr[k]).file_i
    &&& fr.len() > 0 ==> fr[0].start == 0
}

proof fn lemma_chain_drop_last(files: Seq<Seq<u8>>, fr: Seq<Fragment>)
    requires
        chain(files, fr),
        fr.len() > 0,
    ensures
        chain(files, fr.drop_last()),
        forall|k: int| 0 <= k < fr.len() - 1 ==> (#[trigger] fr[k]).file_i < fr.last().file_i,
        fr.len() > 1 ==> fr.last().start == fr.drop_last().last().start + fr.drop_last().last().len,
{
    let d = fr.drop_last();
    assert forall|k: int| 0 < k < d.len() implies (#[trigger] d[k]).start == d[k - 1].start + d[k - 1].len by {
        assert(d[k] == fr[k] && d[k - 1] == fr[k - 1]);
    }
    assert forall|k: int| 0 < k < d.len() implies d[k - 1].file_i < (#[trigger] d[k]).file_i by {
        assert(d[k] == fr[k] && d[k - 1] == fr[k - 1]);
    }
    assert forall|k: int| 0 <= k < fr.len() - 1 implies (#[trigger] fr[k]).file_i < fr.last().file_i by {
        lemma_files_ascend(fr, k, fr.len() - 1);
    }
}

proof fn lemma_files_ascend(fr: Seq<Fragment>, i: int, j: int)
    requires
        0 <= i < j < fr.len(),
        forall|k: int| 0 < k < fr.len() ==> fr[k - 1].file_i < (#[trigger] fr[k]).file_i,
    ensures
        fr[i].file_i < fr[j].file_i,
    decreases j - i,
{
    if i + 1 < j {
        lemma_files_ascend(fr, i, j - 1);
    }
}

proof fn lemma_writes_keep_lengths(files: Seq<Seq<u8>>, fr: Seq<Fragment>, block: Seq<u8>)
    requires
        chain(files, fr),
        fr.len() > 0 ==> fr.last().start + fr.last().len <= block.len(),
    ensures
        apply_writes(files, fr, block).len() == files.len(),
        forall|f: int| 0 <= f < files.len() ==> #[trigger] apply_writes(files, fr, block)[f].len() == files[f].len(),
    decreases fr.len(),
{
    if fr.len() > 0 {
        lemma_chain_drop_last(files, fr);
        if fr.len() > 1 {
            assert(fr.drop_last().last().start + fr.drop_last().last().len <= block.len());
        }
        lemma_writes_keep_lengths(files, fr.drop_last(), block);
    }
}

proof fn lemma_read_other_file(files: Seq<Seq<u8>>, fr: Seq<Fragment>, g: int, data: Seq<u8>)
    requires
        0 <= g < files.len(),
        forall|k: int| 0 <= k < fr.len() ==> (#[trigger] fr[k]).file_i != g && fr[k].file_i < files.len(),
    ensures
        read_back(files.update(g, data), fr) == read_back(files, fr),
    decreases fr.len(),
{
    if fr.len() > 0 {
        let d = fr.drop_last();
        assert forall|k: int| 0 <= k < d.len() implies (#[trigger] d[k]).file_i != g && d[k].file_i < files.len() by {
            assert(d[k] == fr[k]);
        }
        lemma_read_other_file(files, d, g, data);
        assert(fr[fr.len() - 1].file_i != g);
    }
}

/// Writing a block run by run and reading the same runs back yields the
/// block byte for byte.
pub proof fn lemma_write_then_read(files: Seq<Seq<u8>>, fr: Seq<Fragment>, block: Seq<u8>)
    requires
        chain(files, fr),
        fr.len() > 0 ==> fr.last().start + fr.last().len == block.len(),
        fr.len() == 0 ==> block.len() == 0,
    ensures
        read_back(apply_writes(files, fr, block), fr) == block,
    decreases fr.len(),
{
    if fr.len() == 0 {
        assert(block =~= seq![]);
    } else {
        let x = fr.last();
        let d = fr.drop_last();
        lemma_chain_drop_last(files, fr);
        let prefix = block.subrange(0, x.start as int);
        if d.len() > 0 {
            assert(d.last().start + d.last().len == prefix.len());
        } else {
            assert(x.start == 0);
        }
        lemma_write_then_read(files, d, prefix);
        lemma_writes_keep_lengths(files, d, block);
        let fs = apply_writes(files, d, block);
        lemma_same_writes(files, d, prefix, block);
        let piece = block.subrange(x.start as int, x.start + x.len);
        let w = write_at(fs[x.file_i as int], x.offset as int, piece);
        let after = fs.update(x.file_i as int, w);
        assert(apply_writes(files, fr, block) == after);
        lemma_last_run(files, fr, fs, w);
        lemma_read_other_file(fs, d, x.file_i as int, w);
        assert(read_back(after, d) == prefix);
        assert(x.file_i < fs.len());
        assert(after[x.file_i as int] == w);
        assert(w.subrange(x.offset as int, x.offset + x.len) =~= piece);
        assert(read_back(after, fr) == read_back(after, d) + after[x.file_i as int].subrange(
            x.offset as int,
            x.offset + x.len,
        ));
        assert(prefix + piece =~= block);
    }
}

proof fn lemma_last_run(files: Seq<Seq<u8>>, fr: Seq<Fragment>, fs: Seq<Seq<u8>>, w: Seq<u8>)
    requires
        chain(files, fr),
        fr.len() > 0,
        fs.len() == files.len(),
    ensures
        forall|k: int|
            0 <= k < fr.drop_last().len() ==> (#[trigger] fr.drop_last()[k]).file_i != fr.last().file_i
                && fr.drop_last()[k].file_i < fs.len(),
{
    lemma_chain_drop_last(files, fr);
    assert forall|k: int| 0 <= k < fr.drop_last().len() implies (#[trigger] fr.drop_last()[k]).file_i
        != fr.last().file_i && fr.drop_last()[k].file_i < fs.len() by {
        assert(fr.drop_last()[k] == fr[k]);
    }
}

/// The runs of a prefix read only the prefix of the block.
proof fn lemma_same_writes(files: Seq<Seq<u8>>, fr: Seq<Fragment>, small: Seq<u8>, big: Seq<u8>)
    requires
        chain(files, fr),
        fr.len() > 0 ==> fr.last().start + fr.last().len <= small.len(),
        small.len() <= big.len(),
        small == big.subrange(0, small.len() as int),
    ensures
        apply_writes(files, fr, small) == apply_writes(files, fr, big),
    decreases fr.len(),
{
    if fr.len() > 0 {
        lemma_chain_drop_last(files, fr);
        if fr.len() > 1 {
            assert(fr.drop_last().last().start + fr.drop_last().last().len <= small.len());
        }
        lemma_same_writes(files, fr.drop_last(), small, big);
        let x = fr.last();
        assert(small.subrange(x.start as int, x.start + x.len) =~= big.subrange(x.start as int, x.start + x.len));
    }
}


/// The runs that `plan_fragments` returns form a chain over files of the
/// declared lengths, so the write-then-read law applies to them.
pub proof fn lemma_plan_is_chain(cum: Seq<u64>, a: int, len: int, fr: Seq<Fragment>, files: Seq<Seq<u8>>)
    requires
        tiles(cum, a, len, fr),
        files.len() + 1 == cum.len(),
        forall|f: int| 0 <= f < files.len() ==> #[trigger] files[f].len() == cum[f + 1] - cum[f],
    ensures
        chain(files, fr),
        fr.len() > 0 ==> fr.last().start + fr.last().len == len,
        fr.len() == 0 ==> len == 0,
{
    assert forall|k: int| 0 <= k < fr.len() implies {
        let x = #[trigger] fr[k];
        &&& x.file_i < files.len()
        &&& x.offset + x.len <= files[x.file_i as int].len()
    } by {
        let x = fr[k];
        assert(files[x.file_i as int].len() == cum[x.file_i + 1] - cum[x.file_i as int]);
    }
}

} // verus!
