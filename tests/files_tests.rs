use mktorrent::files::{bin_search, file_offset, plan_fragments, size_progression};
use mktorrent::torrent::TorrentFile;

fn files(lengths: &[u64]) -> Vec<TorrentFile> {
    lengths.iter().enumerate().map(|(i, l)| TorrentFile { length: *l, path: format!("f{}", i) }).collect()
}

#[test]
fn prefix_sums_of_lengths() {
    assert_eq!(size_progression(&files(&[10, 0, 5, 7])), vec![0, 10, 10, 15, 22]);
    assert_eq!(size_progression(&files(&[])), vec![0]);
}

#[test]
fn every_offset_maps_back() {
    let cum = size_progression(&files(&[3, 0, 4, 1, 0, 6]));
    for a in 0..14u64 {
        let (f, off) = file_offset(&cum, a);
        assert_eq!(cum[f] + off, a);
        assert!(off < cum[f + 1] - cum[f]);
        assert_eq!(bin_search(a, &cum), f);
    }
    assert_eq!(bin_search(3, &cum), 2);
    assert_eq!(bin_search(7, &cum), 3);
}

#[test]
fn block_spanning_files_round_trips() {
    let lengths = [5u64, 3, 0, 10];
    let cum = size_progression(&files(&lengths));
    let mut disk: Vec<Vec<u8>> = lengths.iter().map(|l| vec![0u8; *l as usize]).collect();
    let block: Vec<u8> = (100..112).collect();
    let frags = plan_fragments(&cum, 2, block.len());
    assert_eq!(frags.len(), 3);
    assert_eq!((frags[0].file_i, frags[0].offset, frags[0].start, frags[0].len), (0, 2, 0, 3));
    assert_eq!((frags[1].file_i, frags[1].offset, frags[1].start, frags[1].len), (1, 0, 3, 3));
    assert_eq!((frags[2].file_i, frags[2].offset, frags[2].start, frags[2].len), (3, 0, 6, 6));
    for f in &frags {
        let o = f.offset as usize;
        disk[f.file_i][o..o + f.len].copy_from_slice(&block[f.start..f.start + f.len]);
    }
    let mut back = Vec::new();
    for f in &frags {
        let o = f.offset as usize;
        back.extend_from_slice(&disk[f.file_i][o..o + f.len]);
    }
    assert_eq!(back, block);
    assert!(plan_fragments(&cum, 4, 0).is_empty());
}
