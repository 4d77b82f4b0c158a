use mktorrent::torrent::{parse_torrent, MetainfoError, Torrent};

fn single_file_torrent() -> Vec<u8> {
    let mut b = b"d8:announce22:http://127.0.0.1:8000/4:infod6:lengthi1000000e4:name8:file.bin12:piece lengthi262144e6:pieces80:".to_vec();
    b.extend((0u8..80).collect::<Vec<u8>>());
    b.extend_from_slice(b"ee");
    b
}

#[test]
fn parses_single_file_torrent() {
    let t = parse_torrent(&single_file_torrent()).unwrap();
    assert_eq!(t.tracker_url, "http://127.0.0.1:8000/");
    assert!(t.tracker_urls.is_none());
    assert_eq!(t.info.name, "file.bin");
    assert_eq!(t.info.length, 1_000_000);
    assert_eq!(t.info.piece_length, 262_144);
    assert_eq!(t.info.piece_hashes.len(), 4);
    assert_eq!(t.info.piece_hashes[1], (20u8..40).collect::<Vec<u8>>());
    assert!(t.info.files.is_none());
}

#[test]
fn info_hash_matches_fixture() {
    let t = parse_torrent(&single_file_torrent()).unwrap();
    assert_eq!(hex::encode(&t.info_hash), "426a2135abea12fc6d852b3d9435ac366706e666");
}

#[test]
fn last_piece_is_short() {
    let t = parse_torrent(&single_file_torrent()).unwrap();
    assert_eq!(t.get_piece_length(0), 262_144);
    assert_eq!(t.get_piece_length(3), 213_568);
}

#[test]
fn parses_multi_file_torrent_and_trackers() {
    let mut b = b"d8:announce3:one13:announce-listll3:oneel3:twoelee4:infod5:filesld6:lengthi10e4:pathl3:dir5:a.txteed6:lengthi20e4:pathl5:b.bineee4:name4:root12:piece lengthi16e6:pieces40:".to_vec();
    b.extend([7u8; 40]);
    b.extend_from_slice(b"ee");
    let t = parse_torrent(&b).unwrap();
    assert_eq!(t.info.length, 30);
    let files = t.info.files.as_ref().unwrap();
    assert_eq!(files.len(), 2);
    assert_eq!(files[0].path, "dir/a.txt");
    assert_eq!(files[0].length, 10);
    assert_eq!(files[1].path, "b.bin");
    assert_eq!(t.tracker_urls.as_ref().unwrap(), &vec!["one".to_string(), "two".to_string()]);
}

#[test]
fn multi_file_length_is_the_sum_of_files() {
    // a stray top-level `length` does not count when `files` is given
    let mut b = b"d8:announce1:x4:infod5:filesld6:lengthi10e4:pathl1:aeed6:lengthi20e4:pathl1:beee6:lengthi999e4:name1:n12:piece lengthi16e6:pieces40:".to_vec();
    b.extend([7u8; 40]);
    b.extend_from_slice(b"ee");
    let t = parse_torrent(&b).unwrap();
    assert_eq!(t.info.length, 30);
    assert_eq!(t.info_hash.len(), 20);
}

#[test]
fn refuses_bad_metainfo() {
    assert_eq!(parse_torrent(b"not bencode").err(), Some(MetainfoError::MalformedInput));
    assert_eq!(parse_torrent(b"d8:announce1:xe").err(), Some(MetainfoError::InvalidMetainfo));
    // piece count does not match the length
    let mut b = b"d8:announce1:x4:infod6:lengthi1000000e4:name1:n12:piece lengthi262144e6:pieces20:".to_vec();
    b.extend([0u8; 20]);
    b.extend_from_slice(b"ee");
    assert_eq!(parse_torrent(&b).err(), Some(MetainfoError::InvalidMetainfo));
    // negative length
    let mut b = b"d8:announce1:x4:infod6:lengthi-1e4:name1:n12:piece lengthi16e6:pieces20:".to_vec();
    b.extend([0u8; 20]);
    b.extend_from_slice(b"ee");
    assert_eq!(parse_torrent(&b).err(), Some(MetainfoError::InvalidMetainfo));
}

#[test]
fn bytes_hash_is_sha1() {
    let data: Vec<u8> = (0..20000).map(|i| (i % 251) as u8).collect();
    assert_eq!(hex::encode(Torrent::bytes_hash(&data)), "7f21d0bec0ec41aea43854e5bb9e97951d383157");
    assert_eq!(hex::encode(Torrent::bytes_hash(&Vec::new())), "da39a3ee5e6b4b0d3255bfef95601890afd80709");
}
