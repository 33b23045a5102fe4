use bittorrent::error::BittorrentError;
use bittorrent::torrent::{Keys, Torrent};

const INFO: &[u8] =
    b"d4:name8:test.txt12:piece lengthi32768e6:pieces20:abcdefghijklmnopqrst6:lengthi1000ee";

fn sample() -> Vec<u8> {
    let mut raw = b"d8:announce26:http://tracker.example/ann4:info".to_vec();
    raw.extend_from_slice(INFO);
    raw.push(b'e');
    raw
}

#[test]
fn parse_single_file_torrent() {
    let t = Torrent::from_bytes(&sample()).unwrap();
    assert_eq!(t.announce, "http://tracker.example/ann");
    assert_eq!(t.info.name, "test.txt");
    assert_eq!(t.info.piece_length, 32768);
    assert_eq!(t.info.pieces.0.len(), 1);
    assert_eq!(&t.info.pieces.0[0], b"abcdefghijklmnopqrst");
    match t.info.keys {
        Keys::SingleFile { length } => assert_eq!(length, 1000),
        Keys::MultiFile { .. } => panic!("expected a single file"),
    }
    assert_eq!(t.info.total_length(), Some(1000));
}

#[test]
fn info_hash_matches_reference() {
    let t = Torrent::from_bytes(&sample()).unwrap();
    let expected: [u8; 20] = [
        73, 120, 57, 47, 184, 51, 113, 43, 195, 1, 123, 163, 205, 72, 144, 247, 147, 33, 143, 97,
    ];
    assert_eq!(t.info_hash(), expected);
    assert_eq!(t.info_hash(), t.info_hash());
    assert_eq!(t.info.hash(), expected);
}

#[test]
fn reencoded_info_matches_file_bytes() {
    let t = Torrent::from_bytes(&sample()).unwrap();
    let encoded = bittorrent::bencode::encode_bencoded_value(&t.info.to_bencode());
    assert_eq!(encoded, INFO.to_vec());
}

#[test]
fn multi_file_torrent() {
    let raw = b"d8:announce3:url4:infod4:name3:dir12:piece lengthi4e6:pieces20:abcdefghijklmnopqrst5:filesld6:lengthi3e4:pathl1:a1:beed6:lengthi5e4:pathl1:ceeeee";
    let t = Torrent::from_bytes(raw).unwrap();
    match &t.info.keys {
        Keys::MultiFile { files } => {
            assert_eq!(files.len(), 2);
            assert_eq!(files[0].length, 3);
            assert_eq!(files[0].path, vec!["a".to_string(), "b".to_string()]);
            assert_eq!(files[1].path, vec!["c".to_string()]);
        }
        Keys::SingleFile { .. } => panic!("expected several files"),
    }
    assert_eq!(t.info.total_length(), Some(8));
    let info: &[u8] = b"d4:name3:dir12:piece lengthi4e6:pieces20:abcdefghijklmnopqrst5:filesld6:lengthi3e4:pathl1:a1:beed6:lengthi5e4:pathl1:ceeee";
    assert_eq!(
        bittorrent::bencode::encode_bencoded_value(&t.info.to_bencode()),
        info.to_vec()
    );
}

#[test]
fn pieces_not_multiple_of_20_fails() {
    let raw = b"d8:announce3:url4:infod4:name1:x12:piece lengthi4e6:pieces19:abcdefghijklmnopqrs6:lengthi1eee";
    assert_eq!(Torrent::from_bytes(raw).err(), Some(BittorrentError::ValidationError));
}

#[test]
fn missing_or_conflicting_fields_fail() {
    let no_announce = b"d4:infod4:name1:x12:piece lengthi4e6:pieces0:6:lengthi1eee";
    assert_eq!(Torrent::from_bytes(no_announce).err(), Some(BittorrentError::ValidationError));
    let both = b"d8:announce3:url4:infod4:name1:x12:piece lengthi4e6:pieces0:6:lengthi1e5:filesleee";
    assert_eq!(Torrent::from_bytes(both).err(), Some(BittorrentError::ValidationError));
    let zero_piece = b"d8:announce3:url4:infod4:name1:x12:piece lengthi0e6:pieces0:6:lengthi1eee";
    assert_eq!(Torrent::from_bytes(zero_piece).err(), Some(BittorrentError::ValidationError));
    let bad_utf8 = b"d8:announce2:\xff\xfe4:infod4:name1:x12:piece lengthi4e6:pieces0:6:lengthi1eee";
    assert_eq!(Torrent::from_bytes(bad_utf8).err(), Some(BittorrentError::ValidationError));
}

#[test]
fn malformed_torrent_is_decode_error() {
    assert_eq!(Torrent::from_bytes(b"d8:announce").err(), Some(BittorrentError::DecodeError));
    let mut trailing = sample();
    trailing.push(b'x');
    assert_eq!(Torrent::from_bytes(&trailing).err(), Some(BittorrentError::DecodeError));
}
