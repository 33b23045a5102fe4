use bittorrent::error::BittorrentError;
use bittorrent::tracker::{announce_url, parse_peers, urlencode, TrackerResponse};

#[test]
fn urlencode_every_byte() {
    let mut hash = [0u8; 20];
    hash[0] = 0xd6;
    hash[1] = 0x9f;
    hash[19] = 0x0a;
    let s = urlencode(&hash);
    assert_eq!(s.len(), 60);
    assert!(s.starts_with("%d6%9f%00"));
    assert!(s.ends_with("%00%0a"));
}

#[test]
fn announce_url_layout() {
    let url = announce_url("http://t/a", "port=6881", &[255u8; 20]);
    assert_eq!(url, format!("http://t/a?port=6881&info_hash={}", "%ff".repeat(20)));
}

#[test]
fn compact_peers_of_length_12() {
    let b = [192u8, 168, 1, 2, 0x1a, 0xe1, 10, 0, 0, 1, 0, 80];
    let peers = parse_peers(&b).unwrap();
    assert_eq!(peers.0.len(), 2);
    assert_eq!(peers.0[0].ip, [192, 168, 1, 2]);
    assert_eq!(peers.0[0].port, 6881);
    assert_eq!(peers.0[1].ip, [10, 0, 0, 1]);
    assert_eq!(peers.0[1].port, 80);
}

#[test]
fn compact_peers_bad_length_fails() {
    assert_eq!(parse_peers(&[1, 2, 3, 4, 5]).err(), Some(BittorrentError::DecodeError));
    let raw = b"d8:intervali60e5:peers7:abcdefge";
    assert_eq!(TrackerResponse::parse(raw).err(), Some(BittorrentError::DecodeError));
}

#[test]
fn tracker_response_parses() {
    let mut raw = b"d8:intervali1800e5:peers12:".to_vec();
    raw.extend_from_slice(&[127, 0, 0, 1, 0x1a, 0xe1, 1, 2, 3, 4, 0, 1]);
    raw.push(b'e');
    let r = TrackerResponse::parse(&raw).unwrap();
    assert_eq!(r.interval, 1800);
    assert_eq!(r.peers.0.len(), 2);
    assert_eq!(r.peers.0[1].ip, [1, 2, 3, 4]);
    assert_eq!(r.peers.0[1].port, 1);
    assert_eq!(
        TrackerResponse::parse(b"d8:intervali5ee").err(),
        Some(BittorrentError::DecodeError)
    );
}

#[test]
fn compact_form_round_trips() {
    let b = [192u8, 168, 1, 2, 0x1a, 0xe1, 10, 0, 0, 1, 0, 80];
    let peers = parse_peers(&b).unwrap();
    assert_eq!(peers.to_compact(), b.to_vec());
}
