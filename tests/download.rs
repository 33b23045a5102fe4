use bittorrent::download::{piece_size, Phase, PieceDownload, Step, BLOCK_MAX};
use bittorrent::error::BittorrentError;
use bittorrent::peer::{Message, MessageTag, Request};

fn msg(tag: MessageTag, payload: Vec<u8>) -> Message {
    Message { tag, payload }
}

fn piece_msg(index: u32, begin: u32, block: &[u8]) -> Message {
    let mut p = index.to_be_bytes().to_vec();
    p.extend_from_slice(&begin.to_be_bytes());
    p.extend_from_slice(block);
    msg(MessageTag::Piece, p)
}

fn expect_request(s: Step, index: u32, begin: u32, len: u32) {
    match s {
        Step::Send(m) => {
            assert_eq!(m.tag, MessageTag::Request);
            assert_eq!(m.payload, Request::new(index, begin, len).to_bytes());
        }
        Step::Finished(_) => panic!("expected a request"),
    }
}

const HELLO_SHA1: [u8; 20] = [
    170, 244, 198, 29, 220, 197, 232, 162, 218, 190, 222, 15, 59, 72, 44, 217, 174, 169, 67, 77,
];

#[test]
fn single_block_piece_takes_one_round_trip() {
    let mut d = PieceDownload::new(2, 5, HELLO_SHA1);
    match d.on_message(msg(MessageTag::Bitfield, vec![0xff])).unwrap() {
        Step::Send(m) => {
            assert_eq!(m.tag, MessageTag::Interested);
            assert!(m.payload.is_empty());
        }
        Step::Finished(_) => panic!("expected interested"),
    }
    expect_request(d.on_message(msg(MessageTag::Unchoke, vec![])).unwrap(), 2, 0, 5);
    match d.on_message(piece_msg(2, 0, b"hello")).unwrap() {
        Step::Finished(data) => assert_eq!(data, b"hello".to_vec()),
        Step::Send(_) => panic!("expected the finished piece"),
    }
    assert_eq!(d.phase(), Phase::Done);
}

#[test]
fn two_block_piece_last_block_is_remainder() {
    let size = BLOCK_MAX + 100;
    let digest: [u8; 20] = [
        99, 145, 211, 212, 209, 7, 155, 6, 68, 15, 189, 31, 78, 155, 237, 209, 22, 52, 187, 63,
    ];
    let mut d = PieceDownload::new(0, size, digest);
    d.on_message(msg(MessageTag::Bitfield, vec![])).unwrap();
    expect_request(d.on_message(msg(MessageTag::Unchoke, vec![])).unwrap(), 0, 0, BLOCK_MAX);
    let first = vec![7u8; BLOCK_MAX as usize];
    expect_request(d.on_message(piece_msg(0, 0, &first)).unwrap(), 0, BLOCK_MAX, 100);
    let last = vec![7u8; 100];
    match d.on_message(piece_msg(0, BLOCK_MAX, &last)).unwrap() {
        Step::Finished(data) => assert_eq!(data.len(), size as usize),
        Step::Send(_) => panic!("expected the finished piece"),
    }
}

#[test]
fn wrong_digest_is_integrity_error() {
    let mut d = PieceDownload::new(0, 5, [0u8; 20]);
    d.on_message(msg(MessageTag::Bitfield, vec![])).unwrap();
    d.on_message(msg(MessageTag::Unchoke, vec![])).unwrap();
    assert_eq!(
        d.on_message(piece_msg(0, 0, b"hello")).err(),
        Some(BittorrentError::IntegrityError)
    );
    assert_eq!(d.phase(), Phase::Failed);
}

#[test]
fn out_of_order_messages_are_protocol_errors() {
    let mut d = PieceDownload::new(0, 5, HELLO_SHA1);
    assert_eq!(
        d.on_message(msg(MessageTag::Unchoke, vec![])).err(),
        Some(BittorrentError::ProtocolError)
    );
    let mut c = PieceDownload::new(0, 5, HELLO_SHA1);
    c.on_message(msg(MessageTag::Bitfield, vec![])).unwrap();
    assert_eq!(
        c.on_message(msg(MessageTag::Choke, vec![])).err(),
        Some(BittorrentError::ProtocolError)
    );
    let mut p = PieceDownload::new(0, 5, HELLO_SHA1);
    p.on_message(msg(MessageTag::Bitfield, vec![])).unwrap();
    p.on_message(msg(MessageTag::Unchoke, vec![])).unwrap();
    assert_eq!(
        p.on_message(piece_msg(0, 1, b"hello")).err(),
        Some(BittorrentError::ProtocolError)
    );
}

#[test]
fn piece_sizes() {
    assert_eq!(piece_size(1000, 300, 0), Some(300));
    assert_eq!(piece_size(1000, 300, 3), Some(100));
    assert_eq!(piece_size(1000, 300, 4), None);
    assert_eq!(piece_size(900, 300, 2), Some(300));
    assert_eq!(piece_size(900, 300, 3), None);
    assert_eq!(piece_size(900, 0, 0), None);
}
