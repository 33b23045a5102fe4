use bittorrent::error::BittorrentError;
use bittorrent::peer::{Handshake, Message, MessageFramer, MessageTag, Piece, Request};
use bytes::BytesMut;

#[test]
fn handshake_layout_and_parse() {
    let h = Handshake::new([1u8; 20], [2u8; 20]);
    let b = h.to_bytes();
    assert_eq!(b.len(), 68);
    assert_eq!(b[0], 19);
    assert_eq!(&b[1..20], b"BitTorrent protocol");
    assert_eq!(&b[20..28], &[0u8; 8]);
    assert_eq!(&b[28..48], &[1u8; 20]);
    assert_eq!(&b[48..68], &[2u8; 20]);
    let back = Handshake::from_bytes(&b).unwrap();
    assert_eq!(back.peer_id, [2u8; 20]);
    assert_eq!(back.info_hash, [1u8; 20]);
}

#[test]
fn handshake_mismatch_fails() {
    let mut b = Handshake::new([1u8; 20], [2u8; 20]).to_bytes();
    b[5] = b'x';
    assert_eq!(Handshake::from_bytes(&b).err(), Some(BittorrentError::ProtocolError));
    let mut c = Handshake::new([1u8; 20], [2u8; 20]).to_bytes();
    c[0] = 18;
    assert_eq!(Handshake::from_bytes(&c).err(), Some(BittorrentError::ProtocolError));
    assert_eq!(Handshake::from_bytes(&c[..67]).err(), Some(BittorrentError::ProtocolError));
}

#[test]
fn tag_bytes() {
    assert_eq!(MessageTag::from_byte(5), Ok(MessageTag::Bitfield));
    assert_eq!(MessageTag::from_byte(8), Ok(MessageTag::Cancel));
    assert_eq!(MessageTag::from_byte(9), Err(BittorrentError::ProtocolError));
    assert_eq!(MessageTag::Piece.to_byte(), 7);
}

#[test]
fn keep_alive_alone_yields_nothing() {
    let mut framer = MessageFramer {};
    let mut buf = BytesMut::from(&[0u8, 0, 0, 0][..]);
    assert_eq!(framer.decode(&mut buf), Ok(None));
    assert!(buf.is_empty());
}

#[test]
fn tag_only_frame_has_empty_payload() {
    let mut framer = MessageFramer {};
    let mut buf = BytesMut::from(&[0u8, 0, 0, 1, 1][..]);
    let m = framer.decode(&mut buf).unwrap().unwrap();
    assert_eq!(m.tag, MessageTag::Unchoke);
    assert!(m.payload.is_empty());
    assert!(buf.is_empty());
}

#[test]
fn byte_by_byte_equals_all_at_once() {
    let mut framer = MessageFramer {};
    let mut frame = BytesMut::new();
    let msg = Message { tag: MessageTag::Have, payload: vec![0, 0, 0, 7] };
    framer.encode(msg.clone(), &mut frame).unwrap();
    assert_eq!(&frame[..], &[0, 0, 0, 5, 4, 0, 0, 0, 7]);

    let mut whole = frame.clone();
    let at_once = framer.decode(&mut whole).unwrap().unwrap();

    let mut buf = BytesMut::new();
    let mut got = Vec::new();
    for b in frame.iter() {
        buf.extend_from_slice(&[*b]);
        if let Some(m) = framer.decode(&mut buf).unwrap() {
            got.push(m);
        }
    }
    assert_eq!(got, vec![at_once.clone()]);
    assert_eq!(at_once, msg);
    assert!(buf.is_empty());
}

#[test]
fn keep_alive_before_a_frame_is_skipped() {
    let mut framer = MessageFramer {};
    let mut buf = BytesMut::from(&[0u8, 0, 0, 0, 0, 0, 0, 1, 2, 0xff][..]);
    let m = framer.decode(&mut buf).unwrap().unwrap();
    assert_eq!(m.tag, MessageTag::Interested);
    assert_eq!(&buf[..], &[0xff]);
}

#[test]
fn oversized_or_unknown_frames_fail() {
    let mut framer = MessageFramer {};
    let mut big = BytesMut::from(&[0u8, 1, 0, 1, 7][..]);
    assert_eq!(framer.decode(&mut big), Err(BittorrentError::ProtocolError));
    let mut unknown = BytesMut::from(&[0u8, 0, 0, 1, 9][..]);
    assert_eq!(framer.decode(&mut unknown), Err(BittorrentError::ProtocolError));
    let mut dst = BytesMut::new();
    let too_long = Message { tag: MessageTag::Piece, payload: vec![0u8; 65536] };
    assert_eq!(framer.encode(too_long, &mut dst), Err(BittorrentError::ProtocolError));
    assert!(dst.is_empty());
    let longest = Message { tag: MessageTag::Piece, payload: vec![0u8; 65535] };
    assert_eq!(framer.encode(longest, &mut dst), Ok(()));
    assert_eq!(&dst[..5], &[0, 1, 0, 0, 7]);
}

#[test]
fn request_and_piece_payloads() {
    let r = Request::new(1, 16384, 0x0102);
    assert_eq!(r.to_bytes(), vec![0, 0, 0, 1, 0, 0, 0x40, 0, 0, 0, 1, 2]);
    let p = Piece::from_payload(&[0, 0, 0, 3, 0, 0, 1, 0, 9, 8]).unwrap();
    assert_eq!(p.index(), 3);
    assert_eq!(p.begin(), 256);
    assert_eq!(p.block(), &[9, 8]);
    assert_eq!(Piece::from_payload(&[0, 0, 0]).err(), Some(BittorrentError::ProtocolError));
}
