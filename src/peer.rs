use crate::error::BittorrentError;
use bytes::Buf;
use vstd::prelude::*;

verus! {

/// A big-endian 32-bit integer as four bytes.
pub open spec fn u32_be_bytes(n: u32) -> Seq<u8> {
    seq![(n >> 24u32) as u8, (n >> 16u32) as u8, (n >> 8u32) as u8, n as u8]
}

/// The big-endian 32-bit integer that four bytes hold.
pub open spec fn u32_from_be(b: Seq<u8>) -> u32 {
    ((b[0] as u32) << 24u32) | ((b[1] as u32) << 16u32) | ((b[2] as u32) << 8u32) | (b[3] as u32)
}

pub proof fn lemma_u32_be_round_trip(n: u32)
    ensures
        u32_from_be(u32_be_bytes(n)) == n,
{
    let b = u32_be_bytes(n);
    let (b0, b1, b2, b3) = (b[0], b[1], b[2], b[3]);
    assert(b0 == (n >> 24u32) as u8 && b1 == (n >> 16u32) as u8 && b2 == (n >> 8u32) as u8 && b3
        == n as u8);
    assert(((b0 as u32) << 24u32) | ((b1 as u32) << 16u32) | ((b2 as u32) << 8u32) | (b3 as u32)
        == n) by (bit_vector)
        requires
            b0 == (n >> 24u32) as u8,
            b1 == (n >> 16u32) as u8,
            b2 == (n >> 8u32) as u8,
            b3 == n as u8,
    ;
}

/// Writes `n` as four big-endian bytes.
pub fn u32_to_be(n: u32) -> (r: [u8; 4])
    ensures
        r@ == u32_be_bytes(n),
{
    let r = [(n >> 24u32) as u8, (n >> 16u32) as u8, (n >> 8u32) as u8, n as u8];
    assert(r@ =~= u32_be_bytes(n));
    r
}

/// Reads four big-endian bytes at `start`.
pub fn u32_at(b: &[u8], start: usize) -> (r: u32)
    requires
        start + 4 <= b.len(),
    ensures
        r == u32_from_be(b@.subrange(start as int, start + 4)),
{
    ((b[start] as u32) << 24u32) | ((b[start + 1] as u32) << 16u32) | ((b[start + 2] as u32)
        << 8u32) | (b[start + 3] as u32)
}

/// Copies `N` bytes that start at `start` into an array.
pub(crate) fn take_array<const N: usize>(b: &[u8], start: usize) -> (r: [u8; N])
    requires
        start + N <= b.len(),
    ensures
        r@ == b@.subrange(start as int, start + N),
{
    let mut a: [u8; N] = [0u8; N];
    let mut i: usize = 0;
    while i < N
        invariant
            start + N <= b.len(),
            0 <= i <= N,
            a@.len() == N,
            forall|k: int| 0 <= k < i ==> a@[k] == b@[start + k],
        decreases N - i,
    {
        a[i] = b[start + i];
        i = i + 1;
    }
    assert(a@ =~= b@.subrange(start as int, start + N));
    a
}

/// The protocol name that opens every handshake: "BitTorrent protocol".
pub open spec fn protocol_name() -> Seq<u8> {
    seq![66u8, 105, 116, 84, 111, 114, 114, 101, 110, 116, 32, 112, 114, 111, 116, 111, 99, 111, 108]
}

/// The fixed 68-byte record that two peers exchange first.
pub struct Handshake {
    pub length: u8,
    pub bittorrent: [u8; 19],
    pub reserved: [u8; 8],
    pub info_hash: [u8; 20],
    pub peer_id: [u8; 20],
}

/// The handshake as it travels: each field in order.
pub open spec fn handshake_bytes(h: Handshake) -> Seq<u8> {
    seq![h.length] + h.bittorrent@ + h.reserved@ + h.info_hash@ + h.peer_id@
}

pub const HANDSHAKE_LEN: usize = 68;

impl Handshake {
    /// A handshake for a torrent and a client, with no extension bits set.
    pub fn new(info_hash: [u8; 20], peer_id: [u8; 20]) -> (r: Self)
        ensures
            r.length == 19,
            r.bittorrent@ == protocol_name(),
            r.reserved@ == Seq::new(8, |i: int| 0u8),
            r.info_hash == info_hash,
            r.peer_id == peer_id,
    {
        let bittorrent: [u8; 19] = [
            66u8, 105, 116, 84, 111, 114, 114, 101, 110, 116, 32, 112, 114, 111, 116, 111, 99, 111,
            108,
        ];
        let reserved: [u8; 8] = [0u8, 0, 0, 0, 0, 0, 0, 0];
        assert(bittorrent@ =~= protocol_name());
        assert(reserved@ =~= Seq::new(8, |i: int| 0u8));
        Self { length: 19, bittorrent, reserved, info_hash, peer_id }
    }

    /// The 68 bytes to send.
    pub fn to_bytes(&self) -> (r: Vec<u8>)
        ensures
            r@ == handshake_bytes(*self),
            r@.len() == HANDSHAKE_LEN,
    {
        let mut out: Vec<u8> = Vec::new();
        out.push(self.length);
        out.extend_from_slice(self.bittorrent.as_slice());
        out.extend_from_slice(self.reserved.as_slice());
        out.extend_from_slice(self.info_hash.as_slice());
        out.extend_from_slice(self.peer_id.as_slice());
        assert(out@ =~= handshake_bytes(*self));
        out
    }

    /// Reads the handshake a peer answered with. It must be 68 bytes long,
    /// open with the length byte 19 and carry the protocol name; anything
    /// else is a protocol error.
    pub fn from_bytes(b: &[u8]) -> (r: Result<Handshake, BittorrentError>)
        ensures
            match r {
                Ok(h) => b@.len() == HANDSHAKE_LEN && handshake_bytes(h) == b@ && h.length == 19
                    && h.bittorrent@ == protocol_name(),
                Err(e) => e == BittorrentError::ProtocolError && !(b@.len() == HANDSHAKE_LEN
                    && b@[0] == 19 && b@.subrange(1, 20) == protocol_name()),
            },
    {
        if b.len() != HANDSHAKE_LEN || b[0] != 19u8 {
            return Err(BittorrentError::ProtocolError);
        }
        let bittorrent: [u8; 19] = take_array(b, 1);
        let expected = Handshake::new([0u8; 20], [0u8; 20]).bittorrent;
        let mut i: usize = 0;
        while i < 19
            invariant
                0 <= i <= 19,
                bittorrent@ == b@.subrange(1, 20),
                expected@ == protocol_name(),
                forall|k: int| 0 <= k < i ==> bittorrent@[k] == expected@[k],
            decreases 19 - i,
        {
            if bittorrent[i] != expected[i] {
                return Err(BittorrentError::ProtocolError);
            }
            i = i + 1;
        }
        assert(bittorrent@ =~= protocol_name());
        let h = Handshake {
            length: b[0],
            bittorrent,
            reserved: take_array(b, 20),
            info_hash: take_array(b, 28),
            peer_id: take_array(b, 48),
        };
        assert(handshake_bytes(h) =~= b@);
        Ok(h)
    }
}


/// The kind of a peer message.
#[derive(Debug, Clone, Copy, PartialEq, Eq, Structural)]
pub enum MessageTag {
    Choke,
    Unchoke,
    Interested,
    NotInterested,
    Have,
    Bitfield,
    Request,
    Piece,
    Cancel,
}

/// The byte that stands for a tag on the wire.
pub open spec fn tag_byte(t: MessageTag) -> u8 {
    match t {
        MessageTag::Choke => 0,
        MessageTag::Unchoke => 1,
        MessageTag::Interested => 2,
        MessageTag::NotInterested => 3,
        MessageTag::Have => 4,
        MessageTag::Bitfield => 5,
        MessageTag::Request => 6,
        MessageTag::Piece => 7,
        MessageTag::Cancel => 8,
    }
}

/// The tag a byte stands for, if any.
pub open spec fn tag_of(b: u8) -> Option<MessageTag> {
    if b == 0 {
        Some(MessageTag::Choke)
    } else if b == 1 {
        Some(MessageTag::Unchoke)
    } else if b == 2 {
        Some(MessageTag::Interested)
    } else if b == 3 {
        Some(MessageTag::NotInterested)
    } else if b == 4 {
        Some(MessageTag::Have)
    } else if b == 5 {
        Some(MessageTag::Bitfield)
    } else if b == 6 {
        Some(MessageTag::Request)
    } else if b == 7 {
        Some(MessageTag::Piece)
    } else if b == 8 {
        Some(MessageTag::Cancel)
    } else {
        None
    }
}

impl MessageTag {
    /// The tag that a byte stands for; bytes above 8 stand for none.
    pub fn from_byte(value: u8) -> (r: Result<MessageTag, BittorrentError>)
        ensures
            match tag_of(value) {
                Some(t) => r == Ok::<MessageTag, BittorrentError>(t),
                None => r == Err::<MessageTag, BittorrentError>(BittorrentError::ProtocolError),
            },
    {
        match value {
            0 => Ok(MessageTag::Choke),
            1 => Ok(MessageTag::Unchoke),
            2 => Ok(MessageTag::Interested),
            3 => Ok(MessageTag::NotInterested),
            4 => Ok(MessageTag::Have),
            5 => Ok(MessageTag::Bitfield),
            6 => Ok(MessageTag::Request),
            7 => Ok(MessageTag::Piece),
            8 => Ok(MessageTag::Cancel),
            _ => Err(BittorrentError::ProtocolError),
        }
    }

    /// The byte that stands for this tag.
    pub fn to_byte(self) -> (r: u8)
        ensures
            r == tag_byte(self),
            tag_of(r) == Some(self),
    {
        match self {
            MessageTag::Choke => 0,
            MessageTag::Unchoke => 1,
            MessageTag::Interested => 2,
            MessageTag::NotInterested => 3,
            MessageTag::Have => 4,
            MessageTag::Bitfield => 5,
            MessageTag::Request => 6,
            MessageTag::Piece => 7,
            MessageTag::Cancel => 8,
        }
    }
}

/// A peer message: its tag and the bytes after the tag.
#[derive(Debug, Clone, PartialEq, Eq)]
pub struct Message {
    pub tag: MessageTag,
    pub payload: Vec<u8>,
}

/// The largest frame, tag and payload together, that is sent or accepted.
pub const MAX_FRAME: usize = 65536;

/// The bytes that a `BytesMut` holds.
pub uninterp spec fn buffer_bytes(b: bytes::BytesMut) -> Seq<u8>;

#[verifier::external_type_specification]
#[verifier::external_body]
pub struct ExBytesMut(bytes::BytesMut);

/// Relies on `BytesMut::len`: the number of bytes held.
#[verifier::external_body]
fn buffer_len(b: &bytes::BytesMut) -> (r: usize)
    ensures
        r == buffer_bytes(*b).len(),
{
    b.len()
}

/// Relies on indexing a `BytesMut` by a range (through `Deref<Target = [u8]>`)
/// and `<[u8]>::to_vec`: a copy of the bytes held in `start..end`.
#[verifier::external_body]
fn buffer_copy(b: &bytes::BytesMut, start: usize, end: usize) -> (r: Vec<u8>)
    requires
        start <= end <= buffer_bytes(*b).len(),
    ensures
        r@ == buffer_bytes(*b).subrange(start as int, end as int),
{
    b[start..end].to_vec()
}

/// Relies on `<BytesMut as Buf>::advance`: drops the first `n` bytes; it
/// panics only past the end, which `requires` rules out.
#[verifier::external_body]
fn buffer_advance(b: &mut bytes::BytesMut, n: usize)
    requires
        n <= buffer_bytes(*old(b)).len(),
    ensures
        buffer_bytes(*final(b)) == buffer_bytes(*old(b)).subrange(
            n as int,
            buffer_bytes(*old(b)).len() as int,
        ),
{
    b.advance(n)
}

/// Relies on `BytesMut::extend_from_slice`: appends the bytes.
#[verifier::external_body]
fn buffer_extend(b: &mut bytes::BytesMut, data: &[u8])
    ensures
        buffer_bytes(*final(b)) == buffer_bytes(*old(b)) + data@,
{
    b.extend_from_slice(data)
}

/// What the front of a receive buffer holds.
pub enum Framed {
    /// Not yet a whole frame.
    Pending,
    /// A whole frame with a known tag.
    Ready(MessageTag, Seq<u8>),
    /// A frame that is too large or has an unknown tag.
    Invalid,
}

/// The length that the prefix at the front of `s` declares.
pub open spec fn declared_length(s: Seq<u8>) -> int {
    u32_from_be(s.subrange(0, 4)) as int
}

/// Decoding the front of a receive buffer: what it holds, and how many bytes
/// are consumed. Keep-alive frames (a zero length) are skipped.
pub open spec fn frame_step(s: Seq<u8>) -> (Framed, int)
    decreases s.len(),
{
    if s.len() < 4 {
        (Framed::Pending, 0)
    } else {
        let len = declared_length(s);
        if len == 0 {
            let (o, n) = frame_step(s.subrange(4, s.len() as int));
            (o, n + 4)
        } else if len > MAX_FRAME {
            (Framed::Invalid, 0)
        } else if s.len() < 4 + len {
            (Framed::Pending, 0)
        } else {
            match tag_of(s[4]) {
                Some(t) => (Framed::Ready(t, s.subrange(5, 4 + len)), 4 + len),
                None => (Framed::Invalid, 0),
            }
        }
    }
}

/// The frame that carries a message: its length, tag byte and payload.
pub open spec fn frame_encoding(tag: MessageTag, payload: Seq<u8>) -> Seq<u8> {
    u32_be_bytes((payload.len() + 1) as u32) + seq![tag_byte(tag)] + payload
}

/// Splits a byte stream into length-prefixed, tagged messages and back.
pub struct MessageFramer {}

impl MessageFramer {
    /// Takes the next message off the front of `src`. Keep-alive frames are
    /// dropped; a frame not yet whole stays in `src` and gives `None`; a
    /// declared length over `MAX_FRAME` or an unknown tag is a protocol error.
    pub fn decode(&mut self, src: &mut bytes::BytesMut) -> (r: Result<Option<Message>, BittorrentError>)
        ensures
            buffer_bytes(*final(src)) == buffer_bytes(*old(src)).subrange(
                frame_step(buffer_bytes(*old(src))).1,
                buffer_bytes(*old(src)).len() as int,
            ),
            match (r, frame_step(buffer_bytes(*old(src))).0) {
                (Ok(None), Framed::Pending) => true,
                (Ok(Some(m)), Framed::Ready(t, p)) => m.tag == t && m.payload@ == p,
                (Err(e), Framed::Invalid) => e == BittorrentError::ProtocolError,
                _ => false,
            },
    {
        let ghost orig = buffer_bytes(*src);
        loop
            invariant
                orig == buffer_bytes(*old(src)),
                buffer_bytes(*src).len() <= orig.len(),
                buffer_bytes(*src) == orig.subrange(
                    orig.len() - buffer_bytes(*src).len(),
                    orig.len() as int,
                ),
                frame_step(orig).0 == frame_step(buffer_bytes(*src)).0,
                frame_step(orig).1 == frame_step(buffer_bytes(*src)).1 + (orig.len()
                    - buffer_bytes(*src).len()),
            decreases buffer_bytes(*src).len(),
        {
            let ghost cur = buffer_bytes(*src);
            let len = buffer_len(src);
            if len < 4 {
                assert(cur.subrange(0, cur.len() as int) =~= cur);
                return Ok(None);
            }
            let head = buffer_copy(src, 0, 4);
            let length = u32_at(head.as_slice(), 0);
            assert(head@.subrange(0, 4) =~= cur.subrange(0, 4));
            if length == 0 {
                buffer_advance(src, 4);
                proof {
                    let next = cur.subrange(4, cur.len() as int);
                    assert(buffer_bytes(*src) =~= orig.subrange(
                        orig.len() - next.len(),
                        orig.len() as int,
                    ));
                }
            } else {
                let length = length as usize;
                if length > MAX_FRAME {
                    assert(cur.subrange(0, cur.len() as int) =~= cur);
                    return Err(BittorrentError::ProtocolError);
                }
                if len < 4 + length {
                    assert(cur.subrange(0, cur.len() as int) =~= cur);
                    return Ok(None);
                }
                let frame = buffer_copy(src, 4, 4 + length);
                let tag = match MessageTag::from_byte(frame[0]) {
                    Ok(t) => t,
                    Err(e) => {
                        assert(cur.subrange(0, cur.len() as int) =~= cur);
                        return Err(e);
                    },
                };
                let payload = slice_to_vec_from(frame.as_slice(), 1);
                buffer_advance(src, 4 + length);
                proof {
                    assert(payload@ =~= cur.subrange(5, 4 + length));
                    assert(buffer_bytes(*src) =~= orig.subrange(
                        orig.len() - cur.len() + 4 + length,
                        orig.len() as int,
                    ));
                }
                return Ok(Some(Message { tag, payload }));
            }
        }
    }

    /// Appends the frame of `item` to `dst`: a four-byte big-endian length
    /// (payload plus one), the tag byte and the payload. A message whose
    /// frame would exceed `MAX_FRAME` is refused and `dst` is left as it was.
    pub fn encode(&mut self, item: Message, dst: &mut bytes::BytesMut) -> (r: Result<
        (),
        BittorrentError,
    >)
        ensures
            item.payload@.len() + 1 > MAX_FRAME ==> r == Err::<(), BittorrentError>(
                BittorrentError::ProtocolError,
            ) && buffer_bytes(*final(dst)) == buffer_bytes(*old(dst)),
            item.payload@.len() + 1 <= MAX_FRAME ==> r is Ok && buffer_bytes(*final(dst))
                == buffer_bytes(*old(dst)) + frame_encoding(item.tag, item.payload@),
    {
        if item.payload.len() >= MAX_FRAME {
            return Err(BittorrentError::ProtocolError);
        }
        let len = u32_to_be((item.payload.len() + 1) as u32);
        let mut frame: Vec<u8> = Vec::new();
        frame.extend_from_slice(len.as_slice());
        frame.push(item.tag.to_byte());
        frame.extend_from_slice(item.payload.as_slice());
        assert(frame@ =~= frame_encoding(item.tag, item.payload@));
        buffer_extend(dst, frame.as_slice());
        Ok(())
    }
}

/// A copy of the bytes of `b` from `start` on.
pub(crate) fn slice_to_vec_from(b: &[u8], start: usize) -> (r: Vec<u8>)
    requires
        start <= b.len(),
    ensures
        r@ == b@.subrange(start as int, b.len() as int),
{
    let mut out: Vec<u8> = Vec::new();
    let mut i: usize = start;
    while i < b.len()
        invariant
            start <= i <= b.len(),
            out@ == b@.subrange(start as int, i as int),
        decreases b.len() - i,
    {
        out.push(b[i]);
        i = i + 1;
        assert(out@ =~= b@.subrange(start as int, i as int));
    }
    out
}


/// A keep-alive prefix (four zero bytes) in front of a buffer is consumed
/// and yields nothing of its own: what follows decodes as it would alone.
pub proof fn lemma_keep_alive_skipped(s: Seq<u8>)
    ensures
        frame_step(seq![0u8, 0u8, 0u8, 0u8] + s) == (frame_step(s).0, frame_step(s).1 + 4),
        frame_step(seq![0u8, 0u8, 0u8, 0u8]) == (Framed::Pending, 4int),
{
    let t = seq![0u8, 0u8, 0u8, 0u8] + s;
    assert(t.subrange(0, 4) =~= seq![0u8, 0u8, 0u8, 0u8]);
    assert(t.subrange(4, t.len() as int) =~= s);
    let z = seq![0u8, 0u8, 0u8, 0u8];
    assert(z.subrange(0, 4) =~= z);
    assert(z.subrange(4, 4) =~= Seq::<u8>::empty());
    assert(u32_from_be(z) == 0) by {
        assert((((0u8 as u32) << 24u32) | ((0u8 as u32) << 16u32) | ((0u8 as u32) << 8u32) | (
        0u8 as u32)) == 0) by (bit_vector);
    }
    assert(declared_length(z) == 0);
    assert(frame_step(Seq::<u8>::empty()) == (Framed::Pending, 0int));
    assert(frame_step(z.subrange(4, 4)) == (Framed::Pending, 0int));
}

/// The frame of a message that fits decodes to that message, whatever
/// bytes follow it, and consumes exactly the frame.
pub proof fn lemma_frame_round_trip(tag: MessageTag, payload: Seq<u8>, rest: Seq<u8>)
    requires
        payload.len() + 1 <= MAX_FRAME,
    ensures
        frame_step(frame_encoding(tag, payload) + rest) == (
            Framed::Ready(tag, payload),
            frame_encoding(tag, payload).len() as int,
        ),
{
    let f = frame_encoding(tag, payload);
    let s = f + rest;
    let n = (payload.len() + 1) as u32;
    lemma_u32_be_round_trip(n);
    assert(s.subrange(0, 4) =~= u32_be_bytes(n));
    assert(s[4] == tag_byte(tag));
    assert(s.subrange(5, 4 + n) =~= payload);
}

/// Every strict prefix of a frame that fits is pending and consumes
/// nothing: fed a byte at a time, the decoder waits until the frame is whole,
/// then yields the message exactly once.
pub proof fn lemma_frame_prefix_pending(tag: MessageTag, payload: Seq<u8>, k: int)
    requires
        payload.len() + 1 <= MAX_FRAME,
        0 <= k < frame_encoding(tag, payload).len(),
    ensures
        frame_step(frame_encoding(tag, payload).take(k)) == (Framed::Pending, 0int),
{
    let f = frame_encoding(tag, payload);
    let s = f.take(k);
    let n = (payload.len() + 1) as u32;
    if k >= 4 {
        lemma_u32_be_round_trip(n);
        assert(s.subrange(0, 4) =~= u32_be_bytes(n));
    }
}

/// The payload of a Request message: piece index, offset and length, each a
/// big-endian 32-bit integer.
pub struct Request {
    pub index: [u8; 4],
    pub begin: [u8; 4],
    pub length: [u8; 4],
}

/// The 12 payload bytes of a Request for a block.
pub open spec fn request_bytes(index: u32, begin: u32, length: u32) -> Seq<u8> {
    u32_be_bytes(index) + u32_be_bytes(begin) + u32_be_bytes(length)
}

impl Request {
    pub fn new(index: u32, begin: u32, length: u32) -> (r: Self)
        ensures
            r.index@ == u32_be_bytes(index),
            r.begin@ == u32_be_bytes(begin),
            r.length@ == u32_be_bytes(length),
    {
        Self { index: u32_to_be(index), begin: u32_to_be(begin), length: u32_to_be(length) }
    }

    /// The payload bytes, fields in order.
    pub fn to_bytes(&self) -> (r: Vec<u8>)
        ensures
            r@ == self.index@ + self.begin@ + self.length@,
    {
        let mut out: Vec<u8> = Vec::new();
        out.extend_from_slice(self.index.as_slice());
        out.extend_from_slice(self.begin.as_slice());
        out.extend_from_slice(self.length.as_slice());
        assert(out@ =~= self.index@ + self.begin@ + self.length@);
        out
    }
}

/// The payload of a Piece message: piece index, offset, then the block.
pub struct Piece {
    index: [u8; 4],
    begin: [u8; 4],
    block: Vec<u8>,
}

impl Piece {
    /// Splits a Piece payload; one shorter than 8 bytes is a protocol error.
    pub fn from_payload(payload: &[u8]) -> (r: Result<Piece, BittorrentError>)
        ensures
            match r {
                Ok(p) => payload@.len() >= 8 && p.spec_index() == payload@.subrange(0, 4)
                    && p.spec_begin() == payload@.subrange(4, 8) && p.spec_block() == payload@.subrange(
                    8,
                    payload@.len() as int,
                ),
                Err(e) => payload@.len() < 8 && e == BittorrentError::ProtocolError,
            },
    {
        if payload.len() < 8 {
            return Err(BittorrentError::ProtocolError);
        }
        Ok(
            Piece {
                index: take_array(payload, 0),
                begin: take_array(payload, 4),
                block: slice_to_vec_from(payload, 8),
            },
        )
    }

    pub closed spec fn spec_index(&self) -> Seq<u8> {
        self.index@
    }

    pub closed spec fn spec_begin(&self) -> Seq<u8> {
        self.begin@
    }

    pub closed spec fn spec_block(&self) -> Seq<u8> {
        self.block@
    }

    pub fn index(&self) -> (r: u32)
        ensures
            r == u32_from_be(self.spec_index()),
    {
        u32_at(self.index.as_slice(), 0)
    }

    pub fn begin(&self) -> (r: u32)
        ensures
            r == u32_from_be(self.spec_begin()),
    {
        u32_at(self.begin.as_slice(), 0)
    }

    pub fn block(&self) -> (r: &[u8])
        ensures
            r@ == self.spec_block(),
    {
        self.block.as_slice()
    }
}

} // verus!
