use crate::bencode::bytes_equal;
use crate::error::BittorrentError;
use crate::peer::{request_bytes, u32_from_be, Message, MessageTag, Piece, Request};
use crate::torrent::{sha1, sha1_digest};
use vstd::prelude::*;

verus! {

/// The size of a block, the unit of one request.
pub const BLOCK_MAX: u32 = 16384;

/// How many blocks a piece splits into: the size over `BLOCK_MAX`, rounded up.
pub open spec fn block_count(piece_size: nat) -> nat {
    ((piece_size + BLOCK_MAX as nat - 1) / (BLOCK_MAX as int)) as nat
}

/// The length of the block that starts at `offset`: `BLOCK_MAX`, or what is
/// left of the piece.
pub open spec fn block_len_at(piece_size: nat, offset: nat) -> nat {
    if offset + BLOCK_MAX as nat <= piece_size {
        BLOCK_MAX as nat
    } else {
        (piece_size - offset) as nat
    }
}

/// The length of block number `b` of a piece.
pub open spec fn block_len(piece_size: nat, b: nat) -> nat {
    block_len_at(piece_size, b * BLOCK_MAX as nat)
}

/// A piece no longer than a block takes exactly one request, for the whole
/// piece.
pub proof fn lemma_single_block_piece(piece_size: nat)
    requires
        0 < piece_size <= BLOCK_MAX,
    ensures
        block_count(piece_size) == 1,
        block_len(piece_size, 0) == piece_size,
        block_len_at(piece_size, 0) == piece_size,
{
}

/// When the piece size is not a multiple of the block size, the last block
/// holds the remainder and every earlier block is full.
pub proof fn lemma_last_block(piece_size: nat)
    requires
        piece_size % (BLOCK_MAX as nat) != 0,
    ensures
        block_count(piece_size) >= 1,
        block_len(piece_size, (block_count(piece_size) - 1) as nat) == piece_size % (
        BLOCK_MAX as nat),
        forall|b: nat|
            b + 1 < block_count(piece_size) ==> #[trigger] block_len(piece_size, b) == BLOCK_MAX,
{
    let q = piece_size / (BLOCK_MAX as nat);
    assert(piece_size == q * 16384 + piece_size % 16384);
    assert(block_count(piece_size) == q + 1);
    assert forall|b: nat| b + 1 < block_count(piece_size) implies #[trigger] block_len(
        piece_size,
        b,
    ) == BLOCK_MAX by {
        assert(b * 16384 + 16384 <= q * 16384) by (nonlinear_arith)
            requires
                b + 1 <= q,
        ;
    }
}

/// The size of piece `index`: `piece_length`, but the last piece holds only
/// what remains of the total length.
pub open spec fn piece_size_of(total: nat, piece_length: nat, index: nat) -> nat {
    if (index + 1) * piece_length <= total {
        piece_length
    } else {
        (total - index * piece_length) as nat
    }
}

/// The size of piece `index` of content `total` bytes long cut into pieces
/// of `piece_length`; `None` if there is no such piece.
pub fn piece_size(total: u64, piece_length: u64, index: u64) -> (r: Option<u64>)
    ensures
        match r {
            Some(n) => 0 < piece_length && index * piece_length < total && n == piece_size_of(
                total as nat,
                piece_length as nat,
                index as nat,
            ),
            None => piece_length == 0 || index * piece_length >= total,
        },
{
    if piece_length == 0 {
        return None;
    }
    let q = total / piece_length;
    proof {
        vstd::arithmetic::div_mod::lemma_fundamental_div_mod(total as int, piece_length as int);
    }
    if index > q {
        assert(index * piece_length >= total) by (nonlinear_arith)
            requires
                index > q,
                total == piece_length * q + total % piece_length,
                total % piece_length < piece_length,
                piece_length > 0,
        {
            assert(index * piece_length >= (q + 1) * piece_length);
        }
        return None;
    }
    assert(index * piece_length <= total) by (nonlinear_arith)
        requires
            index <= q,
            total == piece_length * q + total % piece_length,
            total % piece_length >= 0,
            piece_length > 0,
    {
        assert(index * piece_length <= q * piece_length);
    }
    let start = index * piece_length;
    if start >= total {
        return None;
    }
    assert((index + 1) * piece_length == index * piece_length + piece_length) by (nonlinear_arith);
    let left = total - start;
    if left >= piece_length {
        Some(piece_length)
    } else {
        Some(left)
    }
}

/// Where a download stands.
#[derive(Debug, Clone, Copy, PartialEq, Eq, Structural)]
pub enum Phase {
    /// Handshake done; the peer's bitfield comes first.
    AwaitBitfield,
    /// Interested was sent; waiting to be unchoked.
    AwaitUnchoke,
    /// A block was requested; waiting for it.
    AwaitPiece,
    /// The piece is whole and its digest checked.
    Done,
    /// A protocol or integrity error ended the download.
    Failed,
}

/// What the driver of a download does next.
pub enum Step {
    /// Send this message to the peer, then hand over the next one received.
    Send(Message),
    /// The piece is complete and verified: these are its bytes.
    Finished(Vec<u8>),
}

/// Downloads one piece from one peer: the decisions, from each received
/// message to the next thing to send.
pub struct PieceDownload {
    piece_index: u32,
    piece_size: u32,
    expected_hash: [u8; 20],
    phase: Phase,
    received: Vec<u8>,
}

/// The step that requests the block of `len` bytes at `begin`.
pub open spec fn requests(s: Step, index: u32, begin: nat, len: nat) -> bool {
    &&& s is Send
    &&& s->Send_0.tag == MessageTag::Request
    &&& begin <= u32::MAX && len <= u32::MAX
    &&& s->Send_0.payload@ == request_bytes(index, begin as u32, len as u32)
}

impl PieceDownload {
    pub closed spec fn spec_piece_index(&self) -> u32 {
        self.piece_index
    }

    pub closed spec fn spec_piece_size(&self) -> u32 {
        self.piece_size
    }

    pub closed spec fn spec_expected_hash(&self) -> Seq<u8> {
        self.expected_hash@
    }

    pub closed spec fn spec_phase(&self) -> Phase {
        self.phase
    }

    /// The bytes of the piece received so far, in order.
    pub closed spec fn spec_received(&self) -> Seq<u8> {
        self.received@
    }

    /// The download's invariant: a piece is never empty, blocks arrive whole
    /// and in order, and a piece still awaited is not yet complete.
    pub open spec fn wf(&self) -> bool {
        &&& self.spec_piece_size() > 0
        &&& self.spec_received().len() <= self.spec_piece_size()
        &&& self.spec_received().len() % (BLOCK_MAX as nat) == 0 || self.spec_received().len()
            == self.spec_piece_size()
        &&& self.spec_phase() == Phase::AwaitPiece ==> self.spec_received().len()
            < self.spec_piece_size()
    }

    /// A download of piece `piece_index`, `piece_size` bytes long, whose
    /// digest must be `expected_hash`.
    pub fn new(piece_index: u32, piece_size: u32, expected_hash: [u8; 20]) -> (r: Self)
        requires
            piece_size > 0,
        ensures
            r.wf(),
            r.spec_piece_index() == piece_index,
            r.spec_piece_size() == piece_size,
            r.spec_expected_hash() == expected_hash@,
            r.spec_phase() == Phase::AwaitBitfield,
            r.spec_received().len() == 0,
    {
        PieceDownload {
            piece_index,
            piece_size,
            expected_hash,
            phase: Phase::AwaitBitfield,
            received: Vec::new(),
        }
    }

    pub fn phase(&self) -> (r: Phase)
        ensures
            r == self.spec_phase(),
    {
        self.phase
    }

    fn request_at(&self, begin: u32) -> (r: Step)
        requires
            begin < self.piece_size,
        ensures
            requests(
                r,
                self.piece_index,
                begin as nat,
                block_len_at(self.piece_size as nat, begin as nat),
            ),
    {
        let left = self.piece_size - begin;
        let len = if left >= BLOCK_MAX {
            BLOCK_MAX
        } else {
            left
        };
        let req = Request::new(self.piece_index, begin, len);
        Step::Send(Message { tag: MessageTag::Request, payload: req.to_bytes() })
    }

    /// Takes the next message from the peer and says what to do. The first
    /// must be Bitfield (answered with Interested), the next an Unchoke with
    /// no payload (answered with the request for the first block). Then each
    /// must be the Piece that answers the outstanding request, same index,
    /// same offset, the requested length; its block is appended and the next
    /// block requested, until the piece is whole. A whole piece whose digest
    /// is the expected one is handed back; any other message is a protocol
    /// error, and a wrong digest an integrity error, both of which end the
    /// download.
    pub fn on_message(&mut self, msg: Message) -> (r: Result<Step, BittorrentError>)
        requires
            old(self).wf(),
        ensures
            final(self).wf(),
            final(self).spec_piece_index() == old(self).spec_piece_index(),
            final(self).spec_piece_size() == old(self).spec_piece_size(),
            final(self).spec_expected_hash() == old(self).spec_expected_hash(),
            r is Err ==> final(self).spec_phase() == Phase::Failed,
            old(self).spec_phase() == Phase::AwaitBitfield ==> if msg.tag == MessageTag::Bitfield {
                &&& final(self).spec_phase() == Phase::AwaitUnchoke
                &&& r matches Ok(Step::Send(m)) && m.tag == MessageTag::Interested && m.payload@.len()
                    == 0
            } else {
                r == Err::<Step, BittorrentError>(BittorrentError::ProtocolError)
            },
            old(self).spec_phase() == Phase::AwaitUnchoke ==> if msg.tag == MessageTag::Unchoke
                && msg.payload@.len() == 0 {
                &&& final(self).spec_phase() == Phase::AwaitPiece
                &&& final(self).spec_received().len() == 0
                &&& r matches Ok(s) && requests(
                    s,
                    old(self).spec_piece_index(),
                    0,
                    block_len_at(old(self).spec_piece_size() as nat, 0),
                )
            } else {
                r == Err::<Step, BittorrentError>(BittorrentError::ProtocolError)
            },
            old(self).spec_phase() == Phase::AwaitPiece ==> {
                let off = old(self).spec_received().len();
                let size = old(self).spec_piece_size() as nat;
                let p = msg.payload@;
                let block = p.subrange(8, p.len() as int);
                let received = old(self).spec_received() + block;
                if msg.tag == MessageTag::Piece && p.len() >= 8 && u32_from_be(p.subrange(0, 4))
                    == old(self).spec_piece_index() && u32_from_be(p.subrange(4, 8)) == off
                    && block.len() == block_len_at(size, off) {
                    if received.len() < size {
                        &&& final(self).spec_phase() == Phase::AwaitPiece
                        &&& final(self).spec_received() == received
                        &&& r matches Ok(s) && requests(
                            s,
                            old(self).spec_piece_index(),
                            received.len(),
                            block_len_at(size, received.len()),
                        )
                    } else if sha1_digest(received) == old(self).spec_expected_hash() {
                        &&& final(self).spec_phase() == Phase::Done
                        &&& final(self).spec_received() == received
                        &&& r matches Ok(Step::Finished(data)) && data@ == received
                    } else {
                        r == Err::<Step, BittorrentError>(BittorrentError::IntegrityError)
                    }
                } else {
                    r == Err::<Step, BittorrentError>(BittorrentError::ProtocolError)
                }
            },
            old(self).spec_phase() == Phase::Done || old(self).spec_phase() == Phase::Failed
                ==> r == Err::<Step, BittorrentError>(BittorrentError::ProtocolError),
    {
        match self.phase {
            Phase::AwaitBitfield => {
                if msg.tag == MessageTag::Bitfield {
                    self.phase = Phase::AwaitUnchoke;
                    Ok(Step::Send(Message { tag: MessageTag::Interested, payload: Vec::new() }))
                } else {
                    self.phase = Phase::Failed;
                    Err(BittorrentError::ProtocolError)
                }
            },
            Phase::AwaitUnchoke => {
                if msg.tag == MessageTag::Unchoke && msg.payload.len() == 0 {
                    self.phase = Phase::AwaitPiece;
                    self.received = Vec::new();
                    Ok(self.request_at(0))
                } else {
                    self.phase = Phase::Failed;
                    Err(BittorrentError::ProtocolError)
                }
            },
            Phase::AwaitPiece => {
                let off = self.received.len() as u32;
                let left = self.piece_size - off;
                let want = if left >= BLOCK_MAX {
                    BLOCK_MAX
                } else {
                    left
                };
                if msg.tag != MessageTag::Piece {
                    self.phase = Phase::Failed;
                    return Err(BittorrentError::ProtocolError);
                }
                let piece = match Piece::from_payload(msg.payload.as_slice()) {
                    Ok(p) => p,
                    Err(e) => {
                        self.phase = Phase::Failed;
                        return Err(e);
                    },
                };
                let block = piece.block();
                if piece.index() != self.piece_index || piece.begin() != off || block.len()
                    != want as usize {
                    self.phase = Phase::Failed;
                    return Err(BittorrentError::ProtocolError);
                }
                self.received.extend_from_slice(block);
                let got = self.received.len() as u32;
                if got < self.piece_size {
                    proof {
                        assert(got as nat % (BLOCK_MAX as nat) == 0) by {
                            assert(want == BLOCK_MAX);
                        }
                    }
                    Ok(self.request_at(got))
                } else {
                    let digest = sha1(self.received.as_slice());
                    let same = bytes_equal(digest.as_slice(), self.expected_hash.as_slice());
                    assert(self.received@ == old(self).received@ + msg.payload@.subrange(
                        8,
                        msg.payload@.len() as int,
                    ));
                    if same {
                        self.phase = Phase::Done;
                        Ok(Step::Finished(self.received.clone()))
                    } else {
                        self.phase = Phase::Failed;
                        Err(BittorrentError::IntegrityError)
                    }
                }
            },
            _ => {
                self.phase = Phase::Failed;
                Err(BittorrentError::ProtocolError)
            },
        }
    }
}

} // verus!
