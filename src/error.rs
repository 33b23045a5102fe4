use vstd::prelude::*;

verus! {

/// The ways an operation of this library can fail.
#[derive(Debug, Clone, Copy, PartialEq, Eq, Structural)]
pub enum BittorrentError {
    /// Malformed bencode: a bad length prefix, a missing terminator, a
    /// dictionary key that is not a byte string, a duplicate key or
    /// truncated input.
    DecodeError,
    /// A metainfo or tracker document that decodes but lacks a required
    /// field, has one of the wrong shape or inconsistent lengths.
    ValidationError,
    /// A handshake mismatch, an unexpected message tag or order, a frame
    /// that is too large or an unknown tag byte.
    ProtocolError,
    /// An assembled piece whose digest differs from the recorded one.
    IntegrityError,
}

} // verus!
