//! Errors shared by the decoders and the wire protocol.

use vstd::prelude::*;

verus! {

/// The part of a decoded message that is missing, of the wrong kind or out
/// of range.
#[derive(Debug, Clone, Copy, PartialEq, Eq)]
pub enum Field {
    /// The whole value is not a dictionary.
    Root,
    Announce,
    Info,
    Length,
    Name,
    PieceLength,
    Pieces,
    Interval,
    Peers,
}

/// A decoded value that does not have the expected shape; `field` names the
/// first offending part.
#[derive(Debug, Clone, Copy, PartialEq, Eq)]
pub struct FormatError {
    pub field: Field,
}

} // verus!

verus! {

/// A peer broke the wire protocol.
#[derive(Debug, Clone, Copy, PartialEq, Eq)]
pub enum ProtocolError {
    /// The handshake's first byte is not 19.
    HandshakeLength,
    /// The handshake does not name "BitTorrent protocol".
    HandshakeProtocol,
    /// A message frame announces more bytes than are accepted.
    FrameTooLong,
    /// A message payload is shorter than its kind requires.
    ShortPayload,
}

} // verus!
