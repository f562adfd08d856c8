//! Length-prefixed peer messages and the payloads of requests and blocks.

use vstd::prelude::*;

use crate::codec::push_all;
use crate::error::ProtocolError;

verus! {

/// The largest accepted frame length: a 2^20-byte payload and its id byte.
pub const MAX_FRAME_LENGTH: u32 = 1048577;

/// The big-endian number in four bytes.
pub open spec fn be32(b: Seq<u8>) -> nat {
    (b[0] * 16777216 + b[1] * 65536 + b[2] * 256 + b[3]) as nat
}

/// The four big-endian bytes of a 32-bit number.
pub open spec fn be32_bytes(x: nat) -> Seq<u8> {
    seq![(x / 16777216) as u8, (x / 65536 % 256) as u8, (x / 256 % 256) as u8, (x % 256) as u8]
}

pub proof fn lemma_be32(x: u32)
    ensures
        be32_bytes(x as nat).len() == 4,
        be32(be32_bytes(x as nat)) == x,
{
}

/// Appends the four big-endian bytes of `x`.
fn push_be32(out: &mut Vec<u8>, x: u32)
    ensures
        final(out)@ == old(out)@ + be32_bytes(x as nat),
{
    out.push((x / 16777216) as u8);
    out.push((x / 65536 % 256) as u8);
    out.push((x / 256 % 256) as u8);
    out.push((x % 256) as u8);
    assert(final(out)@ =~= old(out)@ + be32_bytes(x as nat));
}

/// The big-endian number in `b[at..at + 4]`.
fn read_be32(b: &[u8], at: usize) -> (r: u32)
    requires
        at + 4 <= b.len(),
    ensures
        r == be32(b@.subrange(at as int, at + 4)),
{
    (b[at] as u32) * 16777216 + (b[at + 1] as u32) * 65536 + (b[at + 2] as u32) * 256 + (
    b[at + 3] as u32)
}

/// The kind of a peer message. Any byte is a kind: those without a name
/// here are carried as `Other`.
#[derive(Debug, Clone, Copy, PartialEq, Eq, Structural)]
pub enum PeerMessageId {
    Choke,
    Unchoke,
    Interested,
    NotInterested,
    Have,
    Bitfield,
    Request,
    Piece,
    Cancel,
    Other(u8),
}

impl PeerMessageId {
    /// The id byte on the wire.
    pub open spec fn spec_byte(self) -> u8 {
        match self {
            PeerMessageId::Choke => 0,
            PeerMessageId::Unchoke => 1,
            PeerMessageId::Interested => 2,
            PeerMessageId::NotInterested => 3,
            PeerMessageId::Have => 4,
            PeerMessageId::Bitfield => 5,
            PeerMessageId::Request => 6,
            PeerMessageId::Piece => 7,
            PeerMessageId::Cancel => 8,
            PeerMessageId::Other(b) => b,
        }
    }

    /// `Other` is kept for the bytes without a name.
    pub open spec fn wf(self) -> bool {
        self matches PeerMessageId::Other(b) ==> b > 8
    }

    /// The kind with this id byte.
    pub fn from_byte(b: u8) -> (r: PeerMessageId)
        ensures
            r.spec_byte() == b,
            r.wf(),
    {
        match b {
            0 => PeerMessageId::Choke,
            1 => PeerMessageId::Unchoke,
            2 => PeerMessageId::Interested,
            3 => PeerMessageId::NotInterested,
            4 => PeerMessageId::Have,
            5 => PeerMessageId::Bitfield,
            6 => PeerMessageId::Request,
            7 => PeerMessageId::Piece,
            8 => PeerMessageId::Cancel,
            _ => PeerMessageId::Other(b),
        }
    }

    /// The id byte on the wire.
    pub fn to_byte(&self) -> (r: u8)
        ensures
            r == self.spec_byte(),
    {
        match self {
            PeerMessageId::Choke => 0,
            PeerMessageId::Unchoke => 1,
            PeerMessageId::Interested => 2,
            PeerMessageId::NotInterested => 3,
            PeerMessageId::Have => 4,
            PeerMessageId::Bitfield => 5,
            PeerMessageId::Request => 6,
            PeerMessageId::Piece => 7,
            PeerMessageId::Cancel => 8,
            PeerMessageId::Other(b) => *b,
        }
    }
}

/// The frame of a message: the big-endian length of id and payload, the id
/// byte, the payload.
pub open spec fn message_frame(id: u8, payload: Seq<u8>) -> Seq<u8> {
    be32_bytes(payload.len() + 1) + seq![id] + payload
}

/// A message to send.
pub struct PeerMessageOut<'a> {
    pub message_id: PeerMessageId,
    pub payload: &'a [u8],
}

impl PeerMessageOut<'_> {
    /// The bytes of the frame.
    pub fn encode(&self) -> (r: Vec<u8>)
        requires
            self.payload@.len() < u32::MAX,
        ensures
            r@ == message_frame(self.message_id.spec_byte(), self.payload@),
    {
        let mut out: Vec<u8> = Vec::new();
        push_be32(&mut out, (self.payload.len() + 1) as u32);
        out.push(self.message_id.to_byte());
        push_all(&mut out, self.payload);
        out
    }
}

/// A received message.
#[derive(Debug)]
pub struct PeerMessageIn {
    message_id: PeerMessageId,
    payload: Vec<u8>,
}

/// What a received message says.
pub struct MessageModel {
    pub message_id: PeerMessageId,
    pub payload: Seq<u8>,
}

impl View for PeerMessageIn {
    type V = MessageModel;

    closed spec fn view(&self) -> MessageModel {
        MessageModel { message_id: self.message_id, payload: self.payload@ }
    }
}

/// A received frame: a keep-alive (length zero) or a message.
#[derive(Debug)]
pub enum PeerFrame {
    KeepAlive,
    Message(PeerMessageIn),
}

/// The length that a frame header announces, where it is accepted.
pub fn frame_length(header: &[u8; 4]) -> (r: Result<u32, ProtocolError>)
    ensures
        match r {
            Ok(n) => n == be32(header@) && n <= MAX_FRAME_LENGTH,
            Err(e) => e == ProtocolError::FrameTooLong && be32(header@) > MAX_FRAME_LENGTH,
        },
{
    let bytes = header.as_slice();
    assert(bytes@.subrange(0, 4) =~= header@);
    let n = read_be32(bytes, 0);
    if n > MAX_FRAME_LENGTH {
        Err(ProtocolError::FrameTooLong)
    } else {
        Ok(n)
    }
}

impl PeerMessageIn {
    /// Reads the body of a frame (all bytes after the length header): empty
    /// is a keep-alive, else an id byte and the payload.
    pub fn decode(body: &[u8]) -> (r: PeerFrame)
        ensures
            match r {
                PeerFrame::KeepAlive => body@.len() == 0,
                PeerFrame::Message(m) => {
                    &&& body@.len() > 0
                    &&& m@.message_id.spec_byte() == body@[0]
                    &&& m@.message_id.wf()
                    &&& m@.payload == body@.subrange(1, body@.len() as int)
                },
            },
    {
        if body.len() == 0 {
            return PeerFrame::KeepAlive;
        }
        let message_id = PeerMessageId::from_byte(body[0]);
        let payload = vstd::slice::slice_to_vec(vstd::slice::slice_subrange(body, 1, body.len()));
        PeerFrame::Message(PeerMessageIn { message_id, payload })
    }

    /// The kind of the message.
    pub fn message_id(&self) -> (r: PeerMessageId)
        ensures
            r == self@.message_id,
    {
        self.message_id
    }

    /// The payload of the message.
    pub fn payload(&self) -> (r: &Vec<u8>)
        ensures
            r@ == self@.payload,
    {
        &self.payload
    }
}

/// A frame that we send reads back as the same message: its header
/// announces the length of the rest, whose first byte is the id and whose
/// other bytes are the payload.
pub proof fn lemma_message_round_trip(id: u8, payload: Seq<u8>)
    requires
        payload.len() < u32::MAX,
    ensures
        message_frame(id, payload).len() == payload.len() + 5,
        be32(message_frame(id, payload).subrange(0, 4)) == payload.len() + 1,
        message_frame(id, payload)[4] == id,
        message_frame(id, payload).subrange(5, payload.len() + 5int) == payload,
{
    let f = message_frame(id, payload);
    lemma_be32((payload.len() + 1) as u32);
    assert(f.subrange(0, 4) =~= be32_bytes(payload.len() + 1));
    assert(f.subrange(5, payload.len() + 5int) =~= payload);
}

/// A request for a block: piece index, offset in the piece, length.
#[derive(Debug, Clone, Copy, PartialEq, Eq)]
pub struct PeerMessageRequest {
    pub index: u32,
    pub begin: u32,
    pub length: u32,
}

impl PeerMessageRequest {
    /// The 12-byte payload: index, begin and length, big-endian.
    pub fn encode(&self) -> (r: Vec<u8>)
        ensures
            r@ == be32_bytes(self.index as nat) + be32_bytes(self.begin as nat) + be32_bytes(
                self.length as nat,
            ),
    {
        let mut out: Vec<u8> = Vec::new();
        push_be32(&mut out, self.index);
        push_be32(&mut out, self.begin);
        push_be32(&mut out, self.length);
        assert(out@ =~= be32_bytes(self.index as nat) + be32_bytes(self.begin as nat) + be32_bytes(
            self.length as nat,
        ));
        out
    }
}

/// A block of a piece, as a `Piece` message carries it.
#[derive(Debug)]
pub struct PeerMessageResponse {
    index: u32,
    begin: u32,
    block: Vec<u8>,
}

/// What a received block says.
pub struct BlockModel {
    pub index: nat,
    pub begin: nat,
    pub block: Seq<u8>,
}

impl View for PeerMessageResponse {
    type V = BlockModel;

    closed spec fn view(&self) -> BlockModel {
        BlockModel { index: self.index as nat, begin: self.begin as nat, block: self.block@ }
    }
}

impl PeerMessageResponse {
    /// Reads a `Piece` payload: big-endian index and begin, then the block.
    pub fn decode(payload: &[u8]) -> (r: Result<PeerMessageResponse, ProtocolError>)
        ensures
            match r {
                Ok(b) => {
                    &&& payload@.len() >= 8
                    &&& b@.index == be32(payload@.subrange(0, 4))
                    &&& b@.begin == be32(payload@.subrange(4, 8))
                    &&& b@.block == payload@.subrange(8, payload@.len() as int)
                },
                Err(e) => e == ProtocolError::ShortPayload && payload@.len() < 8,
            },
    {
        if payload.len() < 8 {
            return Err(ProtocolError::ShortPayload);
        }
        let index = read_be32(payload, 0);
        let begin = read_be32(payload, 4);
        let block = vstd::slice::slice_to_vec(
            vstd::slice::slice_subrange(payload, 8, payload.len()),
        );
        Ok(PeerMessageResponse { index, begin, block })
    }

    /// The piece index.
    pub fn index(&self) -> (r: u32)
        ensures
            r == self@.index,
    {
        self.index
    }

    /// The offset of the block in the piece.
    pub fn begin(&self) -> (r: u32)
        ensures
            r == self@.begin,
    {
        self.begin
    }

    /// The bytes of the block.
    pub fn block(&self) -> (r: &Vec<u8>)
        ensures
            r@ == self@.block,
    {
        &self.block
    }
}

} // verus!
