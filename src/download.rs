//! The download of one piece from one peer, as a state machine: each frame
//! from the peer goes in, and what to send next (or the checked piece) comes
//! out.

use vstd::prelude::*;

use crate::codec::push_all;
use crate::error::ProtocolError;
use crate::hashing::{sha1_digest, sha1_of};
use crate::message::{
    be32, be32_bytes, message_frame, MessageModel, PeerFrame, PeerMessageId, PeerMessageOut,
    PeerMessageRequest, PeerMessageResponse,
};
use crate::metainfo::{piece_count, piece_count_of};

verus! {

/// The largest block requested at once.
pub const BLOCK_SIZE: u32 = 16384;

/// The size of piece `index`: the piece length, but the last piece only
/// holds what is left of the file.
pub open spec fn piece_size(total: int, piece_length: int, index: int) -> int {
    if piece_length <= total - piece_length * index {
        piece_length
    } else {
        total - piece_length * index
    }
}

/// The length of the block at `begin` in a piece of `size` bytes.
pub open spec fn block_length(size: int, begin: int) -> int {
    if BLOCK_SIZE <= size - begin {
        BLOCK_SIZE as int
    } else {
        size - begin
    }
}

/// Blocks are asked for at multiples of the block size, every one of them
/// full but the last, which ends the piece exactly; when the piece size is not
/// a multiple of the block size, that last block is shorter than a full one.
pub proof fn lemma_block_plan(size: int, at: int)
    requires
        0 <= at < size,
        at % (BLOCK_SIZE as int) == 0,
    ensures
        0 < block_length(size, at) <= BLOCK_SIZE,
        at + block_length(size, at) <= size,
        at + block_length(size, at) < size ==> block_length(size, at) == BLOCK_SIZE && (at
            + block_length(size, at)) % (BLOCK_SIZE as int) == 0,
        at + block_length(size, at) == size && size % (BLOCK_SIZE as int) != 0 ==> block_length(
            size,
            at,
        ) == size % (BLOCK_SIZE as int) && block_length(size, at) < BLOCK_SIZE,
{
    let b = BLOCK_SIZE as int;
    let q = at / b;
    vstd::arithmetic::div_mod::lemma_fundamental_div_mod(at, b);
    if at + block_length(size, at) < size {
        vstd::arithmetic::div_mod::lemma_fundamental_div_mod_converse(at + b, b, q + 1, 0);
    }
    if at + block_length(size, at) == size && block_length(size, at) < b {
        vstd::arithmetic::div_mod::lemma_fundamental_div_mod_converse(size, b, q, size - at);
    }
    if at + block_length(size, at) == size && block_length(size, at) == b {
        vstd::arithmetic::div_mod::lemma_fundamental_div_mod_converse(size, b, q + 1, 0);
    }
}

/// The bytes that the first `k` pieces of `unit` bytes hold, of `total`.
pub open spec fn covered(total: int, unit: int, k: int) -> int
    decreases k,
{
    if k <= 0 {
        0
    } else {
        covered(total, unit, k - 1) + piece_size(total, unit, k - 1)
    }
}

/// Cutting `total` bytes into `piece_count(total, unit)` pieces: every piece
/// but the last is full, the last is not empty, and the pieces add up to the
/// whole; when `total` is not a multiple of `unit`, the last piece holds the
/// remainder, which is shorter than a full one.
pub proof fn lemma_cover(total: int, unit: int)
    requires
        total >= 0,
        unit > 0,
    ensures
        forall|i: int|
            0 <= i < piece_count(total, unit) ==> 0 < #[trigger] piece_size(total, unit, i) <= unit,
        forall|i: int|
            0 <= i < piece_count(total, unit) - 1 ==> #[trigger] piece_size(total, unit, i) == unit,
        covered(total, unit, piece_count(total, unit)) == total,
        total % unit != 0 ==> piece_size(total, unit, piece_count(total, unit) - 1) == total % unit
            < unit,
{
    let n = piece_count(total, unit);
    vstd::arithmetic::div_mod::lemma_fundamental_div_mod(total + unit - 1, unit);
    vstd::arithmetic::div_mod::lemma_fundamental_div_mod(total, unit);
    assert(unit * (n - 1) < total <= unit * n && n >= 0) by (nonlinear_arith)
        requires
            n == (total + unit - 1) / unit,
            total + unit - 1 == unit * n + (total + unit - 1) % unit,
            0 <= (total + unit - 1) % unit < unit,
            total >= 0,
            unit > 0,
    ;
    assert forall|i: int| 0 <= i < n implies 0 < #[trigger] piece_size(total, unit, i) <= unit by {
        assert(unit * i <= unit * (n - 1)) by (nonlinear_arith)
            requires
                i <= n - 1,
                unit > 0,
        ;
    }
    assert forall|i: int| 0 <= i < n - 1 implies #[trigger] piece_size(total, unit, i) == unit by {
        assert(unit * i + unit <= unit * (n - 1)) by (nonlinear_arith)
            requires
                i + 1 <= n - 1,
                unit > 0,
        ;
    }
    lemma_covered_full(total, unit, n - 1);
    assert(unit * n == unit * (n - 1) + unit && unit * 0 == 0 && n * unit == unit * n
        && (n - 1) * unit == unit * (n - 1)) by (nonlinear_arith);
    if n > 0 {
        assert(covered(total, unit, n) == unit * (n - 1) + piece_size(total, unit, n - 1));
        assert(piece_size(total, unit, n - 1) == total - unit * (n - 1));
        if total - unit * (n - 1) == unit {
            vstd::arithmetic::div_mod::lemma_fundamental_div_mod_converse(total, unit, n, 0);
        }
        if total % unit != 0 {
            vstd::arithmetic::div_mod::lemma_fundamental_div_mod_converse(
                total,
                unit,
                n - 1,
                total - unit * (n - 1),
            );
        }
    } else {
        assert(total == 0);
    }
}

/// The first `k` pieces are full when the next one still starts in the file.
proof fn lemma_covered_full(total: int, unit: int, k: int)
    requires
        unit > 0,
        unit * k < total || k <= 0,
    ensures
        covered(total, unit, k) == if k <= 0 {
            0
        } else {
            unit * k
        },
    decreases k,
{
    if k > 0 {
        assert(unit * (k - 1) < total && unit * k == unit * (k - 1) + unit) by (nonlinear_arith)
            requires
                unit * k < total,
                unit > 0,
        ;
        lemma_covered_full(total, unit, k - 1);
    }
}

/// Pieces and blocks: a file of `total` bytes in pieces of `piece_length`
/// has pieces that add up to the file, full but the last; a piece of `size`
/// bytes is asked for in blocks at offsets `BLOCK_SIZE * k`, of
/// `block_length(size, BLOCK_SIZE * k)` bytes, which add up to the piece, are
/// full but the last, and the last is shorter than a full block when the
/// piece size is not a multiple of the block size. The download hands out a
/// piece only when it holds exactly `size` bytes (see `on_message_spec`).
pub proof fn lemma_piece_plan(total: int, piece_length: int, size: int)
    requires
        total >= 0,
        piece_length > 0,
        size > 0,
    ensures
        covered(total, piece_length, piece_count(total, piece_length)) == total,
        forall|i: int|
            0 <= i < piece_count(total, piece_length) - 1 ==> #[trigger] piece_size(
                total,
                piece_length,
                i,
            ) == piece_length,
        forall|k: int|
            0 <= k < piece_count(size, BLOCK_SIZE as int) ==> #[trigger] block_length(
                size,
                BLOCK_SIZE * k,
            ) == piece_size(size, BLOCK_SIZE as int, k),
        covered(size, BLOCK_SIZE as int, piece_count(size, BLOCK_SIZE as int)) == size,
        size % (BLOCK_SIZE as int) != 0 ==> block_length(
            size,
            BLOCK_SIZE * (piece_count(size, BLOCK_SIZE as int) - 1),
        ) == size % (BLOCK_SIZE as int) < BLOCK_SIZE,
{
    lemma_cover(total, piece_length);
    lemma_cover(size, BLOCK_SIZE as int);
}

/// The frame of a request for a block.
pub open spec fn request_frame(index: nat, begin: nat, length: nat) -> Seq<u8> {
    message_frame(6, be32_bytes(index) + be32_bytes(begin) + be32_bytes(length))
}

/// Where a piece download stands.
#[derive(Debug, Clone, Copy, PartialEq, Eq)]
pub enum DownloadState {
    /// Waiting for the peer's bitfield.
    AwaitBitfield,
    /// Interest sent; waiting to be unchoked.
    AwaitUnchoke,
    /// A block request is outstanding.
    AwaitBlock,
    /// The piece was assembled and handed out.
    Complete,
    /// The download stopped on an error.
    Failed,
}

/// Why a piece download cannot go on.
#[derive(Debug, Clone, Copy, PartialEq, Eq)]
pub enum DownloadError {
    /// The torrent has no piece with this index.
    NoSuchPiece,
    /// The piece is too large to be requested on the wire.
    PieceTooLarge,
    /// The peer sent a message of a kind that is not expected now.
    UnexpectedMessage,
    /// A message could not be read.
    Protocol(ProtocolError),
    /// A block does not match the outstanding request.
    BlockMismatch,
    /// The assembled piece does not have the expected digest.
    Corrupt,
    /// The download is already over.
    Finished,
}

/// What the caller does next.
#[derive(Debug)]
pub enum Step {
    /// Send these frame bytes to the peer, then hand over the next frame.
    Send(Vec<u8>),
    /// Send nothing; hand over the next frame.
    Wait,
    /// The piece, complete and checked.
    Done(Vec<u8>),
}

/// What a piece download knows.
pub struct DownloadModel {
    pub index: nat,
    pub size: nat,
    pub expected: Seq<u8>,
    pub state: DownloadState,
    pub received: Seq<u8>,
}

impl DownloadModel {
    /// A piece of at least one byte that the wire can address, and blocks
    /// received up to at most its size: none before the first request, and
    /// while a block is outstanding, whole blocks only and some of the piece
    /// still missing.
    pub open spec fn wf(self) -> bool {
        &&& 0 < self.size <= u32::MAX
        &&& self.index <= u32::MAX
        &&& self.expected.len() == 20
        &&& self.received.len() <= self.size
        &&& (self.state == DownloadState::AwaitBlock ==> self.received.len() < self.size
            && self.received.len() as int % (BLOCK_SIZE as int) == 0)
        &&& (self.state == DownloadState::AwaitBitfield || self.state
            == DownloadState::AwaitUnchoke ==> self.received.len() == 0)
    }

    /// Every block has arrived; the piece waits for its digest check.
    pub open spec fn assembled(self) -> bool {
        &&& 0 < self.size <= u32::MAX
        &&& self.index <= u32::MAX
        &&& self.expected.len() == 20
        &&& self.received.len() == self.size
        &&& self.state == DownloadState::AwaitBlock
    }

    /// The same download in another state, with the same bytes received.
    pub open spec fn with_state(self, state: DownloadState) -> DownloadModel {
        DownloadModel { state, ..self }
    }
}

/// What one message does to a download that is still going on.
pub open spec fn on_message_spec(
    old: DownloadModel,
    msg: MessageModel,
    new: DownloadModel,
    r: Result<Step, DownloadError>,
) -> bool {
    let failed = old.with_state(DownloadState::Failed);
    match old.state {
        DownloadState::AwaitBitfield => if msg.message_id == PeerMessageId::Bitfield {
            &&& new == old.with_state(DownloadState::AwaitUnchoke)
            &&& r matches Ok(Step::Send(f)) && f@ == message_frame(2, Seq::empty())
        } else {
            new == failed && r == Err::<Step, DownloadError>(DownloadError::UnexpectedMessage)
        },
        DownloadState::AwaitUnchoke => if msg.message_id == PeerMessageId::Unchoke {
            &&& new == old.with_state(DownloadState::AwaitBlock)
            &&& r matches Ok(Step::Send(f)) && f@ == request_frame(
                old.index,
                0,
                block_length(old.size as int, 0) as nat,
            )
        } else {
            new == failed && r == Err::<Step, DownloadError>(DownloadError::UnexpectedMessage)
        },
        DownloadState::AwaitBlock => {
            let p = msg.payload;
            let at = old.received.len();
            if msg.message_id != PeerMessageId::Piece {
                new == failed && r == Err::<Step, DownloadError>(DownloadError::UnexpectedMessage)
            } else if p.len() < 8 {
                new == failed && r == Err::<Step, DownloadError>(
                    DownloadError::Protocol(ProtocolError::ShortPayload),
                )
            } else if be32(p.subrange(0, 4)) != old.index || be32(p.subrange(4, 8)) != at || p.len()
                - 8 != block_length(old.size as int, at as int) {
                new == failed && r == Err::<Step, DownloadError>(DownloadError::BlockMismatch)
            } else {
                let got = old.received + p.subrange(8, p.len() as int);
                if got.len() < old.size {
                    &&& new == DownloadModel { received: got, ..old }
                    &&& r matches Ok(Step::Send(f)) && f@ == request_frame(
                        old.index,
                        got.len(),
                        block_length(old.size as int, got.len() as int) as nat,
                    )
                } else if sha1_of(got) == old.expected {
                    &&& new == DownloadModel {
                        state: DownloadState::Complete,
                        received: Seq::empty(),
                        ..old
                    }
                    &&& r matches Ok(Step::Done(piece)) && piece@ == got && got.len() == old.size
                } else {
                    &&& new == DownloadModel { state: DownloadState::Failed, received: got, ..old }
                    &&& r == Err::<Step, DownloadError>(DownloadError::Corrupt)
                }
            }
        },
        _ => false,
    }
}

/// The download of one piece from one peer, one block request at a time.
pub struct PieceDownload {
    index: u32,
    size: u32,
    expected: [u8; 20],
    state: DownloadState,
    buffer: Vec<u8>,
}

impl View for PieceDownload {
    type V = DownloadModel;

    closed spec fn view(&self) -> DownloadModel {
        DownloadModel {
            index: self.index as nat,
            size: self.size as nat,
            expected: self.expected@,
            state: self.state,
            received: self.buffer@,
        }
    }
}

/// The frame of a request for the block at `begin` of a piece.
fn request_for(index: u32, size: u32, begin: u32) -> (r: Vec<u8>)
    requires
        begin < size,
    ensures
        r@ == request_frame(index as nat, begin as nat, block_length(size as int, begin as int) as nat),
{
    let length: u32 = if BLOCK_SIZE <= size - begin {
        BLOCK_SIZE
    } else {
        size - begin
    };
    let payload = PeerMessageRequest { index, begin, length }.encode();
    PeerMessageOut { message_id: PeerMessageId::Request, payload: payload.as_slice() }.encode()
}

impl PieceDownload {
    /// Starts the download of piece `index` of a file of `total_length`
    /// bytes cut in pieces of `piece_length`, whose digest must be
    /// `expected_hash`.
    pub fn new(total_length: usize, piece_length: usize, index: u32, expected_hash: [u8; 20]) -> (r:
        Result<PieceDownload, DownloadError>)
        ensures
            match r {
                Ok(d) => {
                    &&& piece_length > 0 && index < piece_count(total_length as int, piece_length as int)
                    &&& d@ == DownloadModel {
                        index: index as nat,
                        size: piece_size(total_length as int, piece_length as int, index as int) as nat,
                        expected: expected_hash@,
                        state: DownloadState::AwaitBitfield,
                        received: Seq::empty(),
                    }
                    &&& d@.wf()
                },
                Err(DownloadError::NoSuchPiece) => piece_length == 0 || index >= piece_count(
                    total_length as int,
                    piece_length as int,
                ),
                Err(DownloadError::PieceTooLarge) => piece_length > 0 && index < piece_count(
                    total_length as int,
                    piece_length as int,
                ) && piece_size(total_length as int, piece_length as int, index as int) > u32::MAX,
                Err(_) => false,
            },
    {
        if piece_length == 0 || index as usize >= piece_count_of(total_length, piece_length) {
            return Err(DownloadError::NoSuchPiece);
        }
        let ghost (n, p, i) = (total_length as int, piece_length as int, index as int);
        proof {
            vstd::arithmetic::div_mod::lemma_fundamental_div_mod(n + p - 1, p);
            assert(p * i < n) by (nonlinear_arith)
                requires
                    i < (n + p - 1) / p,
                    n + p - 1 == p * ((n + p - 1) / p) + (n + p - 1) % p,
                    0 <= (n + p - 1) % p < p,
                    p > 0,
                    i >= 0,
            ;
        }
        let start: usize = piece_length * (index as usize);
        let rest: usize = total_length - start;
        let size: usize = if piece_length <= rest {
            piece_length
        } else {
            rest
        };
        if size > u32::MAX as usize {
            return Err(DownloadError::PieceTooLarge);
        }
        Ok(
            PieceDownload {
                index,
                size: size as u32,
                expected: expected_hash,
                state: DownloadState::AwaitBitfield,
                buffer: Vec::new(),
            },
        )
    }

    /// Hands over the next frame from the peer and says what to do next.
    /// Keep-alives change nothing; any other anomaly ends the download.
    pub fn on_frame(&mut self, frame: PeerFrame) -> (r: Result<Step, DownloadError>)
        requires
            old(self)@.wf(),
        ensures
            final(self)@.wf(),
            match old(self)@.state {
                DownloadState::Complete | DownloadState::Failed => {
                    &&& r == Err::<Step, DownloadError>(DownloadError::Finished)
                    &&& final(self)@ == old(self)@
                },
                _ => match frame {
                    PeerFrame::KeepAlive => r matches Ok(Step::Wait) && final(self)@ == old(self)@,
                    PeerFrame::Message(msg) => on_message_spec(old(self)@, msg@, final(self)@, r),
                },
            },
    {
        match self.state {
            DownloadState::Complete | DownloadState::Failed => {
                return Err(DownloadError::Finished);
            },
            _ => {},
        }
        let msg = match frame {
            PeerFrame::KeepAlive => {
                return Ok(Step::Wait);
            },
            PeerFrame::Message(msg) => msg,
        };
        let id = msg.message_id();
        match self.state {
            DownloadState::AwaitBitfield => {
                if id != PeerMessageId::Bitfield {
                    self.state = DownloadState::Failed;
                    return Err(DownloadError::UnexpectedMessage);
                }
                self.state = DownloadState::AwaitUnchoke;
                let empty: [u8; 0] = [];
                assert(empty@ =~= Seq::<u8>::empty());
                let frame_bytes = PeerMessageOut {
                    message_id: PeerMessageId::Interested,
                    payload: empty.as_slice(),
                }.encode();
                Ok(Step::Send(frame_bytes))
            },
            DownloadState::AwaitUnchoke => {
                if id != PeerMessageId::Unchoke {
                    self.state = DownloadState::Failed;
                    return Err(DownloadError::UnexpectedMessage);
                }
                self.state = DownloadState::AwaitBlock;
                Ok(Step::Send(request_for(self.index, self.size, 0)))
            },
            _ => self.on_block(msg.payload().as_slice(), id),
        }
    }

    /// A message that arrives while a block request is outstanding.
    fn on_block(&mut self, payload: &[u8], id: PeerMessageId) -> (r: Result<Step, DownloadError>)
        requires
            old(self)@.wf(),
            old(self)@.state == DownloadState::AwaitBlock,
        ensures
            final(self)@.wf(),
            on_message_spec(old(self)@, MessageModel { message_id: id, payload: payload@ }, final(self)@, r),
    {
        if id != PeerMessageId::Piece {
            self.state = DownloadState::Failed;
            return Err(DownloadError::UnexpectedMessage);
        }
        let block = match PeerMessageResponse::decode(payload) {
            Ok(block) => block,
            Err(e) => {
                self.state = DownloadState::Failed;
                return Err(DownloadError::Protocol(e));
            },
        };
        let at: usize = self.buffer.len();
        let wanted: usize = if (BLOCK_SIZE as usize) <= (self.size as usize) - at {
            BLOCK_SIZE as usize
        } else {
            (self.size as usize) - at
        };
        if block.index() != self.index || block.begin() as usize != at || block.block().len()
            != wanted {
            self.state = DownloadState::Failed;
            return Err(DownloadError::BlockMismatch);
        }
        let ghost before = self@;
        push_all(&mut self.buffer, block.block().as_slice());
        assert(self@.received == before.received + block@.block);
        proof {
            lemma_block_plan(self@.size as int, at as int);
        }
        if self.buffer.len() < self.size as usize {
            return Ok(Step::Send(request_for(self.index, self.size, self.buffer.len() as u32)));
        }
        let digest = sha1_digest(self.buffer.as_slice());
        self.finish(digest)
    }

    /// Ends a download whose piece is assembled, given the piece's digest:
    /// hands the piece out when the digest is the expected one.
    fn finish(&mut self, digest: [u8; 20]) -> (r: Result<Step, DownloadError>)
        requires
            old(self)@.assembled(),
        ensures
            final(self)@.wf(),
            digest@ == old(self)@.expected ==> {
                &&& final(self)@ == DownloadModel {
                    state: DownloadState::Complete,
                    received: Seq::empty(),
                    ..old(self)@
                }
                &&& r matches Ok(Step::Done(piece)) && piece@ == old(self)@.received
            },
            digest@ != old(self)@.expected ==> {
                &&& final(self)@ == old(self)@.with_state(DownloadState::Failed)
                &&& r == Err::<Step, DownloadError>(DownloadError::Corrupt)
            },
    {
        let expected = self.expected;
        if crate::order::compare_bytes(digest.as_slice(), expected.as_slice()) != 0 {
            self.state = DownloadState::Failed;
            return Err(DownloadError::Corrupt);
        }
        let mut piece: Vec<u8> = Vec::new();
        core::mem::swap(&mut piece, &mut self.buffer);
        self.state = DownloadState::Complete;
        Ok(Step::Done(piece))
    }

    /// Where the download stands.
    pub fn state(&self) -> (r: DownloadState)
        ensures
            r == self@.state,
    {
        self.state
    }

    /// The number of bytes of the piece.
    pub fn size(&self) -> (r: u32)
        ensures
            r == self@.size,
    {
        self.size
    }
}

} // verus!
