//! The 68-byte handshake that opens a peer connection.

use vstd::prelude::*;

use crate::codec::push_all;
use crate::error::ProtocolError;
use crate::order::compare_bytes;

verus! {

/// The protocol name "BitTorrent protocol".
pub open spec fn protocol_name() -> Seq<u8> {
    seq![66u8, 105, 116, 84, 111, 114, 114, 101, 110, 116, 32, 112, 114, 111, 116, 111, 99, 111, 108]
}

/// The 68-byte handshake: the name's length 19, the name, eight zero
/// reserved bytes, the info hash and the peer id.
pub open spec fn handshake_frame(info_hash: Seq<u8>, peer_id: Seq<u8>) -> Seq<u8> {
    seq![19u8] + protocol_name() + Seq::new(8, |k: int| 0u8) + info_hash + peer_id
}

fn protocol_name_bytes() -> (r: [u8; 19])
    ensures
        r@ == protocol_name(),
{
    let r: [u8; 19] = [66, 105, 116, 84, 111, 114, 114, 101, 110, 116, 32, 112, 114, 111, 116, 111, 99, 111, 108];
    assert(r@ =~= protocol_name());
    r
}

/// The 20 bytes of `b` from `start` on.
fn take20(b: &[u8], start: usize) -> (r: [u8; 20])
    requires
        start + 20 <= b.len(),
    ensures
        r@ == b@.subrange(start as int, start + 20),
{
    let mut r: [u8; 20] = [0; 20];
    let mut k: usize = 0;
    while k < 20
        invariant
            start + 20 <= b.len(),
            k <= 20,
            forall|j: int| 0 <= j < k ==> r@[j] == b@[start + j],
        decreases 20 - k,
    {
        r[k] = b[start + k];
        k = k + 1;
    }
    assert(r@ =~= b@.subrange(start as int, start + 20));
    r
}

/// Our side of the handshake.
pub struct HandshakeRequest<'caller> {
    pub info_hash: &'caller [u8; 20],
    pub peer_id: &'caller [u8; 20],
}

impl HandshakeRequest<'_> {
    /// The handshake frame to send, all 68 bytes of it.
    pub fn encode(&self) -> (r: Vec<u8>)
        ensures
            r@ == handshake_frame(self.info_hash@, self.peer_id@),
    {
        let mut out: Vec<u8> = Vec::new();
        out.push(19);
        push_all(&mut out, protocol_name_bytes().as_slice());
        let reserved: [u8; 8] = [0; 8];
        push_all(&mut out, reserved.as_slice());
        push_all(&mut out, self.info_hash.as_slice());
        push_all(&mut out, self.peer_id.as_slice());
        assert(reserved@ =~= Seq::new(8, |k: int| 0u8));
        assert(out@ =~= handshake_frame(self.info_hash@, self.peer_id@));
        out
    }
}

/// The peer's side of the handshake.
#[derive(Debug)]
pub struct HandshakeResponse {
    info_hash: [u8; 20],
    peer_id: [u8; 20],
}

/// What a received handshake says.
pub struct HandshakeModel {
    pub info_hash: Seq<u8>,
    pub peer_id: Seq<u8>,
}

impl View for HandshakeResponse {
    type V = HandshakeModel;

    closed spec fn view(&self) -> HandshakeModel {
        HandshakeModel { info_hash: self.info_hash@, peer_id: self.peer_id@ }
    }
}

impl HandshakeResponse {
    /// Reads a received 68-byte handshake. The reserved bytes are not
    /// looked at.
    pub fn decode(frame: &[u8; 68]) -> (r: Result<HandshakeResponse, ProtocolError>)
        ensures
            match r {
                Ok(h) => {
                    &&& frame@[0] == 19
                    &&& frame@.subrange(1, 20) == protocol_name()
                    &&& h@.info_hash == frame@.subrange(28, 48)
                    &&& h@.peer_id == frame@.subrange(48, 68)
                },
                Err(ProtocolError::HandshakeLength) => frame@[0] != 19,
                Err(ProtocolError::HandshakeProtocol) => frame@[0] == 19 && frame@.subrange(1, 20)
                    != protocol_name(),
                Err(_) => false,
            },
    {
        let bytes = frame.as_slice();
        if bytes[0] != 19 {
            return Err(ProtocolError::HandshakeLength);
        }
        let name = protocol_name_bytes();
        if compare_bytes(vstd::slice::slice_subrange(bytes, 1, 20), name.as_slice()) != 0 {
            return Err(ProtocolError::HandshakeProtocol);
        }
        Ok(HandshakeResponse { info_hash: take20(bytes, 28), peer_id: take20(bytes, 48) })
    }

    /// The torrent the peer serves.
    pub fn info_hash(&self) -> (r: &[u8; 20])
        ensures
            r@ == self@.info_hash,
    {
        &self.info_hash
    }

    /// The peer's id.
    pub fn peer_id(&self) -> (r: &[u8; 20])
        ensures
            r@ == self@.peer_id,
    {
        &self.peer_id
    }
}

/// A handshake that we send reads back, at the other end, as the same info
/// hash and peer id.
pub proof fn lemma_handshake_round_trip(info_hash: Seq<u8>, peer_id: Seq<u8>)
    requires
        info_hash.len() == 20,
        peer_id.len() == 20,
    ensures
        handshake_frame(info_hash, peer_id).len() == 68,
        handshake_frame(info_hash, peer_id)[0] == 19,
        handshake_frame(info_hash, peer_id).subrange(1, 20) == protocol_name(),
        handshake_frame(info_hash, peer_id).subrange(28, 48) == info_hash,
        handshake_frame(info_hash, peer_id).subrange(48, 68) == peer_id,
{
    let f = handshake_frame(info_hash, peer_id);
    assert(f.subrange(1, 20) =~= protocol_name());
    assert(f.subrange(28, 48) =~= info_hash);
    assert(f.subrange(48, 68) =~= peer_id);
}

} // verus!
