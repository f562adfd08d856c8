//! A small BitTorrent client core: the bencode codec, the torrent metainfo
//! model, the tracker and handshake protocols, peer message framing and the
//! piece download state machine, each with machine-checked contracts.

pub mod codec;
pub mod decimal;
pub mod download;
pub mod error;
pub mod handshake;
pub mod hashing;
pub mod hex;
pub mod message;
pub mod metainfo;
pub mod order;
pub mod render;
pub mod roundtrip;
pub mod tracker;
pub mod value;

pub use codec::{decode_bencoded_value, encode_bencoded_value};
pub use handshake::{HandshakeRequest, HandshakeResponse};
pub use hex::DisplayHex;
pub use message::{PeerMessageId, PeerMessageIn, PeerMessageOut, PeerMessageRequest, PeerMessageResponse};
pub use metainfo::{Metainfo, MetainfoInfo};
pub use tracker::{TrackerRequest, TrackerResponse};
pub use value::Value;
