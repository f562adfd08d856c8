use bittorrent_starter_rust::download::{DownloadError, DownloadState, PieceDownload, Step};
use bittorrent_starter_rust::error::ProtocolError;
use bittorrent_starter_rust::handshake::{HandshakeRequest, HandshakeResponse};
use bittorrent_starter_rust::message::{
    frame_length, PeerFrame, PeerMessageId, PeerMessageIn, PeerMessageOut, PeerMessageRequest,
    PeerMessageResponse,
};
use sha1::Digest;

#[test]
fn handshake_round_trip() {
    let info_hash: [u8; 20] = core::array::from_fn(|i| i as u8);
    let peer_id = *b"00112233445566778899";
    let frame = HandshakeRequest { info_hash: &info_hash, peer_id: &peer_id }.encode();
    assert_eq!(frame.len(), 68);
    assert_eq!(frame[0], 19);
    assert_eq!(&frame[1..20], b"BitTorrent protocol");
    assert_eq!(&frame[20..28], &[0; 8]);
    let received: [u8; 68] = frame.try_into().unwrap();
    let response = HandshakeResponse::decode(&received).unwrap();
    assert_eq!(response.info_hash(), &info_hash);
    assert_eq!(response.peer_id(), &peer_id);
}

#[test]
fn handshake_with_wrong_length_byte_is_rejected() {
    let mut frame: [u8; 68] =
        HandshakeRequest { info_hash: &[1; 20], peer_id: &[2; 20] }.encode().try_into().unwrap();
    frame[0] = 18;
    assert_eq!(HandshakeResponse::decode(&frame).unwrap_err(), ProtocolError::HandshakeLength);
}

#[test]
fn handshake_with_wrong_name_is_rejected() {
    let mut frame: [u8; 68] =
        HandshakeRequest { info_hash: &[1; 20], peer_id: &[2; 20] }.encode().try_into().unwrap();
    frame[5] = b'X';
    assert_eq!(HandshakeResponse::decode(&frame).unwrap_err(), ProtocolError::HandshakeProtocol);
}

#[test]
fn handshake_passes_reserved_bytes_through() {
    let mut frame: [u8; 68] =
        HandshakeRequest { info_hash: &[1; 20], peer_id: &[2; 20] }.encode().try_into().unwrap();
    frame[25] = 0x10;
    assert!(HandshakeResponse::decode(&frame).is_ok());
}

#[test]
fn message_frames() {
    let frame = PeerMessageOut { message_id: PeerMessageId::Interested, payload: &[] }.encode();
    assert_eq!(frame, vec![0, 0, 0, 1, 2]);
    let frame = PeerMessageOut { message_id: PeerMessageId::Have, payload: &[0, 0, 1, 0] }.encode();
    assert_eq!(frame, vec![0, 0, 0, 5, 4, 0, 0, 1, 0]);
    assert_eq!(frame_length(&[0, 0, 0, 5]), Ok(5));
    assert_eq!(frame_length(&[0, 16, 0, 1]), Ok(1048577));
    assert_eq!(frame_length(&[0, 16, 0, 2]), Err(ProtocolError::FrameTooLong));
    assert_eq!(frame_length(&[255, 255, 255, 255]), Err(ProtocolError::FrameTooLong));
}

#[test]
fn message_bodies() {
    assert!(matches!(PeerMessageIn::decode(&[]), PeerFrame::KeepAlive));
    match PeerMessageIn::decode(&[5, 0xff, 0x80]) {
        PeerFrame::Message(m) => {
            assert_eq!(m.message_id(), PeerMessageId::Bitfield);
            assert_eq!(m.payload(), &vec![0xff, 0x80]);
        }
        PeerFrame::KeepAlive => panic!("a message was read as keep-alive"),
    }
    match PeerMessageIn::decode(&[20]) {
        PeerFrame::Message(m) => {
            assert_eq!(m.message_id(), PeerMessageId::Other(20));
            assert!(m.payload().is_empty());
        }
        PeerFrame::KeepAlive => panic!("a message was read as keep-alive"),
    }
    for b in 0..=8u8 {
        assert_eq!(PeerMessageId::from_byte(b).to_byte(), b);
        assert!(!matches!(PeerMessageId::from_byte(b), PeerMessageId::Other(_)));
    }
}

#[test]
fn request_and_piece_payloads() {
    let payload = PeerMessageRequest { index: 1, begin: 16384, length: 16384 }.encode();
    assert_eq!(payload, vec![0, 0, 0, 1, 0, 0, 64, 0, 0, 0, 64, 0]);
    let block = PeerMessageResponse::decode(&[0, 0, 0, 2, 0, 0, 0, 9, 7, 7]).unwrap();
    assert_eq!(block.index(), 2);
    assert_eq!(block.begin(), 9);
    assert_eq!(block.block(), &vec![7, 7]);
    assert_eq!(
        PeerMessageResponse::decode(&[0, 0, 0, 2, 0, 0, 0]).unwrap_err(),
        ProtocolError::ShortPayload
    );
}

fn message(id: u8, payload: &[u8]) -> PeerFrame {
    let mut body = vec![id];
    body.extend_from_slice(payload);
    PeerMessageIn::decode(&body)
}

fn piece_message(index: u32, begin: u32, block: &[u8]) -> PeerFrame {
    let mut payload = index.to_be_bytes().to_vec();
    payload.extend_from_slice(&begin.to_be_bytes());
    payload.extend_from_slice(block);
    message(7, &payload)
}

fn request_frame(index: u32, begin: u32, length: u32) -> Vec<u8> {
    let mut frame = vec![0, 0, 0, 13, 6];
    frame.extend_from_slice(&index.to_be_bytes());
    frame.extend_from_slice(&begin.to_be_bytes());
    frame.extend_from_slice(&length.to_be_bytes());
    frame
}

fn sha1(data: &[u8]) -> [u8; 20] {
    sha1::Sha1::digest(data).into()
}

/// Downloads one piece through the state machine; returns the length of its last block.
fn download(total: usize, piece_length: usize, index: u32) -> usize {
    let start = piece_length * index as usize;
    let size = piece_length.min(total - start);
    let data: Vec<u8> = (0..size).map(|i| ((start + i) % 251) as u8).collect();
    let mut d = PieceDownload::new(total, piece_length, index, sha1(&data)).unwrap();
    assert_eq!(d.size() as usize, size);
    assert!(matches!(d.on_frame(PeerFrame::KeepAlive), Ok(Step::Wait)));
    match d.on_frame(message(5, &[0xff])) {
        Ok(Step::Send(frame)) => assert_eq!(frame, vec![0, 0, 0, 1, 2]),
        _ => panic!("no interest after the bitfield"),
    }
    let mut expected = request_frame(index, 0, size.min(16384) as u32);
    match d.on_frame(message(1, &[])) {
        Ok(Step::Send(frame)) => assert_eq!(frame, expected),
        _ => panic!("no request after the unchoke"),
    }
    let mut begin = 0usize;
    loop {
        let length = (size - begin).min(16384);
        let step = d.on_frame(piece_message(index, begin as u32, &data[begin..begin + length]));
        begin += length;
        match step {
            Ok(Step::Send(frame)) => {
                expected = request_frame(index, begin as u32, (size - begin).min(16384) as u32);
                assert_eq!(frame, expected);
            }
            Ok(Step::Done(piece)) => {
                assert_eq!(begin, size);
                assert_eq!(piece, data);
                assert_eq!(d.state(), DownloadState::Complete);
                return length;
            }
            _ => panic!("download stopped at {}", begin),
        }
    }
}

#[test]
fn piece_assembly_with_short_final_block() {
    // 100000 = 6 * 16384 + 1696
    assert_eq!(download(1048576, 100000, 0), 1696);
    // the last piece holds 1048576 - 10 * 100000 = 48576 = 2 * 16384 + 15808 bytes
    assert_eq!(download(1048576, 100000, 10), 15808);
}

#[test]
fn piece_assembly_with_whole_blocks() {
    assert_eq!(download(1048576, 262144, 3), 16384);
}

#[test]
fn piece_out_of_range() {
    assert!(matches!(PieceDownload::new(1048576, 100000, 11, [0; 20]), Err(DownloadError::NoSuchPiece)));
    assert!(matches!(PieceDownload::new(1048576, 0, 0, [0; 20]), Err(DownloadError::NoSuchPiece)));
    assert!(matches!(PieceDownload::new(0, 512, 0, [0; 20]), Err(DownloadError::NoSuchPiece)));
}

fn unchoked(total: usize, piece_length: usize, index: u32, expected: [u8; 20]) -> PieceDownload {
    let mut d = PieceDownload::new(total, piece_length, index, expected).unwrap();
    assert!(matches!(d.on_frame(message(5, &[])), Ok(Step::Send(_))));
    assert!(matches!(d.on_frame(message(1, &[])), Ok(Step::Send(_))));
    d
}

#[test]
fn block_with_wrong_begin_is_rejected() {
    let mut d = unchoked(1048576, 100000, 0, [0; 20]);
    let step = d.on_frame(piece_message(0, 16384, &[0; 16384]));
    assert!(matches!(step, Err(DownloadError::BlockMismatch)));
    assert_eq!(d.state(), DownloadState::Failed);
    assert!(matches!(d.on_frame(PeerFrame::KeepAlive), Err(DownloadError::Finished)));
}

#[test]
fn block_with_wrong_index_is_rejected() {
    let mut d = unchoked(1048576, 100000, 0, [0; 20]);
    let step = d.on_frame(piece_message(1, 0, &[0; 16384]));
    assert!(matches!(step, Err(DownloadError::BlockMismatch)));
}

#[test]
fn block_with_wrong_length_is_rejected() {
    let mut d = unchoked(1048576, 100000, 0, [0; 20]);
    let step = d.on_frame(piece_message(0, 0, &[0; 100]));
    assert!(matches!(step, Err(DownloadError::BlockMismatch)));
}

#[test]
fn short_piece_payload_is_rejected() {
    let mut d = unchoked(1048576, 100000, 0, [0; 20]);
    let step = d.on_frame(message(7, &[0, 0, 0]));
    assert!(matches!(step, Err(DownloadError::Protocol(ProtocolError::ShortPayload))));
}

#[test]
fn unexpected_messages_fail_the_download() {
    let mut d = PieceDownload::new(1048576, 100000, 0, [0; 20]).unwrap();
    assert!(matches!(d.on_frame(message(0, &[])), Err(DownloadError::UnexpectedMessage)));
    let mut d = PieceDownload::new(1048576, 100000, 0, [0; 20]).unwrap();
    assert!(matches!(d.on_frame(message(5, &[])), Ok(Step::Send(_))));
    assert!(matches!(d.on_frame(message(4, &[0, 0, 0, 1])), Err(DownloadError::UnexpectedMessage)));
    let mut d = unchoked(1048576, 100000, 0, [0; 20]);
    assert!(matches!(d.on_frame(message(0, &[])), Err(DownloadError::UnexpectedMessage)));
}

#[test]
fn corrupt_piece_is_rejected() {
    let mut d = unchoked(100, 100, 0, [0; 20]);
    let step = d.on_frame(piece_message(0, 0, &[1; 100]));
    assert!(matches!(step, Err(DownloadError::Corrupt)));
    assert_eq!(d.state(), DownloadState::Failed);
}
