use byteorder::{BigEndian, ByteOrder};
use leech::error::{ApplicationError, Fault};
use leech::protocol::{Handshake, Message, HANDSHAKE_LEN, PROTOCOL};

fn handshake_bytes(info_hash: [u8; 20], peer_id: [u8; 20]) -> Vec<u8> {
    let mut buf = vec![0x13u8];
    buf.extend_from_slice(b"BitTorrent protocol");
    buf.extend_from_slice(&[0u8; 8]);
    buf.extend_from_slice(&info_hash);
    buf.extend_from_slice(&peer_id);
    buf
}

fn malformed() -> ApplicationError {
    ApplicationError::ParserError(Fault::MessageMalformed)
}

#[test]
fn protocol_name_is_the_ascii_text() {
    assert_eq!(&PROTOCOL[..], b"BitTorrent protocol");
    assert_eq!(HANDSHAKE_LEN, 68);
}

#[test]
fn handshake_is_decoded_with_hash_and_peer_id() {
    let mut h = [0u8; 20];
    let mut p = [0u8; 20];
    for i in 0..20 {
        h[i] = i as u8 + 1;
        p[i] = 0xA0 + i as u8;
    }
    let buf = handshake_bytes(h, p);
    assert_eq!(buf.len(), 68);
    let got = Handshake::decode(&buf).unwrap();
    assert_eq!(got.info_hash, h);
    assert_eq!(got.peer_id, p);
}

#[test]
fn handshake_with_other_protocol_is_malformed() {
    let mut buf = handshake_bytes([1u8; 20], [2u8; 20]);
    buf[5] = b'X';
    assert_eq!(
        Handshake::decode(&buf),
        Err(ApplicationError::ParserError(Fault::HandshakeMalformed))
    );
    let mut last = handshake_bytes([1u8; 20], [2u8; 20]);
    last[19] = b'L';
    assert_eq!(
        Handshake::decode(&last),
        Err(ApplicationError::ParserError(Fault::HandshakeMalformed))
    );
}

#[test]
fn handshake_with_wrong_length_byte_or_size_is_malformed() {
    let mut buf = handshake_bytes([1u8; 20], [2u8; 20]);
    buf[0] = 0x12;
    assert_eq!(
        Handshake::decode(&buf),
        Err(ApplicationError::ParserError(Fault::HandshakeMalformed))
    );
    let good = handshake_bytes([1u8; 20], [2u8; 20]);
    assert_eq!(
        Handshake::decode(&good[..67]),
        Err(ApplicationError::ParserError(Fault::HandshakeMalformed))
    );
    let mut long = good.clone();
    long.push(0);
    assert_eq!(
        Handshake::decode(&long),
        Err(ApplicationError::ParserError(Fault::HandshakeMalformed))
    );
    assert_eq!(
        Handshake::decode(&[]),
        Err(ApplicationError::ParserError(Fault::HandshakeMalformed))
    );
}

#[test]
fn handshake_reserved_bytes_are_not_looked_at() {
    let mut buf = handshake_bytes([3u8; 20], [4u8; 20]);
    buf[25] = 0x10;
    let got = Handshake::decode(&buf).unwrap();
    assert_eq!(got, Handshake::new([3u8; 20], [4u8; 20]));
}

#[test]
fn handshake_encodes_to_the_68_bytes() {
    let h = Handshake::new([7u8; 20], [9u8; 20]);
    let bytes = h.encode();
    assert_eq!(bytes.to_vec(), handshake_bytes([7u8; 20], [9u8; 20]));
    assert_eq!(Handshake::decode(&bytes), Ok(h));
}

#[test]
fn frames_of_the_messages_without_payload() {
    assert_eq!(Message::Choke.encode(), vec![0, 0, 0, 1, 0]);
    assert_eq!(Message::Unchoke.encode(), vec![0, 0, 0, 1, 1]);
    assert_eq!(Message::Interested.encode(), vec![0, 0, 0, 1, 2]);
    assert_eq!(Message::NotInterested.encode(), vec![0, 0, 0, 1, 3]);
}

#[test]
fn frame_of_have() {
    let frame = Message::Have(267).encode();
    assert_eq!(frame, vec![0, 0, 0, 5, 4, 0, 0, 1, 11]);
    assert_eq!(Message::decode(&frame), Ok(Some(Message::Have(267))));
}

#[test]
fn frame_of_bitfield() {
    let frame = Message::Bitfield(vec![0xF0, 0x0F]).encode();
    assert_eq!(frame, vec![0, 0, 0, 3, 5, 0xF0, 0x0F]);
    let empty = Message::Bitfield(vec![]).encode();
    assert_eq!(empty, vec![0, 0, 0, 1, 5]);
    assert_eq!(Message::decode(&empty), Ok(Some(Message::Bitfield(vec![]))));
}

#[test]
fn frame_of_request_and_cancel() {
    let request = Message::Request { index: 1, begin: 16384, length: 16384 };
    assert_eq!(
        request.encode(),
        vec![0, 0, 0, 13, 6, 0, 0, 0, 1, 0, 0, 0x40, 0, 0, 0, 0x40, 0]
    );
    let cancel = Message::Cancel { index: 0x01020304, begin: 0xFFFFFFFF, length: 0 };
    assert_eq!(
        cancel.encode(),
        vec![0, 0, 0, 13, 8, 1, 2, 3, 4, 0xFF, 0xFF, 0xFF, 0xFF, 0, 0, 0, 0]
    );
}

#[test]
fn frame_of_piece() {
    let piece = Message::Piece { index: 2, begin: 0x4000, block: vec![1, 2, 3] };
    assert_eq!(piece.encode(), vec![0, 0, 0, 12, 7, 0, 0, 0, 2, 0, 0, 0x40, 0, 1, 2, 3]);
    let empty = Message::Piece { index: 0, begin: 0, block: vec![] };
    assert_eq!(empty.encode(), vec![0, 0, 0, 9, 7, 0, 0, 0, 0, 0, 0, 0, 0]);
}

#[test]
fn every_message_is_read_back_from_its_frame() {
    let messages = vec![
        Message::Choke,
        Message::Unchoke,
        Message::Interested,
        Message::NotInterested,
        Message::Have(0),
        Message::Have(u32::MAX),
        Message::Bitfield(vec![0xAA; 33]),
        Message::Request { index: 7, begin: 32768, length: 16384 },
        Message::Piece { index: 9, begin: 49152, block: (0..=255).collect() },
        Message::Cancel { index: 7, begin: 32768, length: 16384 },
    ];
    for m in messages {
        assert!(m.fits());
        let frame = m.encode();
        let prefix = BigEndian::read_u32(&frame[..4]) as usize;
        assert_eq!(prefix, frame.len() - 4);
        assert_eq!(Message::decode(&frame), Ok(Some(m)));
    }
}

#[test]
fn length_prefix_is_one_more_than_the_payload() {
    let block = vec![5u8; 1000];
    let frame = Message::Piece { index: 1, begin: 2, block }.encode();
    assert_eq!(BigEndian::read_u32(&frame[..4]), 1 + 8 + 1000);
    assert_eq!(Message::frame_len(&[frame[0], frame[1], frame[2], frame[3]]), 1009);
    let bits = Message::Bitfield(vec![0u8; 300]).encode();
    assert_eq!(BigEndian::read_u32(&bits[..4]), 301);
}

#[test]
fn keep_alive_has_a_zero_prefix_and_is_read_as_none() {
    assert_eq!(Message::keep_alive(), vec![0, 0, 0, 0]);
    assert_eq!(Message::decode(&[0, 0, 0, 0]), Ok(None));
    assert_eq!(Message::decode(&[0, 0, 0, 0, 9, 9]), Ok(None));
}

#[test]
fn frame_len_reads_big_endian() {
    assert_eq!(Message::frame_len(&[0, 0, 1, 11]), 267);
    assert_eq!(Message::frame_len(&[0x47, 0xd9, 0x3d, 0x66]), 1205419366);
    assert_eq!(Message::frame_len(&[0xFF, 0xFF, 0xFF, 0xFF]), u32::MAX);
    assert_eq!(Message::frame_len(&[0, 0, 0, 0]), 0);
}

#[test]
fn short_buffers_are_malformed() {
    assert_eq!(Message::decode(&[]), Err(malformed()));
    assert_eq!(Message::decode(&[0, 0, 0]), Err(malformed()));
    assert_eq!(Message::decode(&[0, 0, 0, 1]), Err(malformed()));
    assert_eq!(Message::decode(&[0, 0, 0, 5, 4, 0, 0, 1]), Err(malformed()));
}

#[test]
fn payloads_of_the_wrong_size_are_malformed() {
    assert_eq!(Message::decode(&[0, 0, 0, 4, 4, 0, 0, 1]), Err(malformed()));
    assert_eq!(Message::decode(&[0, 0, 0, 6, 4, 0, 0, 1, 11, 0]), Err(malformed()));
    assert_eq!(
        Message::decode(&[0, 0, 0, 12, 6, 0, 0, 0, 1, 0, 0, 0x40, 0, 0, 0, 0x40]),
        Err(malformed())
    );
    assert_eq!(
        Message::decode(&[0, 0, 0, 12, 8, 0, 0, 0, 1, 0, 0, 0x40, 0, 0, 0, 0x40]),
        Err(malformed())
    );
    assert_eq!(Message::decode(&[0, 0, 0, 8, 7, 0, 0, 0, 2, 0, 0, 0x40]), Err(malformed()));
}

#[test]
fn unknown_ids_are_refused() {
    assert_eq!(
        Message::decode(&[0, 0, 0, 1, 9]),
        Err(ApplicationError::ParserError(Fault::UnknownMessageId))
    );
    assert_eq!(
        Message::decode(&[0, 0, 0, 3, 20, 1, 2]),
        Err(ApplicationError::ParserError(Fault::UnknownMessageId))
    );
    assert_eq!(
        Message::decode(&[0, 0, 0, 1, 255]),
        Err(ApplicationError::ParserError(Fault::UnknownMessageId))
    );
}

#[test]
fn bytes_after_the_frame_are_not_looked_at() {
    assert_eq!(Message::decode(&[0, 0, 0, 1, 1, 7, 7, 7]), Ok(Some(Message::Unchoke)));
    assert_eq!(
        Message::decode(&[0, 0, 0, 5, 4, 0, 0, 0, 3, 99]),
        Ok(Some(Message::Have(3)))
    );
}

#[test]
fn messages_without_payload_are_accepted_with_one() {
    assert_eq!(Message::decode(&[0, 0, 0, 3, 0, 1, 2]), Ok(Some(Message::Choke)));
    assert_eq!(Message::decode(&[0, 0, 0, 2, 2, 1]), Ok(Some(Message::Interested)));
}

#[test]
fn error_tells_its_fault() {
    let e = ApplicationError::ParserError(Fault::UnknownMessageId);
    assert_eq!(e.reason(), Fault::UnknownMessageId);
    assert_eq!(
        ApplicationError::WorkerError(Fault::SwarmExhausted).reason(),
        Fault::SwarmExhausted
    );
    assert_eq!(ApplicationError::PeerError(Fault::PeerTimeout).reason(), Fault::PeerTimeout);
    assert_eq!(
        ApplicationError::TrackerError(Fault::TrackerFailure).reason(),
        Fault::TrackerFailure
    );
    assert_eq!(
        ApplicationError::ProtocolError(Fault::UnexpectedPiece).reason(),
        Fault::UnexpectedPiece
    );
}
