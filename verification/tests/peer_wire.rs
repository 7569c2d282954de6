use everlasting::framing::{
    cap_for, FrameReader, ParseCheck, ParseError, BUFFER_LIMIT, DEFAULT_FRAME_CAP,
};
use everlasting::peer::Connection;
use everlasting::piece_manager::BitField;
use everlasting::piece_map::BitField as WireBits;
use everlasting::pwp::{new_peer_id, Handshake, Message, Request, State};

fn handshake_bytes(reserved: [u8; 8], hash: [u8; 20], id: [u8; 20]) -> Vec<u8> {
    let mut b = vec![19u8];
    b.extend_from_slice(b"BitTorrent protocol");
    b.extend_from_slice(&reserved);
    b.extend_from_slice(&hash);
    b.extend_from_slice(&id);
    b
}

#[test]
fn handshake_is_68_bytes_and_checked_against_the_torrent() {
    let h = Handshake { reserved: [0, 0, 0, 0, 0, 0, 0, 1], hash: [3; 20], peer_id: [4; 20] };
    let sent = h.to_request();
    assert_eq!(sent.len(), 68);
    assert_eq!(sent, handshake_bytes([0, 0, 0, 0, 0, 0, 0, 1], [3; 20], [4; 20]));
    assert!(h.supports_dht());
    assert!(!h.supports_extensions());

    let reply = handshake_bytes([0, 0, 0, 0, 0, 0x10, 0, 0], [3; 20], [9; 20]);
    let theirs = Connection::handshake(&reply, &[3; 20]).unwrap();
    assert_eq!(theirs.peer_id, [9; 20]);
    assert_eq!(theirs.hash, [3; 20]);
    assert!(theirs.supports_extensions());
    assert!(!theirs.supports_dht());

    let other = handshake_bytes([0; 8], [5; 20], [9; 20]);
    assert_eq!(Connection::handshake(&other, &[3; 20]), Err(ParseError::WrongTorrent));
    assert_eq!(Connection::handshake(&reply[..67], &[3; 20]), Err(ParseError::Incomplete));
    let mut wrong = reply.clone();
    wrong[0] = 18;
    assert_eq!(Connection::handshake(&wrong, &[3; 20]), Err(ParseError::BadProtocol));
    let mut wrong = reply.clone();
    wrong[5] = b'x';
    assert_eq!(Connection::handshake(&wrong, &[3; 20]), Err(ParseError::BadProtocol));
    assert_eq!(Handshake::from_request(&reply), Some(theirs));
    assert_eq!(Handshake::from_request(&wrong), None);
}

#[test]
fn our_handshake_announces_dht_and_extensions() {
    let h = Handshake::new([1; 20], [2; 20]);
    assert_eq!(h.reserved, [0, 0, 0, 0, 0, 0x10, 0, 0x01]);
    assert!(h.supports_dht() && h.supports_extensions());
    assert!(h.matches(&[1; 20]));
    assert!(!h.matches(&[2; 20]));
}

#[test]
fn peer_ids_have_the_client_prefix() {
    let a = new_peer_id();
    assert_eq!(&a[..3], b"-XV");
    assert_eq!(a[7], b'-');
    for (i, c) in a.iter().enumerate() {
        if i >= 3 && i != 7 {
            assert!(c.is_ascii_alphanumeric());
        }
    }
}

#[test]
fn frames_parse_as_choke_unchoke_have() {
    let bytes = [
        0x00, 0x00, 0x00, 0x01, 0x00, 0x00, 0x00, 0x00, 0x01, 0x01, 0x00, 0x00, 0x00, 0x05, 0x04,
        0x00, 0x00, 0x00, 0x07,
    ];
    let mut reader: FrameReader<Message> = FrameReader::new(DEFAULT_FRAME_CAP);
    assert_eq!(reader.feed(&bytes), Ok(()));
    assert_eq!(reader.parse_frame(), Ok(Some(Message::Choke)));
    assert_eq!(reader.parse_frame(), Ok(Some(Message::Unchoke)));
    assert_eq!(reader.parse_frame(), Ok(Some(Message::Have(7))));
    assert_eq!(reader.parse_frame(), Ok(None));
    assert!(reader.is_empty());
}

#[test]
fn frames_wait_for_their_bytes() {
    let mut reader: FrameReader<Message> = FrameReader::new(DEFAULT_FRAME_CAP);
    let frame = Message::Piece { index: 1, begin: 16384, block: vec![9; 100] }.to_request();
    for chunk in frame.chunks(7) {
        assert_eq!(reader.parse_frame(), Ok(None));
        assert_eq!(reader.feed(chunk), Ok(()));
    }
    assert_eq!(
        reader.parse_frame(),
        Ok(Some(Message::Piece { index: 1, begin: 16384, block: vec![9; 100] }))
    );
    assert!(reader.is_empty());
    assert_eq!(reader.feed(&[0, 0, 0, 0, 0, 0]), Ok(()));
    assert_eq!(reader.parse_frame(), Ok(Some(Message::KeepAlive)));
    assert!(!reader.is_empty());
}

#[test]
fn handshake_then_messages_from_one_stream() {
    let mut stream = handshake_bytes([0; 8], [3; 20], [9; 20]);
    stream.extend_from_slice(&Message::Interested.to_request());
    let mut first: FrameReader<Handshake> = FrameReader::new(DEFAULT_FRAME_CAP);
    assert_eq!(first.feed(&stream[..10]), Ok(()));
    assert_eq!(first.parse_frame(), Ok(None));
    assert_eq!(first.feed(&stream[10..]), Ok(()));
    let h = first.parse_frame().unwrap().unwrap();
    assert_eq!(h.hash, [3; 20]);
    let mut rest: FrameReader<Message> = first.switch();
    assert_eq!(rest.parse_frame(), Ok(Some(Message::Interested)));
}

#[test]
fn frames_beyond_the_cap_are_fatal() {
    let mut reader: FrameReader<Message> = FrameReader::new(16);
    assert_eq!(reader.feed(&[0, 0, 0, 17, 7]), Ok(()));
    assert_eq!(reader.parse_frame(), Err(ParseError::TooLong));
    let mut reader: FrameReader<Message> = FrameReader::new(16);
    assert_eq!(reader.feed(&[0, 0, 0, 16, 7]), Ok(()));
    assert_eq!(reader.parse_frame(), Ok(None));
    assert_eq!(<Message as ParseCheck>::check(&[0, 0, 0, 2, 0, 0, 9], 16), Ok(6));
    assert_eq!(<Message as ParseCheck>::check(&[0, 0, 0], 16), Err(ParseError::Incomplete));
}

#[test]
fn cap_leaves_room_for_a_whole_piece() {
    assert_eq!(DEFAULT_FRAME_CAP, 1 << 20);
    assert_eq!(cap_for(16384), 1 << 20);
    assert_eq!(cap_for((1 << 20) - 14), 1 << 20);
    assert_eq!(cap_for((1 << 20) - 13), (1 << 20) + 1);
    assert_eq!(cap_for(4 << 20), (4 << 20) + 14);
    assert_eq!(cap_for(usize::MAX), usize::MAX);
}

#[test]
fn reader_refuses_to_hold_too_much() {
    let mut reader: FrameReader<Message> = FrameReader::new(DEFAULT_FRAME_CAP);
    let chunk = vec![0u8; BUFFER_LIMIT / 4];
    for _ in 0..4 {
        assert_eq!(reader.feed(&chunk), Ok(()));
    }
    assert_eq!(reader.feed(&[1]), Err(ParseError::TooLong));
}

#[test]
fn every_message_round_trips() {
    for m in [
        Message::KeepAlive,
        Message::Choke,
        Message::Unchoke,
        Message::Interested,
        Message::Uninterested,
        Message::Have(0),
        Message::Have(u32::MAX),
        Message::BitField(vec![]),
        Message::BitField(vec![0xf0, 0x01]),
        Message::Request { index: 1, begin: 2, length: 3 },
        Message::Piece { index: u32::MAX, begin: 0, block: vec![] },
        Message::Piece { index: 4, begin: 16384, block: vec![1, 2, 3] },
        Message::Cancel { index: 1, begin: 2, length: 16384 },
        Message::Port(6881),
        Message::Extended { id: 0, payload: b"de".to_vec() },
        Message::Extended { id: 3, payload: vec![] },
    ] {
        let frame = m.to_request();
        assert_eq!(<Message as ParseCheck>::check(&frame, DEFAULT_FRAME_CAP), Ok(frame.len()));
        assert_eq!(<Message as ParseCheck>::parse(&frame), Ok(m.clone()));
        assert_eq!(Message::from_request(&frame), Some(m));
    }
}

#[test]
fn message_layouts() {
    assert_eq!(Message::KeepAlive.to_request(), vec![0, 0, 0, 0]);
    assert_eq!(Message::Uninterested.to_request(), vec![0, 0, 0, 1, 3]);
    assert_eq!(Message::Have(0x01020304).to_request(), vec![0, 0, 0, 5, 4, 1, 2, 3, 4]);
    assert_eq!(
        Message::Request { index: 1, begin: 0x4000, length: 0x4000 }.to_request(),
        vec![0, 0, 0, 13, 6, 0, 0, 0, 1, 0, 0, 0x40, 0, 0, 0, 0x40, 0]
    );
    assert_eq!(
        Message::Piece { index: 2, begin: 0, block: vec![0xAB] }.to_request(),
        vec![0, 0, 0, 10, 7, 0, 0, 0, 2, 0, 0, 0, 0, 0xAB]
    );
    assert_eq!(Message::Port(0x1ae1).to_request(), vec![0, 0, 0, 3, 9, 0x1a, 0xe1]);
    assert_eq!(
        Message::Extended { id: 2, payload: vec![b'd', b'e'] }.to_request(),
        vec![0, 0, 0, 4, 20, 2, b'd', b'e']
    );
    assert_eq!(Message::BitField(vec![0x80]).to_request(), vec![0, 0, 0, 2, 5, 0x80]);
}

#[test]
fn malformed_frames_are_refused() {
    let parse = |b: &[u8]| <Message as ParseCheck>::parse(b);
    assert_eq!(parse(&[0, 0, 0, 1, 10]), Err(ParseError::UnknownId));
    assert_eq!(parse(&[0, 0, 0, 1, 21]), Err(ParseError::UnknownId));
    assert_eq!(parse(&[0, 0, 0, 2, 0, 0]), Err(ParseError::BadLength));
    assert_eq!(parse(&[0, 0, 0, 4, 4, 0, 0, 0]), Err(ParseError::BadLength));
    assert_eq!(parse(&[0, 0, 0, 2, 6, 0]), Err(ParseError::BadLength));
    assert_eq!(parse(&[0, 0, 0, 8, 7, 0, 0, 0, 0, 0, 0, 0]), Err(ParseError::BadLength));
    assert_eq!(parse(&[0, 0, 0, 2, 9, 0]), Err(ParseError::BadLength));
    assert_eq!(parse(&[0, 0, 0, 1, 20]), Err(ParseError::BadLength));
    assert_eq!(parse(&[0, 0, 0, 5, 0]), Err(ParseError::BadLength));
    assert_eq!(parse(&[0, 0]), Err(ParseError::Incomplete));
    assert_eq!(Message::from_request(&[0, 0, 0, 1, 10]), None);
}

#[test]
fn bitfield_payloads_are_checked() {
    // Ten pieces take two bytes; the last six bits must be clear.
    let ok = WireBits::new(&[0b1010_0000, 0b0100_0000], 10).unwrap();
    assert_eq!(
        ok.0,
        vec![true, false, true, false, false, false, false, false, false, true]
    );
    assert_eq!(ok.to_payload(), vec![0b1010_0000, 0b0100_0000]);
    assert_eq!(WireBits::new(&[0xff, 0b1100_0000], 10).unwrap().0, vec![true; 10]);
    assert_eq!(WireBits::new(&[0xff, 0b1110_0000], 10), Err(ParseError::SpareBits));
    assert_eq!(WireBits::new(&[0xff, 0b1100_0001], 10), Err(ParseError::SpareBits));
    assert_eq!(WireBits::new(&[0xff], 10), Err(ParseError::BadLength));
    assert_eq!(WireBits::new(&[0xff, 0, 0], 10), Err(ParseError::BadLength));
    assert_eq!(WireBits::new(&[], 0).unwrap().0, Vec::<bool>::new());
    assert_eq!(WireBits::new(&[0xff], 8).unwrap().0, vec![true; 8]);
    assert_eq!(
        WireBits::to_boolean(0b1000_0001),
        [true, false, false, false, false, false, false, true]
    );

    let packed = BitField::from_wire(&[0b1110_0000], 4).unwrap();
    assert_eq!(packed.len(), 4);
    assert!(packed.get(0) && packed.get(1) && packed.get(2) && !packed.get(3));
    assert_eq!(BitField::from_wire(&[0b1110_1000], 4), Err(ParseError::SpareBits));
    assert_eq!(BitField::from_wire(&[], 4), Err(ParseError::BadLength));
}

#[test]
fn state_starts_choked_and_uninterested() {
    assert_eq!(
        State::new(),
        State {
            choked: true,
            interested: false,
            peer_choked: true,
            peer_interested: false,
            dht_port: None
        }
    );
}

#[test]
fn only_frames_that_fit_the_prefix_are_sent() {
    assert!(Message::KeepAlive.fits_frame());
    assert!(Message::Have(1).fits_frame());
    assert!(Message::BitField(vec![0; 1000]).fits_frame());
    assert!(Message::Piece { index: 0, begin: 0, block: vec![0; 16384] }.fits_frame());
    assert!(Message::Extended { id: 1, payload: Vec::new() }.fits_frame());
}

#[test]
fn the_stream_may_end_between_frames_only() {
    let mut reader: FrameReader<Message> = FrameReader::new(DEFAULT_FRAME_CAP);
    assert_eq!(reader.at_end(), Ok(()));
    assert_eq!(reader.feed(&[0, 0, 0, 1, 1, 0, 0]), Ok(()));
    assert_eq!(reader.at_end(), Err(ParseError::Incomplete));
    assert_eq!(reader.parse_frame(), Ok(Some(Message::Unchoke)));
    assert_eq!(reader.parse_frame(), Ok(None));
    assert_eq!(reader.at_end(), Err(ParseError::Incomplete));
    assert_eq!(reader.feed(&[0, 0]), Ok(()));
    assert_eq!(reader.parse_frame(), Ok(Some(Message::KeepAlive)));
    assert_eq!(reader.at_end(), Ok(()));
}
