use everlasting::peer::{Connection, Violation, IDLE_LIMIT, KEEP_ALIVE_AFTER};
use everlasting::framing::ParseError;
use everlasting::pwp::{Handshake, Message, Request};

#[test]
fn messages_change_the_picture_of_the_peer() {
    let mut c = Connection::new(10, 1000);
    assert!(c.state.choked && c.state.peer_choked);
    assert!(!c.may_request());

    assert_eq!(c.handle(Message::KeepAlive, 1001), Ok(None));
    assert!(!c.started);
    assert_eq!(c.last_received, 1001);

    // The bitfield is still the first message: a keep-alive does not count.
    let bits = Message::BitField(vec![0b1000_0000, 0b0100_0000]);
    assert_eq!(c.handle(bits.clone(), 1002), Ok(Some(bits)));
    assert!(c.remote_bitfield.get(0) && c.remote_bitfield.get(9) && !c.remote_bitfield.get(1));

    assert_eq!(c.handle(Message::Unchoke, 1003), Ok(None));
    assert!(!c.state.choked);
    assert_eq!(c.handle(Message::Interested, 1004), Ok(None));
    assert!(c.state.peer_interested);
    assert_eq!(c.handle(Message::Uninterested, 1005), Ok(None));
    assert!(!c.state.peer_interested);
    assert_eq!(c.handle(Message::Choke, 1006), Ok(None));
    assert!(c.state.choked);
    assert_eq!(c.handle(Message::Port(6881), 1007), Ok(None));
    assert_eq!(c.state.dht_port, Some(6881));
    assert_eq!(c.handle(Message::Have(3), 1008), Ok(Some(Message::Have(3))));
    assert!(c.remote_bitfield.get(3));
    assert_eq!(c.last_received, 1008);

    let block = Message::Piece { index: 1, begin: 0, block: vec![1] };
    assert_eq!(c.handle(block.clone(), 1009), Ok(Some(block)));
    let request = Message::Request { index: 1, begin: 0, length: 1 };
    assert_eq!(c.handle(request.clone(), 1009), Ok(Some(request)));
    let cancel = Message::Cancel { index: 1, begin: 0, length: 1 };
    assert_eq!(c.handle(cancel.clone(), 1009), Ok(Some(cancel)));
    let ext = Message::Extended { id: 0, payload: vec![] };
    assert_eq!(c.handle(ext.clone(), 1009), Ok(Some(ext)));
}

#[test]
fn protocol_violations_change_nothing() {
    let mut c = Connection::new(10, 0);
    assert_eq!(c.handle(Message::Have(10), 5), Err(Violation::NoSuchPiece));
    assert_eq!(c.handle(Message::BitField(vec![0]), 5), Err(Violation::BitfieldLength));
    assert_eq!(c.handle(Message::BitField(vec![0, 1]), 5), Err(Violation::BitfieldSpare));
    assert_eq!(c.last_received, 0);
    assert!(!c.started);
    assert_eq!(c.handle(Message::Have(9), 6), Ok(Some(Message::Have(9))));
    assert_eq!(c.handle(Message::BitField(vec![0, 0]), 7), Err(Violation::LateBitfield));
    assert!(c.remote_bitfield.get(9));
    assert_eq!(c.last_received, 6);
}

#[test]
fn keeps_alive_and_times_out() {
    let mut c = Connection::new(1, 1000);
    assert_eq!(c.keep_alive(1000 + KEEP_ALIVE_AFTER - 1), None);
    assert_eq!(c.keep_alive(1000 + KEEP_ALIVE_AFTER), Some(Message::KeepAlive));
    assert_eq!(c.last_sent, 1120);
    assert_eq!(c.keep_alive(1121), None);
    c.sent(1200);
    assert_eq!(c.keep_alive(1319), None);
    assert_eq!(c.keep_alive(1320), Some(Message::KeepAlive));

    assert!(!c.timed_out(1000 + IDLE_LIMIT - 1));
    assert!(c.timed_out(1000 + IDLE_LIMIT));
    assert_eq!(c.handle(Message::KeepAlive, 1100), Ok(None));
    assert!(!c.timed_out(1279));
    assert!(c.timed_out(1280));
}

#[test]
fn interest_is_told_once() {
    let mut c = Connection::new(1, 0);
    assert_eq!(c.interest(false, 5), None);
    assert_eq!(c.interest(true, 6), Some(Message::Interested));
    assert_eq!(c.last_sent, 6);
    assert_eq!(c.interest(true, 7), None);
    assert_eq!(c.last_sent, 6);
    assert!(!c.may_request());
    assert_eq!(c.handle(Message::Unchoke, 8), Ok(None));
    assert!(c.may_request());
    assert_eq!(c.interest(false, 9), Some(Message::Uninterested));
    assert!(!c.may_request());
}

#[test]
fn pieces_cannot_be_checked_before_their_number_is_known() {
    let mut c = Connection::blind(5);
    assert!(!c.sized);
    assert_eq!(c.real_len, 0);
    // Any bitfield is taken, and handed on, as the first message.
    let first = Message::BitField(vec![0xff, 0x01]);
    assert_eq!(c.handle(first.clone(), 6), Ok(Some(first.clone())));
    assert!(c.started);
    assert_eq!(c.last_received, 6);
    assert_eq!(c.handle(Message::Have(1_000_000), 7), Ok(Some(Message::Have(1_000_000))));
    // A second bitfield is late all the same.
    assert_eq!(c.handle(first, 8), Err(Violation::LateBitfield));
    // With the number known, the same messages are checked.
    let mut known = Connection::new(0, 5);
    assert!(known.sized);
    assert_eq!(known.handle(Message::Have(0), 6), Err(Violation::NoSuchPiece));
    assert_eq!(
        known.handle(Message::BitField(vec![0xff]), 6),
        Err(Violation::BitfieldLength)
    );
}

#[test]
fn a_stream_is_heard_behind_its_handshake() {
    let hash = [7u8; 20];
    let mut stream = Handshake::new(hash, [1; 20]).to_request();
    stream.extend_from_slice(&[0, 0, 0, 1, 0]);
    stream.extend_from_slice(&[0, 0, 0, 1, 1]);
    stream.extend_from_slice(&[0, 0, 0, 5, 4, 0, 0, 0, 7]);
    let all = vec![Message::Choke, Message::Unchoke, Message::Have(7)];
    assert_eq!(Connection::listen(&stream, &hash, 1 << 20), Ok(all.clone()));
    // The bytes of a frame that is not whole yet are left.
    stream.extend_from_slice(&[0, 0, 0, 5, 4, 0]);
    assert_eq!(Connection::listen(&stream, &hash, 1 << 20), Ok(all));
    assert_eq!(Connection::listen(&stream[..68], &hash, 1 << 20), Ok(vec![]));
    // Another torrent's handshake aborts the connection; no message is read.
    assert_eq!(Connection::listen(&stream, &[8u8; 20], 1 << 20), Err(ParseError::WrongTorrent));
    assert_eq!(Connection::listen(&stream[..67], &hash, 1 << 20), Err(ParseError::Incomplete));
    let mut other = stream.clone();
    other[0] = 18;
    assert_eq!(Connection::listen(&other, &hash, 1 << 20), Err(ParseError::BadProtocol));
    // A frame that breaks the protocol is the fault of the stream.
    assert_eq!(Connection::listen(&stream, &hash, 4), Err(ParseError::TooLong));
    let mut bad = stream[..68].to_vec();
    bad.extend_from_slice(&[0, 0, 0, 1, 10]);
    assert_eq!(Connection::listen(&bad, &hash, 1 << 20), Err(ParseError::UnknownId));
}
