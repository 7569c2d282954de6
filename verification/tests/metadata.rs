use crypto::digest::Digest;
use crypto::sha1::Sha1;
use everlasting::data::{GeneralError, Mode};
use everlasting::extensions::{
    Extension, Fetch, Handshake, Message, Metadata, MsgType, Step, MAX_METADATA, METADATA_PIECE,
    UT_METADATA,
};
use everlasting::pwp;

fn digest(data: &[u8]) -> [u8; 20] {
    let mut h = Sha1::new();
    h.input(data);
    let mut out = [0u8; 20];
    h.result(&mut out);
    out
}

/// An `info` dictionary for a file of `pieces` pieces of 16 KiB.
fn info_bytes(pieces: usize) -> Vec<u8> {
    let mut b = Vec::new();
    b.extend_from_slice(format!("d6:lengthi{}e4:name3:foo", 16384 * pieces).as_bytes());
    b.extend_from_slice(b"12:piece lengthi16384e");
    b.extend_from_slice(format!("6:pieces{}:", 20 * pieces).as_bytes());
    b.extend((0..20 * pieces).map(|i| (i % 251) as u8));
    b.push(b'e');
    b
}

fn peer_handshake(id: u32, size: Option<u32>) -> Handshake {
    Handshake {
        inner: vec![("ut_pex".to_owned(), 4), ("ut_metadata".to_owned(), id)],
        metadata_size: size,
        ..Handshake::default()
    }
}

fn data(piece: u32, bytes: &[u8]) -> Message {
    Message::Extension(Extension::Metadata {
        msg_type: MsgType::Data,
        piece,
        total_size: None,
        payload: Some(bytes.to_vec()),
    })
}

fn ask(id: u8, piece: u32) -> Step {
    Step::Ask(Metadata::request(piece).to_request(id))
}

#[test]
fn metadata_is_collected_piece_by_piece() {
    assert_eq!(METADATA_PIECE, 16384);
    assert_eq!(Metadata::new(0), None);
    assert_eq!(Metadata::new(MAX_METADATA + 1), None);
    assert!(Metadata::new(MAX_METADATA).is_some());

    let mut m = Metadata::new(16384 + 10).unwrap();
    assert_eq!(m.data, vec![0u8; 16394]);
    assert_eq!(m.have, vec![false, false]);
    assert_eq!(m.next_missing(), Some(0));
    // The last piece is the shorter one.
    assert_eq!(m.store(1, &[7u8; 11]), Err(GeneralError::InvalidPieceIdx));
    assert_eq!(m.store(2, &[7u8; 10]), Err(GeneralError::InvalidPieceIdx));
    assert_eq!(m.store(0, &[7u8; 10]), Err(GeneralError::InvalidPieceIdx));
    assert_eq!(m.have, vec![false, false]);
    assert_eq!(m.store(1, &[7u8; 10]), Ok(()));
    assert_eq!(m.have, vec![false, true]);
    assert_eq!(&m.data[16384..], &[7u8; 10]);
    assert_eq!(&m.data[..16384], &[0u8; 16384][..]);
    assert_eq!(m.next_missing(), Some(0));
    assert_eq!(m.finish(&[0; 20]), Err(GeneralError::MissingInfo));
    assert_eq!(m.store(0, &[9u8; 16384]), Ok(()));
    assert_eq!(m.next_missing(), None);
    assert_eq!(m.data[0], 9);
    assert_eq!(m.data[16383], 9);
    assert_eq!(m.data[16384], 7);
    assert_eq!(m.finish(&[0; 20]), Err(GeneralError::InvalidPieceHash));
    // The right hash, and still no `info` dictionary.
    let hash = digest(&m.data);
    assert_eq!(m.finish(&hash), Err(GeneralError::ParseFailure(String::new())));
}

#[test]
fn fetched_metadata_is_read_once_the_hash_is_right() {
    let bytes = info_bytes(3);
    let hash = digest(&bytes);
    let mut m = Metadata::new(bytes.len() as u32).unwrap();
    assert_eq!(m.store(0, &bytes), Ok(()));
    let info = m.finish(&hash).unwrap();
    assert_eq!(info.value, hash);
    assert_eq!(info.piece_length, 16384);
    assert_eq!(info.pieces.len(), 3);
    assert_eq!(
        info.mode,
        Mode::Single { name: "foo".to_owned(), length: 3 * 16384, md5sum: None }
    );
}

#[test]
fn our_handshake_offers_the_metadata_extension() {
    let ours = Handshake::ours();
    assert_eq!(ours.inner, vec![("ut_metadata".to_owned(), UT_METADATA as u32)]);
    assert_eq!(ours.metadata_id(), Some(UT_METADATA));
    assert_eq!(Message::Handshake(ours).to_bencode(), b"d1:md11:ut_metadatai1eee");
}

#[test]
fn the_first_of_two_ids_counts() {
    let mut h = peer_handshake(3, None);
    h.inner.push(("ut_metadata".to_owned(), 9));
    assert_eq!(h.id_of("ut_metadata"), Some(3));
    assert_eq!(h.id_of("ut_pex"), Some(4));
    assert_eq!(h.id_of("ut_holepunch"), None);
    assert_eq!(h.metadata_id(), Some(3));
    assert_eq!(peer_handshake(0, None).metadata_id(), None);
    assert_eq!(peer_handshake(255, None).metadata_id(), Some(255));
    assert_eq!(peer_handshake(256, None).metadata_id(), None);
    assert_eq!(Handshake::default().metadata_id(), None);
}

#[test]
fn a_handshake_starts_the_fetch() {
    let mut f = Fetch::new([1; 20]);
    assert_eq!(f.metadata, None);
    // Without the extension, or without a size, nothing happens.
    assert_eq!(f.greeted(&Handshake::default()), Step::Idle);
    assert_eq!(f.greeted(&peer_handshake(3, None)), Step::Idle);
    assert_eq!(f.greeted(&peer_handshake(0, Some(100))), Step::Idle);
    assert_eq!(f.metadata, None);
    // No room is made for a size that cannot be.
    assert_eq!(f.greeted(&peer_handshake(3, Some(0))), Step::Idle);
    assert_eq!(f.greeted(&peer_handshake(3, Some(MAX_METADATA + 1))), Step::Idle);
    assert_eq!(f.metadata, None);
    // The first good handshake decides the size; the request goes out under
    // the id that the peer named.
    assert_eq!(f.greeted(&peer_handshake(3, Some(20000))), ask(3, 0));
    assert_eq!(f.metadata, Metadata::new(20000));
    assert_eq!(
        ask(3, 0),
        Step::Ask(pwp::Message::Extended {
            id: 3,
            payload: b"d8:msg_typei0e5:piecei0ee".to_vec()
        })
    );
    assert_eq!(f.greeted(&peer_handshake(7, Some(5))), ask(7, 0));
    assert_eq!(f.metadata, Metadata::new(20000));
    assert_eq!(f.hash, [1; 20]);
}

#[test]
fn pieces_of_metadata_are_asked_for_in_turn() {
    let bytes = info_bytes(1000);
    assert!(bytes.len() > 16384 && bytes.len() < 2 * 16384);
    let hash = digest(&bytes);
    let mut f = Fetch::new(hash);
    // Nothing is taken before the size is known.
    assert_eq!(f.delivered(3, &data(0, &bytes[..16384])), Step::Idle);
    assert_eq!(f.metadata, None);
    assert_eq!(f.greeted(&peer_handshake(3, Some(bytes.len() as u32))), ask(3, 0));
    // Requests and rejects change nothing.
    let before = f.clone();
    assert_eq!(f.delivered(3, &Metadata::request(0)), Step::Idle);
    let reject = Message::Extension(Extension::Metadata {
        msg_type: MsgType::Reject,
        piece: 0,
        total_size: None,
        payload: None,
    });
    assert_eq!(f.delivered(3, &reject), Step::Idle);
    assert_eq!(f.delivered(3, &Message::Handshake(Handshake::default())), Step::Idle);
    assert_eq!(f, before);
    // A piece of the wrong length, or one that is not there, drops the peer.
    assert_eq!(f.delivered(3, &data(0, &bytes[..100])), Step::Drop);
    assert_eq!(f.delivered(3, &data(2, &bytes[..16384])), Step::Drop);
    assert_eq!(f, before);
    // Now the pieces, the last one first.
    assert_eq!(f.delivered(5, &data(1, &bytes[16384..])), ask(5, 0));
    assert_eq!(f.metadata.as_ref().unwrap().have, vec![false, true]);
    let done = f.delivered(5, &data(0, &bytes[..16384]));
    match done {
        Step::Done(info) => {
            assert_eq!(info.value, hash);
            assert_eq!(info.pieces.len(), 1000);
            assert_eq!(info.piece_length, 16384);
        }
        other => panic!("{other:?}"),
    }
    assert_eq!(f.metadata.as_ref().unwrap().data, bytes);
}

#[test]
fn metadata_with_a_wrong_hash_is_thrown_away() {
    let bytes = info_bytes(2);
    let mut f = Fetch::new([0x5a; 20]);
    assert_eq!(f.greeted(&peer_handshake(2, Some(bytes.len() as u32))), ask(2, 0));
    assert_eq!(f.delivered(2, &data(0, &bytes)), Step::Restart);
    assert_eq!(f.metadata, None);
    // The next handshake starts again.
    assert_eq!(f.greeted(&peer_handshake(2, Some(bytes.len() as u32))), ask(2, 0));
    assert!(f.metadata.is_some());
}
