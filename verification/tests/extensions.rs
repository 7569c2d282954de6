use everlasting::bencode::{DecodeError, Kind};
use everlasting::extensions::{Extension, Handshake, Message, MsgType};

fn handshake() -> Handshake {
    Handshake {
        inner: vec![("xv_metadata".to_owned(), 1u32), ("xv_pex".to_owned(), 2u32)],
        port: Some(6881),
        client: Some("µTorrent 1.2".to_owned()),
        ext_ip: None,
        ipv4: None,
        ipv6: None,
        reqq: None,
        metadata_size: None,
    }
}

#[test]
fn test_bencode_extension() {
    let m = Message::Handshake(handshake());

    let s = b"d1:md11:xv_metadatai1e6:xv_pexi2ee1:pi6881e1:v13:\xc2\xb5Torrent 1.2e";

    assert_eq!(m.to_bencode(), s);
    assert_eq!(m, Message::from_bencode(s).unwrap());
}

#[test]
fn test_request_message() {
    let e = Extension::Metadata {
        msg_type: MsgType::Request,
        piece: 0,
        total_size: None,
        payload: None,
    };
    let m = Message::Extension(e);

    let s = b"d8:msg_typei0e5:piecei0ee";

    assert_eq!(m.to_bencode(), s);
    assert_eq!(m, Message::from_bencode(s).unwrap());
}

#[test]
fn test_data_message() {
    let e = Extension::Metadata {
        msg_type: MsgType::Data,
        piece: 0,
        total_size: Some(8),
        payload: Some(b"xxxxxxxx".to_vec()),
    };
    let m = Message::Extension(e);

    let s = b"d8:msg_typei1e5:piecei0e10:total_sizei8eexxxxxxxx";

    assert_eq!(m.to_bencode(), s);
    assert_eq!(m, Message::from_bencode(s).unwrap());
}

#[test]
fn test_reject_message() {
    let e = Extension::Metadata {
        msg_type: MsgType::Reject,
        piece: 0,
        total_size: None,
        payload: None,
    };
    let m = Message::Extension(e);

    let s = b"d8:msg_typei2e5:piecei0ee";

    assert_eq!(m.to_bencode(), s);
    assert_eq!(m, Message::from_bencode(s).unwrap());
}

#[test]
fn handshake_with_every_field() {
    let h = Handshake {
        inner: vec![("ut_metadata".to_owned(), 3)],
        port: Some(1),
        client: Some("c".to_owned()),
        ext_ip: Some(vec![1, 2, 3, 4]),
        ipv4: Some(vec![5, 6, 7, 8]),
        ipv6: Some(vec![9; 16]),
        reqq: Some(500),
        metadata_size: Some(31235),
    };
    let m = Message::Handshake(h.clone());
    let bytes = m.to_bencode();
    let mut want = b"d4:ipv44:\x05\x06\x07\x084:ipv616:".to_vec();
    want.extend_from_slice(&[9; 16]);
    want.extend_from_slice(
        b"1:md11:ut_metadatai3ee13:metadata_sizei31235e1:pi1e4:reqqi500e1:v1:c6:yourip4:\x01\x02\x03\x04e",
    );
    assert_eq!(bytes, want);
    assert_eq!(Message::from_bencode(&bytes), Ok(m));
    assert_eq!(h.id_of("ut_metadata"), Some(3));
    assert_eq!(h.id_of("ut_pex"), None);
    assert_eq!(
        Message::default(),
        Message::Handshake(Handshake::default())
    );
    assert_eq!(Message::Extension(Extension::Nothing).to_bencode(), Vec::<u8>::new());
    assert_eq!(Extension::default(), Extension::Nothing);
}

#[test]
fn unknown_keys_are_passed_over() {
    let m = Message::from_bencode(b"d1:ei0e1:md6:ut_pexi1ee11:upload_onlyi1ee").unwrap();
    assert_eq!(
        m,
        Message::Handshake(Handshake { inner: vec![("ut_pex".to_owned(), 1)], ..Default::default() })
    );
    assert_eq!(Message::from_bencode(b"de"), Ok(Message::default()));
}

#[test]
fn travels_as_an_extended_message() {
    let data = Message::Extension(Extension::Metadata {
        msg_type: MsgType::Data,
        piece: 2,
        total_size: Some(40000),
        payload: Some(vec![7; 3]),
    });
    let wire = data.to_request(3);
    assert_eq!(
        wire,
        everlasting::pwp::Message::Extended {
            id: 3,
            payload: b"d8:msg_typei1e5:piecei2e10:total_sizei40000ee\x07\x07\x07".to_vec()
        }
    );
    assert_eq!(Message::from_request(&wire), Some(data));
    assert_eq!(Message::from_request(&everlasting::pwp::Message::Choke), None);
    let broken = everlasting::pwp::Message::Extended { id: 0, payload: b"d".to_vec() };
    assert_eq!(Message::from_request(&broken), None);
}

#[test]
fn refuses_broken_extended_messages() {
    let err = |b: &[u8]| Message::from_bencode(b).unwrap_err();
    assert_eq!(err(b"d8:msg_typei3e5:piecei0ee"), DecodeError::OverflowInteger);
    assert_eq!(err(b"d8:msg_typei0e5:piecei0eex"), DecodeError::TrailingBytes);
    assert_eq!(err(b"d8:msg_typei0ee"), DecodeError::Unexpected(Kind::End, Kind::Int));
    assert_eq!(err(b"d8:msg_typei0e5:piecei4294967296ee"), DecodeError::OverflowInteger);
    assert_eq!(err(b"d8:msg_type1:0e"), DecodeError::Unexpected(Kind::Bytes, Kind::Int));
    assert_eq!(err(b"dex"), DecodeError::TrailingBytes);
    assert_eq!(err(b"d1:mi1ee"), DecodeError::Unexpected(Kind::Int, Kind::Dict));
    assert_eq!(err(b"d1:md1:a1:bee"), DecodeError::Unexpected(Kind::Bytes, Kind::Int));
    assert_eq!(err(b"d1:md1:\xffi1eee"), DecodeError::Unexpected(Kind::Other, Kind::Bytes));
    assert_eq!(err(b"d1:pi65536ee"), DecodeError::OverflowInteger);
    assert_eq!(err(b"d4:ipv43:abce"), DecodeError::Truncated);
    assert_eq!(err(b"d4:ipv45:abcdee"), DecodeError::TrailingBytes);
    assert_eq!(err(b"d6:yourip5:abcdee"), DecodeError::TrailingBytes);
    assert_eq!(err(b"d6:yourip3:abce"), DecodeError::Truncated);
    assert_eq!(err(b"d6:yourip16:0123456789abcdef"), DecodeError::Truncated);
    assert_eq!(err(b"le"), DecodeError::Unexpected(Kind::List, Kind::Dict));
    assert_eq!(err(b""), DecodeError::Truncated);
}

#[test]
fn a_name_that_comes_twice_counts_once() {
    let m = Message::from_bencode(b"d1:md1:ai1e1:bi2e1:ai3eee").unwrap();
    let Message::Handshake(h) = &m else { panic!("{m:?}") };
    assert_eq!(h.inner, vec![("a".to_owned(), 1u32), ("b".to_owned(), 2u32)]);
    assert_eq!(h.id_of("a"), Some(1));
    // What was read can be written, and reads back as itself.
    assert_eq!(m.to_bencode(), b"d1:md1:ai1e1:bi2eee");
    assert_eq!(Message::from_bencode(&m.to_bencode()), Ok(m));
    // A fault behind the repeated name still is a fault.
    assert_eq!(
        Message::from_bencode(b"d1:md1:ai1e1:ai3e1:c0:ee"),
        Err(DecodeError::Unexpected(Kind::Bytes, Kind::Int))
    );
}
