use everlasting::bencode::{DecodeError, Kind};
use everlasting::data::Endpoint;
use everlasting::krpc::{
    Arguments, CompactNode, Error, ErrorKind, ExtMessage, Message, Method, Values,
};
use rand::distributions::Alphanumeric;
use rand::Rng;

fn compact_node_gen() -> String {
    let id = rand::thread_rng()
        .sample_iter(Alphanumeric)
        .take(20)
        .map(char::from)
        .collect::<String>();
    let socket = rand::thread_rng().gen::<[u8; 6]>();

    id.chars()
        .chain(
            socket
                .into_iter()
                .map(|i| i.to_string().chars().next().unwrap()),
        )
        .collect::<String>()
}

#[test]
fn test_query_ping() {
    let v = b"d1:ad2:id20:abcdefghij0123456789e1:q4:ping1:t2:aa1:y1:qe";
    let encoded = ExtMessage::from_bencode(v).unwrap();

    let inner = Message::Query(Arguments {
        method: Method::Ping,
        id: "abcdefghij0123456789".as_bytes().try_into().unwrap(),
        target: None,
        info_hash: None,
        port: None,
        implied_port: None,
        token: None,
    });

    let real = ExtMessage {
        inner,
        transaction_id: "aa".to_owned(),
    };

    let decoded = real.to_bencode();

    assert_eq!(encoded, real);
    assert_eq!(v.as_slice(), decoded);
}

#[test]
fn test_query_find_node() {
    let v = b"d1:ad2:id20:abcdefghij01234567896:target20:mnopqrstuvwxyz123456e1:q9:find_node1:t2:aa1:y1:qe";
    let bencoded = ExtMessage::from_bencode(v).unwrap();

    let inner = Message::Query(Arguments {
        method: Method::FindNode,
        id: "abcdefghij0123456789".as_bytes().try_into().unwrap(),
        target: Some("mnopqrstuvwxyz123456".as_bytes().try_into().unwrap()),
        info_hash: None,
        port: None,
        implied_port: None,
        token: None,
    });

    let real = ExtMessage {
        inner,
        transaction_id: "aa".to_owned(),
    };

    let decoded = real.to_bencode();

    assert_eq!(bencoded, real);
    assert_eq!(v.as_slice(), decoded);
}

#[test]
fn test_query_get_peers() {
    let v = b"d1:ad2:id20:abcdefghij01234567899:info_hash20:mnopqrstuvwxyz123456e1:q9:get_peers1:t2:aa1:y1:qe";
    let bencoded = ExtMessage::from_bencode(v).unwrap();

    let inner = Message::Query(Arguments {
        method: Method::GetPeers,
        id: "abcdefghij0123456789".as_bytes().try_into().unwrap(),
        target: None,
        info_hash: Some("mnopqrstuvwxyz123456".as_bytes().try_into().unwrap()),
        port: None,
        implied_port: None,
        token: None,
    });

    let real = ExtMessage {
        inner,
        transaction_id: "aa".to_owned(),
    };

    let decoded = real.to_bencode();

    assert_eq!(bencoded, real);
    assert_eq!(v.as_slice(), decoded);
}

#[test]
fn test_query_announce_peer() {
    let v = b"d1:ad2:id20:abcdefghij012345678912:implied_porti1e9:info_hash20:mnopqrstuvwxyz1234564:porti6881e5:token8:aoeusnthe1:q13:announce_peer1:t2:aa1:y1:qe";

    let bencoded = ExtMessage::from_bencode(v).unwrap();

    let inner = Message::Query(Arguments {
        method: Method::AnnouncePeer,
        id: "abcdefghij0123456789".as_bytes().try_into().unwrap(),
        target: None,
        info_hash: Some("mnopqrstuvwxyz123456".as_bytes().try_into().unwrap()),
        port: Some(6881),
        implied_port: Some(true),
        token: Some("aoeusnth".to_owned()),
    });

    let real = ExtMessage {
        inner,
        transaction_id: "aa".to_owned(),
    };

    let decoded = real.to_bencode();

    assert_eq!(bencoded, real);
    assert_eq!(v.as_slice(), decoded);
}

#[test]
fn test_response_ping() {
    let v = b"d1:rd2:id20:mnopqrstuvwxyz123456e1:t2:aa1:y1:re";

    let bencoded = ExtMessage::from_bencode(v).unwrap();

    let inner = Message::Response(Values {
        id: "mnopqrstuvwxyz123456".as_bytes().try_into().unwrap(),
        nodes: None,
        values: None,
        token: None,
    });

    let real = ExtMessage {
        inner,
        transaction_id: "aa".to_owned(),
    };

    let decoded = real.to_bencode();

    assert_eq!(bencoded, real);
    assert_eq!(v.as_slice(), decoded);
}

#[test]
fn test_response_find_node_target_node() {
    let node = compact_node_gen();

    let v = format!(
        "d1:rd2:id20:0123456789abcdefghij5:nodes{}:{}e1:t2:aa1:y1:re",
        node.len(),
        node
    );

    let bencoded = ExtMessage::from_bencode(v.as_bytes()).unwrap();

    let node = CompactNode::try_from(node.as_bytes().to_vec()).unwrap();

    let inner = Message::Response(Values {
        id: "0123456789abcdefghij".as_bytes().try_into().unwrap(),
        nodes: Some(vec![node]),
        values: None,
        token: None,
    });

    let real = ExtMessage {
        inner,
        transaction_id: "aa".to_owned(),
    };

    let decoded = real.to_bencode();

    assert_eq!(bencoded, real);
    assert_eq!(v.as_bytes(), decoded);
}

#[test]
fn test_response_find_node_closest_nodes() {
    let nodes = (0..8).map(|_| compact_node_gen()).collect::<String>();

    let v = format!(
        "d1:rd2:id20:0123456789abcdefghij5:nodes{}:{}e1:t2:aa1:y1:re",
        nodes.len(),
        nodes
    );

    let bencoded = ExtMessage::from_bencode(v.as_bytes()).unwrap();

    let nodes: Vec<_> = nodes
        .as_bytes()
        .chunks_exact(26)
        .map(|value| CompactNode::try_from(value.to_vec()).unwrap())
        .collect();

    let inner = Message::Response(Values {
        id: "0123456789abcdefghij".as_bytes().try_into().unwrap(),
        nodes: Some(nodes),
        values: None,
        token: None,
    });

    let real = ExtMessage {
        inner,
        transaction_id: "aa".to_owned(),
    };

    let decoded = real.to_bencode();

    assert_eq!(bencoded, real);
    assert_eq!(v.as_bytes(), decoded);
}

#[test]
fn test_response_get_peers() {
    let values = (0..2).map(|_| compact_node_gen()).collect::<Vec<_>>();

    let v = format!(
        "d1:rd2:id20:abcdefghij01234567895:token8:aoeusnth6:valuesl26:{}26:{}ee1:t2:aa1:y1:re",
        values[0], values[1],
    );

    let bencoded = ExtMessage::from_bencode(v.as_bytes()).unwrap();

    let values: Vec<_> = values
        .iter()
        .map(|v| CompactNode::try_from(v.as_bytes().to_vec()).unwrap())
        .collect();

    let inner = Message::Response(Values {
        id: "abcdefghij0123456789".as_bytes().try_into().unwrap(),
        nodes: None,
        values: Some(values),
        token: Some("aoeusnth".to_owned()),
    });

    let real = ExtMessage {
        inner,
        transaction_id: "aa".to_owned(),
    };

    let decoded = real.to_bencode();

    assert_eq!(bencoded, real);
    assert_eq!(v.as_bytes(), decoded);
}

#[test]
fn test_response_get_peers_with_closest_nodes() {
    let nodes = (0..8).map(|_| compact_node_gen()).collect::<String>();

    let v = format!(
        "d1:rd2:id20:abcdefghij01234567895:nodes{}:{}5:token8:aoeusnthe1:t2:aa1:y1:re",
        nodes.len(),
        nodes
    );

    let bencoded = ExtMessage::from_bencode(v.as_bytes()).unwrap();

    let nodes: Vec<_> = nodes
        .as_bytes()
        .chunks_exact(26)
        .map(|value| CompactNode::try_from(value.to_vec()).unwrap())
        .collect();

    let inner = Message::Response(Values {
        id: "abcdefghij0123456789".as_bytes().try_into().unwrap(),
        nodes: Some(nodes),
        values: None,
        token: Some("aoeusnth".to_owned()),
    });

    let real = ExtMessage {
        inner,
        transaction_id: "aa".to_owned(),
    };

    let decoded = real.to_bencode();

    assert_eq!(bencoded, real);
    assert_eq!(v.as_bytes(), decoded);
}

#[test]
fn test_response_announce_peer() {
    let v = b"d1:rd2:id20:mnopqrstuvwxyz123456e1:t2:aa1:y1:re";

    let bencoded = ExtMessage::from_bencode(v).unwrap();

    let inner = Message::Response(Values {
        id: "mnopqrstuvwxyz123456".as_bytes().try_into().unwrap(),
        nodes: None,
        values: None,
        token: None,
    });

    let real = ExtMessage {
        inner,
        transaction_id: "aa".to_owned(),
    };

    let decoded = real.to_bencode();

    assert_eq!(bencoded, real);
    assert_eq!(v.as_slice(), decoded);
}

#[test]
fn test_error() {
    let v = b"d1:eli201e23:A Generic Error Ocurrede1:t2:aa1:y1:ee";
    let bencoded = ExtMessage::from_bencode(v).unwrap();

    let inner = Message::Error(Error {
        description: "A Generic Error Ocurred".to_owned(),
        kind: ErrorKind::Generic,
    });

    let real = ExtMessage {
        inner,
        transaction_id: "aa".to_owned(),
    };

    let decoded = real.to_bencode();

    assert_eq!(bencoded, real);
    assert_eq!(v.as_slice(), decoded);
}

#[test]
fn compact_nodes_are_26_bytes() {
    let mut bytes = vec![7u8; 20];
    bytes.extend_from_slice(&[10, 0, 0, 1, 0x1a, 0xe1]);
    let node = CompactNode::try_from(bytes.clone()).unwrap();
    assert_eq!(node, CompactNode { id: [7; 20], ip: Endpoint { ip: 0x0a000001, port: 6881 } });
    assert_eq!(node.to_bytes(), bytes);
    assert!(CompactNode::try_from(vec![0; 25]).is_err());
    assert!(CompactNode::try_from(vec![0; 27]).is_err());
}

#[test]
fn error_kinds_have_their_codes() {
    assert_eq!(ErrorKind::from(201), Some(ErrorKind::Generic));
    assert_eq!(ErrorKind::from(202), Some(ErrorKind::Server));
    assert_eq!(ErrorKind::from(203), Some(ErrorKind::Protocol));
    assert_eq!(ErrorKind::from(204), Some(ErrorKind::MethodUnknown));
    assert_eq!(ErrorKind::from(200), None);
    assert_eq!(ErrorKind::MethodUnknown.to_code(), 204);
    let e = ExtMessage::new(
        Message::Error(Error { description: "x".to_owned(), kind: ErrorKind::Protocol }),
        "t1".to_owned(),
    );
    assert_eq!(e.to_bencode(), b"d1:eli203e1:xe1:t2:t11:y1:ee".to_vec());
}

#[test]
fn fresh_transaction_ids_have_two_characters() {
    let ping = Message::Query(Arguments { id: [b'a'; 20], ..Default::default() });
    let m = ExtMessage::from(ping.clone());
    assert_eq!(m.inner, ping);
    assert_eq!(m.transaction_id.len(), 2);
    assert!(m.transaction_id.chars().all(|c| c.is_ascii_alphanumeric()));
    assert_eq!(ExtMessage::from_bencode(&m.to_bencode()), Ok(m));
}

#[test]
fn refuses_broken_dht_messages() {
    let err = |b: &[u8]| ExtMessage::from_bencode(b).unwrap_err();
    assert_eq!(err(b"d1:t2:aae"), DecodeError::Unexpected(Kind::End, Kind::Bytes));
    assert_eq!(err(b"d1:t2:aa1:y1:xe"), DecodeError::Unexpected(Kind::Other, Kind::Bytes));
    assert_eq!(err(b"d1:q4:pong1:y1:qe"), DecodeError::Unexpected(Kind::Other, Kind::Bytes));
    assert_eq!(err(b"d1:q4:ping1:y1:qe"), DecodeError::Unexpected(Kind::End, Kind::Dict));
    assert_eq!(err(b"d1:ade1:q4:ping1:y1:qe"), DecodeError::Unexpected(Kind::End, Kind::Bytes));
    assert_eq!(err(b"d1:ad2:id2:abe1:q4:ping1:y1:qe"), DecodeError::Truncated);
    assert_eq!(err(b"d1:eli999e1:xe1:y1:ee"), DecodeError::OverflowInteger);
    assert_eq!(err(b"d1:ele1:y1:ee"), DecodeError::Unexpected(Kind::End, Kind::Int));
    assert_eq!(err(b"d1:eli201ee1:y1:ee"), DecodeError::Unexpected(Kind::End, Kind::Bytes));
    assert_eq!(
        err(b"d1:rd2:id20:mnopqrstuvwxyz1234566:valuesl2:abee1:y1:re"),
        DecodeError::Truncated
    );
    assert_eq!(
        err(b"d1:ad2:id20:abcdefghij01234567894:porti70000ee1:q4:ping1:y1:qe"),
        DecodeError::OverflowInteger
    );
    // A response without transaction id reads with an empty one.
    let m = ExtMessage::from_bencode(b"d1:rd2:id20:mnopqrstuvwxyz123456e1:y1:re").unwrap();
    assert_eq!(m.transaction_id, "");
}
