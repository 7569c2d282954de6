use everlasting::data::{Endpoint, Event, PROTOCOL_ID};
use everlasting::udp::{PacketError, Request, Response, Status};

#[test]
fn connect_request_and_response() {
    let tid = 0xDEADBEEFu32 as i32;
    let req = Request::Connect { cid: PROTOCOL_ID, tid };
    let packet = req.to_request();
    assert_eq!(
        packet,
        vec![
            0x00, 0x00, 0x04, 0x17, 0x27, 0x10, 0x19, 0x80, 0x00, 0x00, 0x00, 0x00, 0xDE, 0xAD,
            0xBE, 0xEF
        ]
    );
    // What a tracker makes of it: it reads the request and answers under the
    // same transaction id with a connection id of its choice.
    let seen = Request::from_request(&packet).unwrap();
    assert_eq!(seen, req);
    let answer = Response::Connect { tid, cid: 0x0102030405060708 }.to_bytes();
    assert_eq!(answer.len(), 16);
    assert_eq!(&answer[..8], &[0x00, 0x00, 0x00, 0x00, 0xDE, 0xAD, 0xBE, 0xEF]);
    assert_eq!(&answer[8..], &[1, 2, 3, 4, 5, 6, 7, 8]);
    assert_eq!(
        Response::to_response(&answer),
        Ok(Response::Connect { tid, cid: 0x0102030405060708 })
    );
}

fn announce() -> Request {
    Request::Announce {
        cid: -2,
        tid: 7,
        info_hash: [0xAA; 20],
        peer_id: [0xBB; 20],
        downloaded: 1,
        left: u64::MAX,
        uploaded: 0x0102030405060708,
        event: Event::Started,
        ip: 0,
        key: 0xCAFEBABE,
        num_want: -1,
        port: 1317,
    }
}

#[test]
fn announce_request_layout() {
    let p = announce().to_request();
    assert_eq!(p.len(), 98);
    assert_eq!(&p[0..8], &[0xff, 0xff, 0xff, 0xff, 0xff, 0xff, 0xff, 0xfe]);
    assert_eq!(&p[8..12], &[0, 0, 0, 1]);
    assert_eq!(&p[12..16], &[0, 0, 0, 7]);
    assert_eq!(&p[16..36], &[0xAA; 20]);
    assert_eq!(&p[36..56], &[0xBB; 20]);
    assert_eq!(&p[56..64], &[0, 0, 0, 0, 0, 0, 0, 1]);
    assert_eq!(&p[64..72], &[0xff; 8]);
    assert_eq!(&p[72..80], &[1, 2, 3, 4, 5, 6, 7, 8]);
    assert_eq!(&p[80..84], &[0, 0, 0, 2]);
    assert_eq!(&p[84..88], &[0, 0, 0, 0]);
    assert_eq!(&p[88..92], &[0xCA, 0xFE, 0xBA, 0xBE]);
    assert_eq!(&p[92..96], &[0xff, 0xff, 0xff, 0xff]);
    assert_eq!(&p[96..98], &[0x05, 0x25]);
}

#[test]
fn requests_round_trip() {
    for r in [
        Request::Connect { cid: i64::MIN, tid: i32::MIN },
        Request::Connect { cid: i64::MAX, tid: i32::MAX },
        announce(),
        Request::Scrape { cid: 5, tid: -5, hashes: vec![] },
        Request::Scrape { cid: 5, tid: -5, hashes: vec![[1; 20], [2; 20], [3; 20]] },
    ] {
        assert_eq!(Request::from_request(&r.to_request()), Ok(r));
    }
}

#[test]
fn responses_round_trip() {
    for r in [
        Response::Connect { tid: -1, cid: -1 },
        Response::Announce { tid: 1, interval: 1800, leechers: 2, seeders: 3, peers: vec![] },
        Response::Announce {
            tid: 1,
            interval: -1,
            leechers: i32::MAX,
            seeders: i32::MIN,
            peers: vec![
                Endpoint { ip: 0x7f000001, port: 6881 },
                Endpoint { ip: 0xffffffff, port: 0 },
                Endpoint { ip: 0, port: 0xffff },
            ],
        },
        Response::Scrape {
            tid: 9,
            hashes: vec![
                Status { complete: 1, downloaded: 2, incomplete: 3 },
                Status { complete: -1, downloaded: 0, incomplete: i32::MAX },
            ],
        },
        Response::Error { tid: 3, error: "nö".to_string() },
        Response::Error { tid: 3, error: String::new() },
    ] {
        assert_eq!(Response::to_response(&r.to_bytes()), Ok(r));
    }
}

#[test]
fn announce_response_names_peers_six_bytes_each() {
    let mut p = vec![0, 0, 0, 1, 0, 0, 0, 9, 0, 0, 7, 8, 0, 0, 0, 4, 0, 0, 0, 5];
    p.extend_from_slice(&[10, 0, 0, 1, 0x1a, 0xe1, 192, 168, 1, 2, 0, 80, 1, 2, 3]);
    assert_eq!(
        Response::to_response(&p),
        Ok(Response::Announce {
            tid: 9,
            interval: 0x708,
            leechers: 4,
            seeders: 5,
            peers: vec![
                Endpoint { ip: 0x0a000001, port: 6881 },
                Endpoint { ip: 0xc0a80102, port: 80 }
            ],
        })
    );
}

#[test]
fn refuses_broken_packets() {
    assert_eq!(Response::to_response(&[0; 7]), Err(PacketError::Truncated));
    assert_eq!(Response::to_response(&[0; 15]), Err(PacketError::Truncated));
    assert_eq!(
        Response::to_response(&[0, 0, 0, 1, 0, 0, 0, 0, 0, 0, 0, 0, 0, 0, 0, 0, 0, 0, 0]),
        Err(PacketError::Truncated)
    );
    assert_eq!(Response::to_response(&[0, 0, 0, 4, 0, 0, 0, 0]), Err(PacketError::UnknownAction));
    assert_eq!(
        Response::to_response(&[0, 0, 0, 3, 0, 0, 0, 0, 0xff]),
        Err(PacketError::InvalidText)
    );
    assert_eq!(Request::from_request(&[0; 15]), Err(PacketError::Truncated));
    let mut a = announce().to_request();
    a[83] = 9;
    assert_eq!(Request::from_request(&a), Err(PacketError::UnknownEvent));
    a.truncate(97);
    assert_eq!(Request::from_request(&a), Err(PacketError::Truncated));
    let mut c = Request::Connect { cid: 0, tid: 0 }.to_request();
    c[11] = 5;
    assert_eq!(Request::from_request(&c), Err(PacketError::UnknownAction));
}
