use everlasting::bencode::{DecodeError, Kind};
use everlasting::helpers::{attempt, Attempt};
use everlasting::data::{
    Announce, Endpoint, Event, HostPort, HttpResponse, Peer, ScrapeResponse, Status, TorrentInfo,
};
use everlasting::responses::parse_ipv4;
use everlasting::scrape::{replace, Scraper};
use everlasting::tracker::{dedup, HttpTracker, UdpTracker};
use everlasting::tracker_session::{
    add_seconds, backoff_seconds, query, Action, HttpAction, HttpSession, HttpState, Outcome,
    Parameters, State, UdpSession, DEFAULT_INTERVAL,
};
use everlasting::udp::{Request, Response};

fn tracker() -> Endpoint {
    Endpoint { ip: 0x01020304, port: 6969 }
}

fn session(state: State) -> UdpSession {
    UdpSession { dst: tracker(), state, interval: 1800, key: 42 }
}

#[test]
fn backoff_doubles_from_fifteen_seconds() {
    let all: Vec<u64> = (0..=8).map(backoff_seconds).collect();
    assert_eq!(all, vec![15, 30, 60, 120, 240, 480, 960, 1920, 3840]);
    assert_eq!(add_seconds(u64::MAX - 1, 5), u64::MAX);
    assert_eq!(add_seconds(1, 5), 6);
}

#[test]
fn connects_then_announces() {
    let mut s = UdpSession::new(tracker());
    assert_eq!(s.state, State::Disconnected);
    assert_eq!(s.interval, DEFAULT_INTERVAL);
    assert_eq!(s.step(1000, 11), Action::Connect { tid: 11 });
    assert_eq!(s.state, State::Connecting { tid: 11, tries: 0, sent: 1000 });
    assert_eq!(s.step(1014, 12), Action::Wait { until: 1015 });

    assert_eq!(
        s.receive(tracker(), Response::Connect { tid: 11, cid: 77 }, 1002),
        Outcome::Connected
    );
    assert_eq!(s.state, State::Connected { cid: 77, expiry: 1062 });
    assert_eq!(s.step(1003, 13), Action::Announce { cid: 77, tid: 13 });
    assert_eq!(
        s.state,
        State::Announcing { cid: 77, expiry: 1062, tid: 13, tries: 0, sent: 1003 }
    );
    let peers = vec![Endpoint { ip: 1, port: 2 }];
    assert_eq!(
        s.receive(
            tracker(),
            Response::Announce { tid: 13, interval: 600, leechers: 0, seeders: 1, peers: peers.clone() },
            1004
        ),
        Outcome::Peers(peers)
    );
    assert_eq!(s.state, State::Announced { interval: 600, cid: 77, expiry: 1062, at: 1004 });
    assert_eq!(s.step(1603, 14), Action::Wait { until: 1604 });
    // The connection id is long stale when the next announce is due.
    assert_eq!(s.step(1604, 14), Action::Connect { tid: 14 });
}

#[test]
fn stale_connection_id_forces_a_reconnect() {
    // Connected at 1000: good for 60 seconds.
    let mut s = session(State::Connecting { tid: 1, tries: 0, sent: 999 });
    assert_eq!(s.receive(tracker(), Response::Connect { tid: 1, cid: 5 }, 1000), Outcome::Connected);
    let mut early = s.clone();
    assert_eq!(early.step(1059, 2), Action::Announce { cid: 5, tid: 2 });
    let mut edge = s.clone();
    assert_eq!(edge.step(1060, 2), Action::Connect { tid: 2 });
    assert_eq!(s.step(1061, 2), Action::Connect { tid: 2 });
    assert_eq!(s.state, State::Connecting { tid: 2, tries: 0, sent: 1061 });

    // An announce that times out after the id went stale reconnects too.
    let mut a = session(State::Announcing { cid: 5, expiry: 1060, tid: 3, tries: 2, sent: 1010 });
    assert_eq!(a.step(1069, 4), Action::Wait { until: 1070 });
    assert_eq!(a.step(1070, 4), Action::Connect { tid: 4 });
    assert_eq!(a.state, State::Connecting { tid: 4, tries: 3, sent: 1070 });
    let mut b = session(State::Announcing { cid: 5, expiry: 1060, tid: 3, tries: 0, sent: 1010 });
    assert_eq!(b.step(1025, 4), Action::Announce { cid: 5, tid: 4 });
    assert_eq!(
        b.state,
        State::Announcing { cid: 5, expiry: 1060, tid: 4, tries: 1, sent: 1025 }
    );
}

#[test]
fn gives_up_after_eight_tries() {
    let mut s = UdpSession::new(tracker());
    let mut now = 0;
    let mut sent = 0;
    loop {
        match s.step(now, sent as i32) {
            Action::Connect { .. } => sent += 1,
            Action::Wait { until } => {
                if let State::Errored { .. } = s.state {
                    assert_eq!(until, now + DEFAULT_INTERVAL);
                    break;
                }
                now = until;
            }
            Action::Announce { .. } => unreachable!(),
        }
    }
    assert_eq!(sent, 8);
    // 15 + 30 + ... + 1920 seconds of waiting.
    assert_eq!(now, 15 * 255);
    assert_eq!(s.state, State::Errored { at: now });
    assert_eq!(s.step(now + 1799, 0), Action::Wait { until: now + 1800 });
    assert_eq!(s.step(now + 1800, 9), Action::Connect { tid: 9 });
    assert_eq!(s.state, State::Connecting { tid: 9, tries: 0, sent: now + 1800 });
}

#[test]
fn responses_that_are_not_awaited_are_dropped() {
    let connecting = State::Connecting { tid: 1, tries: 0, sent: 0 };
    let mut s = session(connecting);
    let stranger = Endpoint { ip: 9, port: 9 };
    assert_eq!(s.receive(stranger, Response::Connect { tid: 1, cid: 5 }, 1), Outcome::Dropped);
    assert_eq!(s.receive(tracker(), Response::Connect { tid: 2, cid: 5 }, 1), Outcome::Dropped);
    assert_eq!(
        s.receive(
            tracker(),
            Response::Announce { tid: 1, interval: 1, leechers: 0, seeders: 0, peers: vec![] },
            1
        ),
        Outcome::Dropped
    );
    assert_eq!(s.receive(tracker(), Response::Scrape { tid: 1, hashes: vec![] }, 1), Outcome::Dropped);
    assert_eq!(
        s.receive(tracker(), Response::Error { tid: 3, error: "no".to_string() }, 1),
        Outcome::Dropped
    );
    assert_eq!(s.state, connecting);
    assert_eq!(
        s.receive(tracker(), Response::Error { tid: 1, error: "no".to_string() }, 7),
        Outcome::Refused
    );
    assert_eq!(s.state, State::Errored { at: 7 });
    let mut d = session(State::Disconnected);
    assert_eq!(d.receive(tracker(), Response::Connect { tid: 1, cid: 5 }, 1), Outcome::Dropped);
    let mut a = session(State::Announcing { cid: 1, expiry: 60, tid: 4, tries: 0, sent: 0 });
    assert_eq!(
        a.receive(
            tracker(),
            Response::Announce { tid: 4, interval: 0, leechers: 0, seeders: 0, peers: vec![] },
            3
        ),
        Outcome::Peers(vec![])
    );
    assert_eq!(a.state, State::Announced { interval: DEFAULT_INTERVAL, cid: 1, expiry: 60, at: 3 });
}

fn parameters() -> Parameters {
    Parameters {
        info_hash: [0x12; 20],
        peer_id: *b"-XV0001-abcdefghijkl",
        port: 1317,
        uploaded: 1,
        downloaded: 20,
        left: 300,
        compact: true,
        no_peer_id: false,
        event: Event::Started,
        ip: None,
        numwant: 50,
        key: None,
        tracker_id: None,
    }
}

#[test]
fn poll_draws_a_transaction_id() {
    let mut s = UdpSession::new(tracker());
    let a = s.poll(50);
    match (a, s.state) {
        (Action::Connect { tid }, State::Connecting { tid: t, tries: 0, sent: 50 }) => {
            assert_eq!(tid, t)
        }
        other => panic!("{:?}", other),
    }
    let p = parameters();
    assert_eq!(s.request(&a, &p).map(|r| r.to_request().len()), Some(16));
    assert_eq!(s.request(&Action::Wait { until: 1 }, &p), None);
    assert_eq!(
        s.request(&Action::Announce { cid: 3, tid: 4 }, &p),
        Some(Request::Announce {
            cid: 3,
            tid: 4,
            info_hash: [0x12; 20],
            peer_id: *b"-XV0001-abcdefghijkl",
            downloaded: 20,
            left: 300,
            uploaded: 1,
            event: Event::Started,
            ip: 0,
            key: s.key,
            num_want: -1,
            port: 1317,
        })
    );
}

#[test]
fn http_query_is_spelled_out() {
    let mut p = parameters();
    let hash = "%12".repeat(20);
    assert_eq!(
        query(&p),
        format!(
            "info_hash={}&peer_id=%2DXV0001%2Dabcdefghijkl&port=1317&uploaded=1&downloaded=20&left=300&compact=1&no_peer_id=0&numwant=50&event=started",
            hash
        )
    );
    p.event = Event::Inactive;
    p.compact = false;
    p.no_peer_id = true;
    p.left = 0;
    p.tracker_id("a b".to_string());
    assert_eq!(
        query(&p),
        format!(
            "info_hash={}&peer_id=%2DXV0001%2Dabcdefghijkl&port=1317&uploaded=1&downloaded=20&left=0&compact=0&no_peer_id=1&numwant=50&trackerid=a%20b",
            hash
        )
    );
    p.event = Event::Stopped;
    assert!(query(&p).contains("&event=stopped&trackerid="));
    p.event = Event::Completed;
    assert!(query(&p).contains("&event=completed&trackerid="));

    let s = HttpSession::connect("http://tr.test:8080/announce?old=1".to_string());
    let mut q = parameters();
    q.event = Event::Inactive;
    assert_eq!(
        s.build_request(&q),
        Some(format!(
            "http://tr.test:8080/announce?info_hash={}&peer_id=%2DXV0001%2Dabcdefghijkl&port=1317&uploaded=1&downloaded=20&left=300&compact=1&no_peer_id=0&numwant=50",
            hash
        ))
    );
    assert_eq!(HttpSession::connect("not a url".to_string()).build_request(&q), None);
}

#[test]
fn http_session_follows_the_tracker() {
    let mut s = HttpSession::connect("http://tr.test/a".to_string());
    assert_eq!(s.next(5), HttpAction::Announce { event: Event::Started });
    assert_eq!(s.shutdown(), None);
    s.failed(10);
    assert_eq!(s.state, HttpState::Waiting { since: 10, wait: DEFAULT_INTERVAL });
    assert_eq!(s.shutdown(), None);

    let answer = HttpResponse { interval: 900, min_interval: Some(60), ..Default::default() };
    assert_eq!(answer.wait(), 60);
    s.answered(&answer, 100);
    assert_eq!(s.state, HttpState::Waiting { since: 100, wait: 60 });
    assert_eq!(s.next(159), HttpAction::Wait { until: 160 });
    assert_eq!(s.next(160), HttpAction::Announce { event: Event::Inactive });
    assert_eq!(s.shutdown(), Some(Event::Stopped));
    s.failed(200);
    assert_eq!(s.state, HttpState::Waiting { since: 200, wait: 900 });
    let plain = HttpResponse { interval: 30, ..Default::default() };
    assert_eq!(plain.wait(), 30);

    let failure = HttpResponse { failure_reason: Some("gone".to_string()), ..Default::default() };
    s.answered(&failure, 300);
    assert_eq!(s.state, HttpState::Dead);
    assert_eq!(s.next(10_000), HttpAction::Stop);
    s.failed(400);
    assert_eq!(s.state, HttpState::Dead);
}

#[test]
fn reads_compact_and_dictionary_peers() {
    let mut body = b"d8:intervali1800e12:min intervali60e10:tracker id3:abc8:completei5e10:incompletei7e15:warning message4:slow5:peers12:".to_vec();
    body.extend_from_slice(&[10, 0, 0, 1, 0x1a, 0xe1, 192, 168, 0, 9, 0, 80]);
    body.push(b'e');
    let r = HttpResponse::from_bencode(&body).unwrap();
    assert_eq!(
        r,
        HttpResponse {
            failure_reason: None,
            warning: Some("slow".to_string()),
            interval: 1800,
            min_interval: Some(60),
            tracker_id: "abc".to_string(),
            complete: 5,
            incomplete: 7,
            peers: vec![
                Peer { id: None, addr: Endpoint { ip: 0x0a000001, port: 6881 } },
                Peer { id: None, addr: Endpoint { ip: 0xc0a80009, port: 80 } },
            ],
        }
    );

    let body = b"d8:intervali9e5:peersld2:ip7:1.2.3.47:peer id20:aaaaaaaaaaaaaaaaaaaa4:porti6881eed2:ip11:255.0.10.994:porti1eeee";
    let r = HttpResponse::from_bencode(body).unwrap();
    assert_eq!(r.interval, 9);
    assert_eq!(
        r.peers,
        vec![
            Peer { id: Some([b'a'; 20]), addr: Endpoint { ip: 0x01020304, port: 6881 } },
            Peer { id: None, addr: Endpoint { ip: 0xff000a63, port: 1 } },
        ]
    );
    assert_eq!(r.tracker_id, "");
    assert_eq!((r.complete, r.incomplete, r.min_interval), (0, 0, None));

    let r = HttpResponse::from_bencode(b"d14:failure reason4:nopee").unwrap();
    assert_eq!(r.failure_reason, Some("nope".to_string()));
    assert!(r.peers.is_empty());
}

#[test]
fn refuses_broken_responses() {
    let err = |b: &[u8]| HttpResponse::from_bencode(b).unwrap_err();
    assert_eq!(err(b"d5:peers0:e"), DecodeError::Unexpected(Kind::End, Kind::Int));
    assert_eq!(err(b"d8:intervali1ee"), DecodeError::Unexpected(Kind::End, Kind::List));
    assert_eq!(err(b"d8:intervali1e5:peers5:abcdee"), DecodeError::Truncated);
    assert_eq!(err(b"d8:intervali1e5:peersi1ee"), DecodeError::Unexpected(Kind::Int, Kind::List));
    assert_eq!(err(b"d8:intervali-1e5:peers0:e"), DecodeError::OverflowInteger);
    assert_eq!(
        err(b"d8:intervali1e5:peersld2:ip7:1.2.3.44:porti65536eeee"),
        DecodeError::OverflowInteger
    );
    assert_eq!(
        err(b"d8:intervali1e5:peersld2:ip7:1.2.3.47:peer id2:ab4:porti1eeee"),
        DecodeError::Truncated
    );
    assert_eq!(
        err(b"d8:intervali1e5:peersld2:ip7:1.2.3.47:peer id21:aaaaaaaaaaaaaaaaaaaaa4:porti1eeee"),
        DecodeError::TrailingBytes
    );
    assert_eq!(err(b"d8:intervali1e5:peersld4:porti1eeee"), DecodeError::Unexpected(Kind::End, Kind::Bytes));
    assert_eq!(err(b"i1e"), DecodeError::Unexpected(Kind::Int, Kind::Dict));
    assert_eq!(err(b"lllllleeeeee"), DecodeError::DepthExceeded);
    assert_eq!(err(b"llllleeeee"), DecodeError::Unexpected(Kind::List, Kind::Dict));
}

#[test]
fn reads_dotted_addresses() {
    assert_eq!(parse_ipv4(b"0.0.0.0"), Some(0));
    assert_eq!(parse_ipv4(b"255.255.255.255"), Some(u32::MAX));
    assert_eq!(parse_ipv4(b"10.1.2.30"), Some(0x0a01021e));
    for bad in [
        &b"256.0.0.1"[..], b"1.2.3", b"1.2.3.4.5", b"1.2.3.", b".1.2.3", b"1..2.3", b"1.2.3.4 ",
        b"1234.1.1.1", b"a.b.c.d", b"", b"1.2.3.-4",
    ] {
        assert_eq!(parse_ipv4(bad), None);
    }
}

#[test]
fn reads_scrape_responses() {
    let mut body = b"d5:filesd20:".to_vec();
    body.extend_from_slice(&[1u8; 20]);
    body.extend_from_slice(b"d8:completei5e10:downloadedi50e10:incompletei10e4:name3:fooe20:");
    body.extend_from_slice(&[2u8; 20]);
    body.extend_from_slice(b"deee");
    let r = ScrapeResponse::from_bencode(&body).unwrap();
    assert_eq!(
        r.files,
        vec![
            (
                vec![1u8; 20],
                Status { seeders: 5, finished: 50, leechers: 10, name: Some("foo".to_string()) }
            ),
            (vec![2u8; 20], Status { seeders: 0, finished: 0, leechers: 0, name: None }),
        ]
    );
    assert!(ScrapeResponse::new().files.is_empty());
    assert_eq!(
        ScrapeResponse::from_bencode(b"de").unwrap_err(),
        DecodeError::Unexpected(Kind::End, Kind::Dict)
    );
    assert_eq!(
        ScrapeResponse::from_bencode(b"d5:filesd1:ad8:completei4294967296eeee").unwrap_err(),
        DecodeError::OverflowInteger
    );
}

#[test]
fn scrape_url_comes_from_the_announce_url() {
    assert_eq!(
        Scraper("http://tr.test/announce?x=1".to_string()).get(),
        Some("http://tr.test/scrape?x=1".to_string())
    );
    assert_eq!(
        Scraper("http://announce.test/announce".to_string()).get(),
        Some("http://scrape.test/scrape".to_string())
    );
    assert_eq!(Scraper("http://tr.test/a".to_string()).get(), None);
    assert_eq!(replace("aaa", "aa", "b"), Some("ba".to_string()));
    assert_eq!(replace("abc", "abcd", "b"), None);
    assert_eq!(replace("xµx", "µ", ""), Some("xx".to_string()));
}

#[test]
fn peers_are_handed_on_once() {
    let p = |ip: u32, id: Option<u8>| Peer {
        id: id.map(|b| [b; 20]),
        addr: Endpoint { ip, port: 1 },
    };
    assert_eq!(
        dedup(vec![p(1, None), p(2, Some(7)), p(1, Some(9)), p(3, None), p(2, None)]),
        vec![p(1, None), p(2, Some(7)), p(3, None)]
    );
    assert_eq!(dedup(vec![]), vec![]);
    assert_eq!(Peer::from(&Endpoint { ip: 5, port: 6 }), Peer { id: None, addr: Endpoint { ip: 5, port: 6 } });
}

#[test]
fn datagrams_reach_the_session_of_their_tracker() {
    let other = Endpoint { ip: 8, port: 8 };
    let mut pool = UdpTracker::new(&vec![tracker(), other, tracker()], [1; 20], 99);
    assert_eq!(pool.session_map.len(), 2);
    let key = everlasting::piece_manager::manager::endpoint_key(&tracker());
    let mut s = pool.session_map.remove(&key).unwrap();
    assert_eq!(s.step(0, 5), Action::Connect { tid: 5 });
    pool.session_map.insert(key, s);
    let answer = Response::Connect { tid: 5, cid: 1 }.to_bytes();
    assert_eq!(pool.listen(Endpoint { ip: 7, port: 7 }, &answer, 1), Outcome::Dropped);
    assert_eq!(pool.listen(other, &answer, 1), Outcome::Dropped);
    assert_eq!(pool.listen(tracker(), &answer[..10], 1), Outcome::Dropped);
    assert_eq!(pool.listen(tracker(), &answer, 1), Outcome::Connected);
    assert_eq!(pool.session_map[&key].state, State::Connected { cid: 1, expiry: 61 });
}

#[test]
fn http_pool_has_a_session_for_each_tracker() {
    let mut announce = Announce::new();
    announce.push("http://a.test/announce".to_string());
    announce.push("udp://b.test:9/announce".to_string());
    announce.push("https://c.test/announce".to_string());
    announce.push("udp://".to_string());
    announce.push("wss://d.test".to_string());
    assert_eq!(announce.udp, vec![HostPort { host: "b.test".to_string(), port: 9 }]);
    let info = TorrentInfo { announce, hash: [3; 20], ..Default::default() };
    let pool = HttpTracker::new(&info, [4; 20]);
    assert_eq!(
        pool.trackers.iter().map(|s| s.dst.clone()).collect::<Vec<_>>(),
        vec!["http://a.test/announce".to_string(), "https://c.test/announce".to_string()]
    );
    assert_eq!(pool.parameters.info_hash, [3; 20]);
    assert_eq!(pool.parameters.peer_id, [4; 20]);
    assert_eq!(pool.parameters.left, 0);
    assert_eq!(pool.parameters.numwant, 50);
    assert_eq!(pool.parameters.port, 1317);
}

#[test]
fn the_pool_steps_one_session_at_a_time() {
    let other = Endpoint { ip: 8, port: 8 };
    let mut pool = UdpTracker::new(&vec![tracker(), other], [1; 20], 99);
    let info = TorrentInfo { hash: [1; 20], ..Default::default() };
    let p = Parameters::try_from(&info, [2; 20]);
    assert_eq!(pool.poll(Endpoint { ip: 7, port: 7 }, 0, &p), None);
    let key = everlasting::piece_manager::manager::endpoint_key(&tracker());
    let far = everlasting::piece_manager::manager::endpoint_key(&other);
    // The first step connects, under a transaction id of the session's own.
    let (action, packet) = pool.poll(tracker(), 100, &p).unwrap();
    let Action::Connect { tid } = action else { panic!("{action:?}") };
    assert_eq!(packet, Some(Request::Connect { cid: 0x41727101980, tid }));
    assert_eq!(pool.session_map[&key].state, State::Connecting { tid, tries: 0, sent: 100 });
    assert_eq!(pool.session_map[&far].state, State::Disconnected);
    // While the answer is awaited nothing goes out.
    assert_eq!(pool.poll(tracker(), 101, &p), Some((Action::Wait { until: 115 }, None)));
    let answer = Response::Connect { tid, cid: 77 }.to_bytes();
    assert_eq!(pool.listen(tracker(), &answer, 102), Outcome::Connected);
    // Then the announce, with what the parameters tell.
    let (action, packet) = pool.poll(tracker(), 103, &p).unwrap();
    let Action::Announce { cid: 77, tid } = action else { panic!("{action:?}") };
    let session_key = pool.session_map[&key].key;
    assert_eq!(
        packet,
        Some(Request::Announce {
            cid: 77,
            tid,
            info_hash: [1; 20],
            peer_id: [2; 20],
            downloaded: 0,
            left: 0,
            uploaded: 0,
            event: Event::Inactive,
            ip: 0,
            key: session_key,
            num_want: -1,
            port: 1317,
        })
    );
    assert_eq!(pool.session_map.len(), 2);
}

#[test]
fn the_tracker_id_is_kept_for_the_next_announce() {
    let info = TorrentInfo { hash: [1; 20], ..Default::default() };
    let mut p = Parameters::try_from(&info, [2; 20]);
    let before = p.clone();
    let mut response = HttpResponse { interval: 60, ..Default::default() };
    p.heard(&response);
    assert_eq!(p, before);
    response.tracker_id = "abc".to_string();
    p.heard(&response);
    assert_eq!(p.tracker_id, Some("abc".to_string()));
    assert_eq!(Parameters { tracker_id: None, ..p.clone() }, before);
    response.tracker_id = String::new();
    p.heard(&response);
    assert_eq!(p.tracker_id, Some("abc".to_string()));
}

#[test]
fn peers_at_other_addresses_are_passed_over() {
    // An IPv6 peer between two IPv4 peers, and a peer named by its host.
    let body = b"d8:intervali9e5:peersld2:ip7:1.2.3.44:porti1eed2:ip3:::14:porti2eed2:ip11:2001:db8::54:porti3eed2:ip9:host.test4:porti4eed2:ip7:5.6.7.84:porti5eeee";
    let r = HttpResponse::from_bencode(body).unwrap();
    assert_eq!(r.interval, 9);
    assert_eq!(
        r.peers,
        vec![
            Peer { id: None, addr: Endpoint { ip: 0x01020304, port: 1 } },
            Peer { id: None, addr: Endpoint { ip: 0x05060708, port: 5 } },
        ]
    );
    // A list of such peers alone is an empty list.
    let r = HttpResponse::from_bencode(b"d8:intervali9e5:peersld2:ip3:::14:porti2eeee").unwrap();
    assert!(r.peers.is_empty());
    // Any other fault of an entry still is the fault of the response, also
    // behind a peer that was passed over.
    let err = |b: &[u8]| HttpResponse::from_bencode(b).unwrap_err();
    assert_eq!(
        err(b"d8:intervali9e5:peersld2:ip3:::14:porti2eed2:ip7:1.2.3.44:porti65536eeee"),
        DecodeError::OverflowInteger
    );
    assert_eq!(
        err(b"d8:intervali9e5:peersld2:ip3:::17:peer id2:ab4:porti2eeee"),
        DecodeError::Truncated
    );
    // One peer read alone cannot be passed over.
    let one = everlasting::bencode::decoder::decode(b"d2:ip3:::14:porti2ee", 5).unwrap();
    assert_eq!(
        Peer::decode_bencode_object(&one),
        Err(DecodeError::Unexpected(Kind::Other, Kind::Bytes))
    );
}

#[test]
fn long_urls_get_no_request() {
    let info = TorrentInfo { hash: [1; 20], ..Default::default() };
    let mut p = Parameters::try_from(&info, [2; 20]);
    let s = HttpSession::connect("http://tr.test/a#frag".to_string());
    assert!(s.build_request(&p).unwrap().ends_with("#frag"));
    p.tracker_id = Some("x".repeat(0x100_0000));
    assert_eq!(s.build_request(&p), None);
    p.tracker_id = None;
    let long = HttpSession::connect(format!("http://tr.test/{}", "a".repeat(0x100_0000)));
    assert_eq!(long.build_request(&p), None);
}

#[test]
fn tries_are_counted() {
    // Nothing was tried yet: the first try goes out at once.
    assert_eq!(attempt(0, 4, 1, false), Attempt::Try { wait: 0 });
    assert_eq!(attempt(0, 4, 1, true), Attempt::Try { wait: 0 });
    assert_eq!(attempt(1, 4, 1, false), Attempt::Done);
    assert_eq!(attempt(1, 4, 7, true), Attempt::Try { wait: 7 });
    assert_eq!(attempt(3, 4, 7, true), Attempt::Try { wait: 7 });
    assert_eq!(attempt(4, 4, 7, true), Attempt::GiveUp);
    assert_eq!(attempt(4, 4, 7, false), Attempt::Done);
    assert_eq!(attempt(0, 0, 7, true), Attempt::GiveUp);
}

#[test]
fn an_error_is_a_refusal_only_when_it_is_awaited() {
    let error = |tid: i32| Response::Error { tid, error: "no".to_string() };
    let mut s = session(State::Errored { at: 5 });
    assert_eq!(s.receive(tracker(), error(1), 6), Outcome::Dropped);
    assert_eq!(s.state, State::Errored { at: 5 });
    let mut s = session(State::Connecting { tid: 1, tries: 0, sent: 5 });
    assert_eq!(s.receive(tracker(), error(2), 6), Outcome::Dropped);
    assert_eq!(s.receive(Endpoint { ip: 9, port: 9 }, error(1), 6), Outcome::Dropped);
    assert_eq!(s.state, State::Connecting { tid: 1, tries: 0, sent: 5 });
    assert_eq!(s.receive(tracker(), error(1), 6), Outcome::Refused);
    assert_eq!(s.state, State::Errored { at: 6 });
}
