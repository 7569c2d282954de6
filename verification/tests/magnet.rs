use everlasting::data::{GeneralError, HostPort, TorrentInfo};
use everlasting::magnet::MagnetInfo;

#[test]
fn parses_a_magnet_link() {
    let m = MagnetInfo::try_from(
        "magnet:?xt=urn:btih:0123456789abcdef0123456789abcdef01234567&dn=demo&tr=udp://tracker.example:6969",
    )
    .unwrap();
    assert_eq!(
        m.hash,
        [
            0x01, 0x23, 0x45, 0x67, 0x89, 0xab, 0xcd, 0xef, 0x01, 0x23, 0x45, 0x67, 0x89, 0xab,
            0xcd, 0xef, 0x01, 0x23, 0x45, 0x67
        ]
    );
    assert_eq!(m.name, Some("demo".to_string()));
    assert_eq!(m.trackers, Some(vec!["udp://tracker.example:6969".to_string()]));
    assert_eq!(m.peers, None);

    let t = TorrentInfo::from_magnet(m);
    assert_eq!(t.info, None);
    assert_eq!(t.hash[0], 0x01);
    assert_eq!(t.comment, "demo");
    assert_eq!(
        t.announce.udp,
        vec![HostPort { host: "tracker.example".to_string(), port: 6969 }]
    );
    assert!(t.announce.http.is_empty());
    assert_eq!(t.length(), 0);
}

#[test]
fn takes_repeated_and_encoded_parameters() {
    let m = MagnetInfo::try_from(
        "magnet:?tr=http%3A%2F%2Fa.test%2Fann&x.pe=1.2.3.4:5&xt=urn:btih:AAAAAAAAAAAAAAAAAAAAAAAAAAAAAAAA&tr=udp://b.test:1&x.pe=host:6&unknown=1&dn=a+b",
    )
    .unwrap();
    assert_eq!(m.hash, [0u8; 20]);
    assert_eq!(m.name, Some("a b".to_string()));
    assert_eq!(
        m.trackers,
        Some(vec!["http://a.test/ann".to_string(), "udp://b.test:1".to_string()])
    );
    assert_eq!(m.peers, Some(vec!["1.2.3.4:5".to_string(), "host:6".to_string()]));
    let t = TorrentInfo::from_magnet(m);
    assert_eq!(t.announce.http, vec!["http://a.test/ann".to_string()]);
    assert_eq!(t.announce.udp, vec![HostPort { host: "b.test".to_string(), port: 1 }]);
    assert_eq!(t.announce.peers, vec!["1.2.3.4:5".to_string(), "host:6".to_string()]);
}

#[test]
fn refuses_what_is_no_magnet_link() {
    assert_eq!(
        MagnetInfo::try_from("http://example.test/?xt=urn:btih:0123456789abcdef0123456789abcdef01234567"),
        Err(GeneralError::InvalidMagnet(
            "http://example.test/?xt=urn:btih:0123456789abcdef0123456789abcdef01234567".to_string()
        ))
    );
    assert_eq!(
        MagnetInfo::try_from("magnet:?dn=nothing"),
        Err(GeneralError::InvalidMagnet(String::new()))
    );
    assert_eq!(
        MagnetInfo::try_from("magnet:?xt=urn:btmh:1220abcd"),
        Err(GeneralError::InvalidMagnet("urn:btmh:1220abcd".to_string()))
    );
    assert_eq!(
        MagnetInfo::try_from("magnet:?xt=urn:btih:0123"),
        Err(GeneralError::InvalidMagnet("urn:btih:0123".to_string()))
    );
}
