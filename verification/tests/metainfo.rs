use crypto::digest::Digest;
use crypto::sha1::Sha1;
use everlasting::bencode::decoder::decode;
use everlasting::bencode::encoder::encode_in_order;
use everlasting::bencode::{DecodeError, Kind, Value};
use everlasting::data::{File, HostPort, Info, Mode, TorrentInfo};
use everlasting::metainfo::{find_span, power_of_two, split_hashes};

fn sha1(data: &[u8]) -> [u8; 20] {
    let mut h = Sha1::new();
    h.input(data);
    let mut out = [0u8; 20];
    h.result(&mut out);
    out
}

fn single_file() -> Vec<u8> {
    let mut t = b"d8:announce12:udp://t:80/a4:infod4:name3:foo12:piece lengthi16384e6:pieces20:".to_vec();
    t.extend_from_slice(&[7u8; 20]);
    t.extend_from_slice(b"6:lengthi16384eee");
    t
}

#[test]
fn torrent_file_round_trips_and_hashes_its_info_bytes() {
    let file = single_file();
    let value = decode(&file, 16).unwrap();
    assert_eq!(encode_in_order(&value), file);

    let t = TorrentInfo::from_bencode(&file).unwrap();
    let (start, end) = find_span(&file, b"info", 15).unwrap();
    assert_eq!(&file[start..start + 8], b"d4:name3");
    assert_eq!(end, file.len() - 1);
    assert_eq!(t.hash, sha1(&file[start..end]));

    let info = t.info.unwrap();
    assert_eq!(info.value, t.hash);
    assert_eq!(info.piece_length, 16384);
    assert_eq!(info.pieces, vec![[7u8; 20]]);
    assert_eq!(info.private, None);
    assert_eq!(
        info.mode,
        Mode::Single { name: "foo".to_string(), length: 16384, md5sum: None }
    );
    assert_eq!(t.announce.udp, vec![HostPort { host: "t".to_string(), port: 80 }]);
    assert!(t.announce.http.is_empty());
    assert_eq!(t.comment, "");
    assert_eq!(t.created, None);
    assert_eq!(t.author, None);
}

fn torrent(info: &[u8], rest: &[u8]) -> Vec<u8> {
    let mut t = b"d".to_vec();
    t.extend_from_slice(rest);
    t.extend_from_slice(b"4:info");
    t.extend_from_slice(info);
    t.extend_from_slice(b"e");
    t
}

fn info_with(piece_length: &str, hashes: usize, tail: &str) -> Vec<u8> {
    let mut i = format!("d12:piece lengthi{}e6:pieces{}:", piece_length, hashes * 20).into_bytes();
    i.extend_from_slice(&vec![1u8; hashes * 20]);
    i.extend_from_slice(tail.as_bytes());
    i.extend_from_slice(b"e");
    i
}

#[test]
fn reads_a_multi_file_torrent() {
    let info = info_with(
        "32768",
        3,
        "4:name3:dir5:filesld6:lengthi40000e4:pathl1:a5:b.txteed6:lengthi30000e4:pathl1:ceee7:privatei1e",
    );
    let file = torrent(
        &info,
        b"8:announce18:http://tr.test/ann13:announce-listll18:http://tr.test/ann17:udp://u.test:6969el19:https://other/trackee7:comment2:hi10:created by2:me13:creation datei1700000000e",
    );
    let t = TorrentInfo::from_bencode(&file).unwrap();
    assert_eq!(t.hash, sha1(&info));
    assert_eq!(
        t.announce.http,
        vec![
            "http://tr.test/ann".to_string(),
            "http://tr.test/ann".to_string(),
            "https://other/track".to_string()
        ]
    );
    assert_eq!(t.announce.udp, vec![HostPort { host: "u.test".to_string(), port: 6969 }]);
    assert_eq!(t.comment, "hi");
    assert_eq!(t.author, Some("me".to_string()));
    assert_eq!(t.created, Some(1_700_000_000));
    assert_eq!(t.length(), 70000);
    assert_eq!(t.bitfield_size(), 1);
    let info = t.info.unwrap();
    assert_eq!(info.private, Some(()));
    assert_eq!(info.pieces.len(), 3);
    assert_eq!(info.mode.name(), "dir");
    assert_eq!(
        info.mode,
        Mode::Multi {
            dir_name: "dir".to_string(),
            files: vec![
                File { length: 40000, md5sum: None, path: vec!["a".to_string(), "b.txt".to_string()] },
                File { length: 30000, md5sum: None, path: vec!["c".to_string()] },
            ],
            md5sum: None,
        }
    );
    assert!(info.check());
}

#[test]
fn udp_tracker_without_port_gets_the_default() {
    let info = info_with("16384", 1, "4:name1:x6:lengthi5e");
    let file = torrent(&info, b"8:announce14:udp://u.test/a");
    let t = TorrentInfo::from_bencode(&file).unwrap();
    assert_eq!(t.announce.udp, vec![HostPort { host: "u.test".to_string(), port: 80 }]);
}

#[test]
fn refuses_invalid_torrents() {
    let err = |info: Vec<u8>| TorrentInfo::from_bencode(&torrent(&info, b"")).unwrap_err();
    // Piece length below 16 KiB, and not a power of two.
    assert_eq!(err(info_with("8192", 1, "4:name1:x6:lengthi5e")), DecodeError::OverflowInteger);
    assert_eq!(err(info_with("16385", 1, "4:name1:x6:lengthi5e")), DecodeError::OverflowInteger);
    assert_eq!(err(info_with("-16384", 1, "4:name1:x6:lengthi5e")), DecodeError::OverflowInteger);
    // Too few and too many piece hashes for the content.
    assert_eq!(err(info_with("16384", 1, "4:name1:x6:lengthi16385e")), DecodeError::Truncated);
    assert_eq!(err(info_with("16384", 2, "4:name1:x6:lengthi16384e")), DecodeError::TrailingBytes);
    assert_eq!(err(info_with("16384", 1, "4:name1:x6:lengthi0e")), DecodeError::TrailingBytes);
    // Missing and mistyped fields.
    assert_eq!(
        err(info_with("16384", 1, "6:lengthi5e")),
        DecodeError::Unexpected(Kind::End, Kind::Bytes)
    );
    assert_eq!(
        err(info_with("16384", 1, "4:name1:x")),
        DecodeError::Unexpected(Kind::End, Kind::Int)
    );
    assert_eq!(
        err(info_with("16384", 1, "4:namei1e6:lengthi5e")),
        DecodeError::Unexpected(Kind::Int, Kind::Bytes)
    );
    assert_eq!(
        err(info_with("16384", 1, "4:name1:x5:filesi1e")),
        DecodeError::Unexpected(Kind::Int, Kind::List)
    );
    // A file without a path segment.
    assert_eq!(
        err(info_with("16384", 1, "4:name1:x5:filesld6:lengthi5e4:pathleee")),
        DecodeError::Unexpected(Kind::End, Kind::Bytes)
    );
    // A name that is not UTF-8.
    let mut bad = b"d12:piece lengthi16384e6:pieces20:".to_vec();
    bad.extend_from_slice(&[1u8; 20]);
    bad.extend_from_slice(b"4:name2:\xff\xfe6:lengthi5ee");
    assert_eq!(err(bad), DecodeError::Unexpected(Kind::Other, Kind::Bytes));
    // No info at all, not a dictionary, and trailing bytes.
    assert_eq!(
        TorrentInfo::from_bencode(b"d8:announce3:abce").unwrap_err(),
        DecodeError::Unexpected(Kind::End, Kind::Dict)
    );
    assert_eq!(
        TorrentInfo::from_bencode(b"li1ee").unwrap_err(),
        DecodeError::Unexpected(Kind::List, Kind::Dict)
    );
    assert_eq!(TorrentInfo::from_bencode(b"dei0e").unwrap_err(), DecodeError::TrailingBytes);
    assert_eq!(TorrentInfo::from_bencode(b"d4:info").unwrap_err(), DecodeError::Truncated);
}

#[test]
fn pieces_of_a_hash_string() {
    let mut s = vec![1u8; 20];
    s.extend_from_slice(&[2u8; 20]);
    assert_eq!(split_hashes(&s), vec![[1u8; 20], [2u8; 20]]);
    assert!(split_hashes(&[]).is_empty());
    assert!(power_of_two(1) && power_of_two(16384) && power_of_two(1 << 40));
    assert!(!power_of_two(0) && !power_of_two(3) && !power_of_two(16385));
}

#[test]
fn info_validity_is_checked() {
    let mut info = Info {
        mode: Mode::Single { name: "x".to_string(), length: 40000, md5sum: None },
        piece_length: 16384,
        pieces: vec![[0u8; 20]; 3],
        private: None,
        value: [0u8; 20],
    };
    assert!(info.check());
    // 40000 = 16384 * 2 + 7232: three pieces, the last of 7232 bytes.
    info.pieces.push([0u8; 20]);
    assert!(!info.check());
    info.pieces.truncate(2);
    assert!(!info.check());
    info.pieces.push([0u8; 20]);
    info.piece_length = 20000;
    assert!(!info.check());
}

#[test]
fn decoded_value_is_not_changed_by_dictionary_lookup_order() {
    let v = decode(b"d1:ai1e1:ai2ee", 5).unwrap();
    assert_eq!(
        v,
        Value::Dict(vec![(b"a".to_vec(), Value::Int(1)), (b"a".to_vec(), Value::Int(2))])
    );
    assert_eq!(
        everlasting::bencode::fields::get_u64(
            match &v {
                Value::Dict(d) => d,
                _ => unreachable!(),
            },
            "a"
        ),
        Ok(1)
    );
}
