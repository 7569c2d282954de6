use crypto::digest::Digest;
use crypto::sha1::Sha1;
use everlasting::bitmap::ByteWrapper;
use everlasting::data::{Endpoint, File, GeneralError, Info, Mode};
use everlasting::fs::Span;
use everlasting::piece_manager::manager::{
    endpoint_key, DataManager, Delivery, Reaction, Suspects, MAX_PEERS, PIPELINE,
    REQUEST_TIMEOUT,
};
use everlasting::piece_manager::{
    block_bytes, block_count, BitField, Block, Piece, PieceState, PiecesWrapper,
};
use everlasting::pwp::Message;

fn sha1(data: &[u8]) -> [u8; 20] {
    let mut h = Sha1::new();
    h.input(data);
    let mut out = [0u8; 20];
    h.result(&mut out);
    out
}

fn peer(n: u8) -> Endpoint {
    Endpoint { ip: 0x0a000000 + n as u32, port: 6881 }
}

/// The content: byte `i` is `i % 251`.
fn content(len: usize) -> Vec<u8> {
    (0..len).map(|i| (i % 251) as u8).collect()
}

fn info(piece_length: u64, mode: Mode, total: usize) -> Info {
    let data = content(total);
    let pieces = data.chunks(piece_length as usize).map(sha1).collect();
    Info { mode, piece_length, pieces, private: None, value: [0; 20] }
}

fn single(total: usize) -> Info {
    info(32768, Mode::Single { name: "f".to_string(), length: total as u64, md5sum: None }, total)
}

fn bits(s: &str) -> BitField {
    let v: Vec<bool> = s.chars().map(|c| c == '1').collect();
    BitField::from_bits(&v)
}

#[test]
fn rarest_piece_is_asked_first() {
    let mut m = DataManager::new(single(4 * 32768)).unwrap();
    let (a, b, c) = (peer(1), peer(2), peer(3));
    assert_eq!(m.bitfield(a, bits("1110")), Ok(()));
    assert_eq!(m.bitfield(b, bits("1100")), Ok(()));
    assert_eq!(m.bitfield(c, bits("1100")), Ok(()));
    assert_eq!(m.availability, vec![3, 3, 1, 0]);
    // Only A has piece 2.
    assert_eq!(m.select_piece(a), Some(2));
    // B and C have pieces 0 and 1, equally common: the lower index wins.
    assert_eq!(m.select_piece(b), Some(0));
    assert_eq!(m.select_piece(peer(9)), None);
    assert_eq!(
        m.next_request(a, 100),
        Some(Message::Request { index: 2, begin: 0, length: 16384 })
    );
    assert_eq!(
        m.next_request(a, 100),
        Some(Message::Request { index: 2, begin: 16384, length: 16384 })
    );
    // Piece 2 has no free block left: A is asked for piece 0 next.
    assert_eq!(
        m.next_request(a, 100),
        Some(Message::Request { index: 0, begin: 0, length: 16384 })
    );
    assert_eq!(
        m.next_request(a, 100),
        Some(Message::Request { index: 0, begin: 16384, length: 16384 })
    );
    // Four requests wait for A: the pipeline is full.
    assert_eq!(PIPELINE, 4);
    assert_eq!(m.next_request(a, 100), None);
    assert_eq!(
        m.next_request(b, 100),
        Some(Message::Request { index: 1, begin: 0, length: 16384 })
    );
}

#[test]
fn availability_counts_the_peers_that_have_a_piece() {
    let mut m = DataManager::new(single(5 * 32768)).unwrap();
    assert_eq!(m.availability, vec![0; 5]);
    assert_eq!(m.bitfield(peer(1), bits("10101")), Ok(()));
    assert_eq!(m.have(peer(2), 1), Ok(()));
    assert_eq!(m.have(peer(2), 0), Ok(()));
    assert_eq!(m.have(peer(2), 0), Ok(()));
    assert_eq!(m.availability, vec![2, 1, 1, 0, 1]);
    // A new bitfield takes the place of the old one.
    assert_eq!(m.bitfield(peer(1), bits("01100")), Ok(()));
    assert_eq!(m.availability, vec![1, 2, 1, 0, 0]);
    assert_eq!(m.have(peer(3), 4), Ok(()));
    assert_eq!(m.availability, vec![1, 2, 1, 0, 1]);
    m.remove_peer(peer(2));
    assert_eq!(m.availability, vec![0, 1, 1, 0, 1]);
    m.remove_peer(peer(2));
    m.remove_peer(peer(7));
    assert_eq!(m.availability, vec![0, 1, 1, 0, 1]);
    assert_eq!(m.bitfield_map.len(), 2);
    assert!(m.bitfield_map.contains_key(&endpoint_key(&peer(1))));

    assert_eq!(m.have(peer(1), 5), Err(GeneralError::InvalidPieceIdx));
    assert_eq!(m.bitfield(peer(1), bits("1111")), Err(GeneralError::InvalidPieceIdx));
    assert_eq!(m.availability, vec![0, 1, 1, 0, 1]);
}

#[test]
fn every_peer_is_counted() {
    assert_eq!(MAX_PEERS, usize::MAX);
    let mut m = DataManager::new(single(32768)).unwrap();
    let many = 70_000;
    for i in 0..many {
        assert_eq!(m.have(Endpoint { ip: i as u32, port: 1 }, 0), Ok(()));
    }
    assert_eq!(m.availability, vec![many]);
    assert_eq!(m.have(Endpoint { ip: 1, port: 2 }, 0), Ok(()));
    assert_eq!(m.bitfield(Endpoint { ip: 2, port: 2 }, bits("1")), Ok(()));
    assert_eq!(m.availability, vec![many + 2]);
    assert_eq!(m.bitfield(Endpoint { ip: 1, port: 1 }, bits("0")), Ok(()));
    assert_eq!(m.availability, vec![many + 1]);
}

#[test]
fn block_geometry() {
    assert_eq!(block_count(32768), 2);
    assert_eq!(block_count(32769), 3);
    assert_eq!(block_count(1), 1);
    assert_eq!(block_bytes(32769, 0), 16384);
    assert_eq!(block_bytes(32769, 2), 1);
    assert_eq!(block_bytes(16384, 0), 16384);
    // 100000 bytes in pieces of 32768: four pieces, the last of 1696 bytes,
    // whose only block has 1696 bytes.
    let w = PiecesWrapper::new(single(100_000)).unwrap();
    assert_eq!(w.inner.len(), 4);
    assert_eq!(w.piece_bytes(0), 32768);
    assert_eq!(w.piece_bytes(3), 100_000 - 3 * 32768);
    assert_eq!(w.piece_bytes(3), 1696);
    assert_eq!(w.inner[3].written.len(), 1);
    assert_eq!(block_bytes(w.piece_bytes(3), 0), 100_000 - 3 * 32768 - 0 * 16384);
    // 90000 bytes: the last piece has 24464 bytes in two blocks, the last
    // of 24464 - 16384 = 8080.
    let w = PiecesWrapper::new(single(90_000)).unwrap();
    assert_eq!(w.inner.len(), 3);
    assert_eq!(w.piece_bytes(2), 24464);
    assert_eq!(block_count(24464), 2);
    assert_eq!(block_bytes(24464, 1), 90_000 - 2 * 32768 - 1 * 16384);
    assert_eq!(32768 * 2 + w.piece_bytes(2), 90_000);
}

#[test]
fn pieces_are_written_verified_and_planned_for_disk() {
    let total = 90_000;
    let data = content(total);
    let mut w = PiecesWrapper::new(single(total)).unwrap();
    assert_eq!(w.inner[0].state(), PieceState::Missing);
    assert!(w.inner[0].inner.is_none());

    assert_eq!(w.write(2, 16384, &data[65536 + 16384..], peer(1)), Ok(false));
    assert_eq!(w.inner[2].state(), PieceState::Partial);
    assert_eq!(w.inner[2].inner.as_ref().unwrap().len(), 24464);
    // A piece that is not whole fails its hash and keeps what it has.
    assert_eq!(w.verify_piece(2), Err(GeneralError::InvalidPieceHash));
    assert_eq!(w.inner[2].state(), PieceState::Partial);
    assert_eq!(w.flush_piece(2), Err(GeneralError::AlreadyFlushed));
    assert_eq!(w.write(2, 0, &data[65536..65536 + 16384], peer(2)), Ok(true));
    assert_eq!(w.inner[2].state(), PieceState::Complete);
    assert!(w.inner[2].complete());
    assert_eq!(w.contributors(2), vec![peer(2), peer(1)]);

    assert_eq!(w.verify_piece(2), Ok(()));
    assert_eq!(w.inner[2].state(), PieceState::Verified);
    assert_eq!(sha1(w.inner[2].inner.as_ref().unwrap()), w.hashes[2]);
    assert_eq!(w.write(2, 0, &data[65536..65536 + 16384], peer(2)), Err(GeneralError::AlreadyFlushed));
    assert_eq!(
        w.flush_piece(2),
        Ok(vec![Span { file: 0, offset: 65536, begin: 0, len: 24464 }])
    );
    // Planning the writes does not make the piece flushed.
    assert_eq!(w.inner[2].state(), PieceState::Verified);
    assert!(!w.inner[2].flushed);
    assert_eq!(w.mark_flushed(2), Ok(Message::Have(2)));
    assert_eq!(w.inner[2].state(), PieceState::Flushed);
    assert_eq!(w.mark_flushed(2), Err(GeneralError::AlreadyFlushed));
    assert_eq!(w.flush_piece(2), Err(GeneralError::AlreadyFlushed));
    // A flushed piece still has the right hash, and stays flushed.
    assert_eq!(w.verify_piece(2), Ok(()));
    assert_eq!(w.inner[2].state(), PieceState::Flushed);
    // A piece of which nothing is here fails its hash.
    assert_eq!(w.verify_piece(0), Err(GeneralError::InvalidPieceHash));
    assert_eq!(w.inner[0].state(), PieceState::Missing);
    assert_eq!(w.mark_flushed(1), Err(GeneralError::AlreadyFlushed));
    assert_eq!(w.mark_flushed(3), Err(GeneralError::InvalidPieceIdx));
    assert_eq!(w.verify_piece(3), Err(GeneralError::InvalidPieceIdx));
    assert_eq!(w.flush_piece(3), Err(GeneralError::InvalidPieceIdx));
}

#[test]
fn blocks_that_do_not_fit_are_refused() {
    let mut w = PiecesWrapper::new(single(90_000)).unwrap();
    let b = vec![0u8; 16384];
    assert_eq!(w.write(3, 0, &b, peer(1)), Err(GeneralError::InvalidPieceIdx));
    assert_eq!(w.write(0, 1, &b, peer(1)), Err(GeneralError::InvalidPieceIdx));
    assert_eq!(w.write(0, 32768, &b, peer(1)), Err(GeneralError::InvalidPieceIdx));
    assert_eq!(w.write(0, 0, &b[..100], peer(1)), Err(GeneralError::InvalidPieceIdx));
    assert_eq!(w.write(2, 16384, &b, peer(1)), Err(GeneralError::InvalidPieceIdx));
    assert_eq!(w.write(2, 16384, &b[..8080], peer(1)), Ok(false));
    assert_eq!(w.inner[0].state(), PieceState::Missing);
}

#[test]
fn a_piece_with_a_wrong_hash_is_forgotten() {
    let total = 40_000;
    let data = content(total);
    let mut m = DataManager::new(single(total)).unwrap();
    let mut suspects = Suspects::new();
    let (a, b) = (peer(1), peer(2));
    let bad = vec![0xEEu8; 16384];

    assert_eq!(m.receive(a, 0, 0, &bad, &mut suspects), Delivery::Stored);
    assert_eq!(m.receive(b, 0, 16384, &data[16384..32768], &mut suspects), Delivery::Failed(vec![]));
    assert_eq!(m.pieces.inner[0].state(), PieceState::Missing);
    assert!(m.pieces.inner[0].inner.is_none());

    // The second failure of A gets it dropped; B sent a good block this
    // time and is not among the contributors.
    assert_eq!(m.receive(a, 0, 0, &bad, &mut suspects), Delivery::Stored);
    assert_eq!(
        m.receive(a, 0, 16384, &data[16384..32768], &mut suspects),
        Delivery::Failed(vec![a])
    );
    assert_eq!(suspects.strikes.get(&endpoint_key(&a)), Some(&2));
    assert_eq!(suspects.strikes.get(&endpoint_key(&b)), Some(&1));
    assert!(suspects.strike(b));
    assert!(suspects.strike(b));
    assert_eq!(suspects.strikes.get(&endpoint_key(&b)), Some(&2));
    assert!(!suspects.strike(peer(3)));

    assert_eq!(m.receive(b, 0, 0, &data[..16384], &mut suspects), Delivery::Stored);
    assert_eq!(m.receive(b, 0, 16384, &data[16384..32768], &mut suspects), Delivery::Verified);
    assert_eq!(m.pieces.inner[0].state(), PieceState::Verified);
    assert_eq!(m.receive(b, 0, 0, &data[..16384], &mut suspects), Delivery::Duplicate);
    assert_eq!(m.receive(b, 2, 0, &data[..16384], &mut suspects), Delivery::Refused);
    assert_eq!(m.receive(b, 1, 0, &data[32768..], &mut suspects), Delivery::Verified);
}

#[test]
fn requests_without_answer_are_given_up() {
    let mut m = DataManager::new(single(3 * 32768)).unwrap();
    assert_eq!(m.bitfield(peer(1), bits("110")), Ok(()));
    assert_eq!(m.bitfield(peer(2), bits("011")), Ok(()));
    assert!(m.next_request(peer(1), 100).is_some());
    assert!(m.next_request(peer(2), 110).is_some());
    assert!(m.next_request(peer(1), 120).is_some());
    assert_eq!(
        m.pieces.inner[0].written,
        vec![
            Block::Requested { peer: peer(1), since: 100 },
            Block::Requested { peer: peer(1), since: 120 }
        ]
    );
    assert!(m.pieces.busy(peer(1), 2));
    assert!(!m.pieces.busy(peer(1), 3));
    assert_eq!(REQUEST_TIMEOUT, 30);
    assert_eq!(m.pieces.expire(129, REQUEST_TIMEOUT), vec![]);
    assert_eq!(m.pieces.expire(130, REQUEST_TIMEOUT), vec![(peer(1), 0, 0)]);
    assert_eq!(
        m.pieces.inner[0].written,
        vec![Block::Empty, Block::Requested { peer: peer(1), since: 120 }]
    );
    assert_eq!(
        m.pieces.expire(150, REQUEST_TIMEOUT),
        vec![(peer(1), 0, 16384), (peer(2), 2, 0)]
    );
    assert_eq!(m.pieces.inner[0].state(), PieceState::Missing);
    assert!(!m.pieces.busy(peer(1), 1));
    assert_eq!(
        m.pieces.cancel(0, 16384),
        Some(Message::Cancel { index: 0, begin: 16384, length: 16384 })
    );
    assert_eq!(m.pieces.cancel(3, 0), None);
    assert_eq!(m.pieces.cancel(0, 1), None);
    assert_eq!(m.pieces.cancel(0, 32768), None);
    let w = PiecesWrapper::new(single(90_000)).unwrap();
    assert_eq!(
        w.cancel(2, 16384),
        Some(Message::Cancel { index: 2, begin: 16384, length: 8080 })
    );
}

#[test]
fn test_map_piece_to_file() {
    let files = vec![
        File { length: 50_000, md5sum: None, path: vec!["a".to_string()] },
        File { length: 0, md5sum: None, path: vec!["empty".to_string()] },
        File { length: 20_000, md5sum: None, path: vec!["d".to_string(), "b".to_string()] },
        File { length: 30_000, md5sum: None, path: vec!["c".to_string()] },
    ];
    let mode = Mode::Multi { dir_name: "music".to_string(), files, md5sum: None };
    let data = content(100_000);
    let mut w = PiecesWrapper::new(info(32768, mode, 100_000)).unwrap();
    for index in 0..4 {
        let piece_offset = 32768 * index;
        let file = w.layout.locate(piece_offset as u64).unwrap();
        let total = w.layout.entries[file].offset;
        assert!(total <= piece_offset as u64);
        assert!((piece_offset as u64) < total + w.layout.entries[file].length);
    }
    // Piece 1 lies across the first and the third file.
    assert_eq!(w.write(1, 0, &data[32768..49152], peer(1)), Ok(false));
    assert_eq!(w.write(1, 16384, &data[49152..65536], peer(1)), Ok(true));
    assert_eq!(
        w.flush_piece(1),
        Ok(vec![
            Span { file: 0, offset: 32768, begin: 0, len: 17232 },
            Span { file: 2, offset: 0, begin: 17232, len: 15536 },
        ])
    );
    assert_eq!(w.write(3, 0, &data[98304..], peer(1)), Ok(true));
    assert_eq!(
        w.flush_piece(3),
        Ok(vec![Span { file: 3, offset: 28304, begin: 0, len: 1696 }])
    );
}

#[test]
fn word_bitsets() {
    let mut a = ByteWrapper::zeroed(2);
    assert_eq!(a.0, vec![0, 0]);
    a.set(0);
    a.set(65);
    a.set(65);
    assert_eq!(a.0, vec![1, 2]);
    assert!(a.get(0) && a.get(65) && !a.get(1) && !a.get(64));
    let mut b = ByteWrapper::zeroed(2);
    b.set(0);
    b.set(127);
    assert_eq!(a.bitxor(&b).0, vec![0, 2 | 1 << 63]);
    a.bitand_assign(&b);
    assert_eq!(a.0, vec![1, 0]);
    assert_eq!(ByteWrapper::new().0, Vec::<u64>::new());

    let lazy = BitField::from_indices(vec![3, 0, 70, 200, 3], 100);
    assert_eq!(lazy.len(), 100);
    for i in 0..100 {
        assert_eq!(lazy.get(i), i == 0 || i == 3 || i == 70);
    }
    let all = BitField::new(vec![u64::MAX, 0]);
    assert_eq!(all.len(), 128);
    assert!(all.get(63) && !all.get(64));
    let x = bits("1100").bitxor(&bits("1010"));
    assert_eq!((x.get(0), x.get(1), x.get(2), x.get(3)), (false, true, true, false));
    let mut y = bits("1100");
    y.bitand_assign(&bits("1010"));
    assert_eq!((y.get(0), y.get(1), y.get(2), y.get(3)), (true, false, false, false));
    let e = BitField::empty(3);
    assert!(!e.get(0) && !e.get(2));
}

#[test]
fn a_fresh_piece_is_missing() {
    let p = Piece::new(3);
    assert_eq!(p.written, vec![Block::Empty; 3]);
    assert!(!p.complete());
    assert_eq!(p.state(), PieceState::Missing);
    assert_eq!(p.first_empty(), Some(0));
    assert_eq!(p.asked_of(peer(1), 4), 0);
}

#[test]
fn invalid_torrents_get_no_pieces() {
    let mut i = single(90_000);
    i.pieces.pop();
    assert!(PiecesWrapper::new(i).is_none());
    let mut i = single(90_000);
    i.piece_length = 1 << 33;
    i.pieces.truncate(1);
    assert!(i.check());
    assert!(DataManager::new(i).is_none());
}

#[test]
fn the_pipeline_depth_is_a_parameter() {
    let mut m = DataManager::new(single(4 * 32768)).unwrap();
    let a = peer(1);
    assert_eq!(m.bitfield(a, bits("1111")), Ok(()));
    assert_eq!(m.request_within(a, 5, 0), None);
    assert_eq!(
        m.request_within(a, 5, 1),
        Some(Message::Request { index: 0, begin: 0, length: 16384 })
    );
    assert_eq!(m.request_within(a, 5, 1), None);
    assert_eq!(
        m.request_within(a, 5, 6),
        Some(Message::Request { index: 0, begin: 16384, length: 16384 })
    );
    for _ in 0..4 {
        assert!(m.request_within(a, 5, 6).is_some());
    }
    assert_eq!(m.request_within(a, 5, 6), None);
    assert!(m.request_within(a, 5, 7).is_some());
}

#[test]
fn messages_of_peers_reach_the_pieces() {
    let mut m = DataManager::new(single(2 * 32768)).unwrap();
    let mut s = Suspects::new();
    let a = peer(1);
    assert!(!m.wants(a));
    // A bitfield of the wrong length, or with a spare bit, closes.
    assert_eq!(m.on_message(a, &Message::BitField(vec![0x80, 0]), &mut s), Reaction::Close);
    assert_eq!(m.on_message(a, &Message::BitField(vec![0x20]), &mut s), Reaction::Close);
    assert_eq!(m.availability, vec![0, 0]);
    assert_eq!(m.on_message(a, &Message::BitField(vec![0x40]), &mut s), Reaction::Proceed);
    assert_eq!(m.availability, vec![0, 1]);
    assert!(m.wants(a));
    assert_eq!(m.on_message(a, &Message::Have(2), &mut s), Reaction::Close);
    assert_eq!(m.on_message(a, &Message::Have(0), &mut s), Reaction::Proceed);
    assert_eq!(m.availability, vec![1, 1]);
    // Messages that are not for the pieces change nothing.
    let before = m.availability.clone();
    for other in [Message::Choke, Message::KeepAlive, Message::Port(1), Message::Interested] {
        assert_eq!(m.on_message(a, &other, &mut s), Reaction::Proceed);
    }
    assert_eq!(m.availability, before);
    // Blocks go where `receive` puts them.
    let data = content(2 * 32768);
    let block = |index: u32, begin: u32| Message::Piece {
        index,
        begin,
        block: data[(index * 32768 + begin) as usize..][..16384].to_vec(),
    };
    assert!(!m.pieces.finished());
    assert_eq!(m.on_message(a, &block(0, 0), &mut s), Reaction::Block(Delivery::Stored));
    assert_eq!(m.on_message(a, &block(0, 16384), &mut s), Reaction::Block(Delivery::Verified));
    assert_eq!(m.on_message(a, &block(0, 0), &mut s), Reaction::Block(Delivery::Duplicate));
    assert_eq!(m.on_message(a, &block(0, 1), &mut s), Reaction::Block(Delivery::Refused));
    let wrong = Message::Piece { index: 1, begin: 0, block: vec![1; 16384] };
    assert_eq!(m.on_message(a, &wrong, &mut s), Reaction::Block(Delivery::Stored));
    assert_eq!(
        m.on_message(a, &block(1, 16384), &mut s),
        Reaction::Block(Delivery::Failed(vec![]))
    );
    assert_eq!(m.on_message(a, &wrong, &mut s), Reaction::Block(Delivery::Stored));
    assert_eq!(
        m.on_message(a, &block(1, 16384), &mut s),
        Reaction::Block(Delivery::Failed(vec![a]))
    );
    // The download is done when every piece is on disk.
    assert_eq!(m.on_message(a, &block(1, 0), &mut s), Reaction::Block(Delivery::Stored));
    assert_eq!(m.on_message(a, &block(1, 16384), &mut s), Reaction::Block(Delivery::Verified));
    assert!(m.pieces.flush_piece(0).is_ok());
    assert_eq!(m.pieces.mark_flushed(0), Ok(Message::Have(0)));
    assert!(!m.pieces.finished());
    assert!(m.pieces.flush_piece(1).is_ok());
    assert_eq!(m.pieces.mark_flushed(1), Ok(Message::Have(1)));
    assert!(m.pieces.finished());
    assert!(!m.wants(a));
}

#[test]
fn a_whole_piece_with_wrong_bytes_fails_its_hash() {
    let mut w = PiecesWrapper::new(single(40_000)).unwrap();
    assert_eq!(w.write(1, 0, &[3u8; 7232], peer(1)), Ok(true));
    assert_eq!(w.inner[1].state(), PieceState::Complete);
    assert_eq!(w.verify_piece(1), Err(GeneralError::InvalidPieceHash));
    assert_eq!(w.inner[1].state(), PieceState::Missing);
    assert!(w.inner[1].inner.is_none());
    assert_eq!(w.inner[1].written, vec![Block::Empty]);
    assert_eq!(w.flush_piece(1), Err(GeneralError::AlreadyFlushed));
}

#[test]
fn a_lazy_field_is_counted_in_words() {
    // One word has a bit for each of 64 numbers.
    let one = BitField::from_lazy(vec![5], 1);
    assert_eq!(one.words.0, vec![1u64 << 5]);
    assert_eq!(one.len(), 64);
    assert!(one.get(5) && !one.get(4) && !one.get(63));
    // Order and repetition do not matter; a number without a bit is passed
    // over.
    let a = BitField::from_lazy(vec![3, 0, 70, 200, 3], 2);
    let b = BitField::from_lazy(vec![70, 3, 0], 2);
    assert_eq!(a, b);
    assert_eq!(a.words.0, vec![1 | 1 << 3, 1 << 6]);
    assert_eq!(a.words.0.iter().map(|w| w.count_ones()).sum::<u32>(), 3);
    assert_eq!(a.len(), 128);
    // Nothing listed: words of zero.
    assert_eq!(BitField::from_lazy(vec![], 3).words.0, vec![0, 0, 0]);
    assert_eq!(BitField::from_lazy(vec![1], 0).words.0, Vec::<u64>::new());
    // By the number of pieces, the field ends with the last piece.
    let c = BitField::from_indices(vec![5, 64], 65);
    assert_eq!(c.len(), 65);
    assert_eq!(c.words.0, vec![1 << 5, 1]);
    assert_eq!(BitField::from_indices(vec![5], 1).words.0, vec![0]);
}
