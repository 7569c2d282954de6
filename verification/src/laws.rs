//! What holds across the modules of the crate.

use vstd::prelude::*;
use vstd::string::StringSliceAdditionalSpecFns;
use crate::bencode::{Bencode, DecodeError, METAINFO_DEPTH, depth_of, entries_depth, entries_representable, find_entry, items_depth, items_representable, lookup, parse, parse_bytes, parse_entries, parse_items, parse_value, representable, serialize};
use crate::bencode::laws::{lemma_find_entry, lemma_parse_entries_bounds, lemma_parse_value, lemma_parse_value_bounds, lemma_serialize_parsed};
use crate::data::{InfoModel, TorrentInfo, TorrentModel};
use crate::fs::{Layout, Span, written};
use crate::hash::sha1;
use crate::metainfo::{raw_info, torrent_model};
use crate::piece_manager::{PieceState, PiecesWrapper, lemma_last_piece, piece_size};
use crate::piece_manager::manager::{DataManager, holders};
use crate::pwp::{HandshakeModel, handshake_bytes};
use crate::data::PROTOCOL_ID;
use crate::udp::{RequestModel, lemma_announce_hash, request_bytes};
use crate::wire::{be32, be_i32, be_i64, lemma_be32_bytes, lemma_be64_bytes, lemma_twos_complement, twos32, twos64};

verus! {

/// The info-hash of a torrent file is the SHA-1 of the very bytes of its
/// `info` dictionary, which decode on their own to that dictionary; and it is
/// this hash that goes on the wire, in the handshake with a peer and in the
/// announce to a UDP tracker.
pub proof fn lemma_info_hash_on_the_wire(
    bytes: Seq<u8>,
    t: TorrentInfo,
    reserved: Seq<u8>,
    peer_id: Seq<u8>,
    announce: RequestModel,
)
    requires
        torrent_model(bytes) == Ok::<TorrentModel, DecodeError>(t@),
        reserved.len() == 8,
        announce is Announce,
        announce->Announce_info_hash == t.hash@,
    ensures
        t.hash@ == sha1(raw_info(bytes)),
        t@.info is Some && t@.info->Some_0.value == sha1(raw_info(bytes)),
        ({
            let whole = parse(bytes, METAINFO_DEPTH as nat)->Ok_0;
            let info = lookup(whole->Dict_0, "info".spec_bytes())->Some_0;
            parse(raw_info(bytes), (METAINFO_DEPTH - 1) as nat) == Ok::<Bencode, DecodeError>(info)
        }),
        handshake_bytes(HandshakeModel { reserved, hash: t.hash@, peer_id }).subrange(28, 48)
            == sha1(raw_info(bytes)),
        request_bytes(announce).subrange(16, 36) == sha1(raw_info(bytes)),
{
    let depth = (METAINFO_DEPTH - 1) as nat;
    let body = bytes.skip(1);
    assert(parse_entries(body, depth) is Ok);
    lemma_find_entry(body, "info".spec_bytes(), depth);
    let (a, m) = find_entry(body, "info".spec_bytes(), depth)->Some_0;
    lemma_parse_entries_bounds(body, depth);
    assert(body.skip(a) =~= bytes.skip(1 + a));
    let raw = raw_info(bytes);
    assert(raw =~= bytes.skip(1 + a).take(m));
    lemma_parse_prefix(bytes.skip(1 + a), depth, m);
    let h = handshake_bytes(HandshakeModel { reserved, hash: t.hash@, peer_id });
    assert(h.subrange(28, 48) =~= t.hash@);
    lemma_announce_hash(announce);
}

/// What a value was read from does not depend on what follows it: its own
/// bytes, taken alone, read as the same value and nothing more.
pub proof fn lemma_parse_prefix(s: Seq<u8>, depth: nat, n: int)
    requires
        parse_value(s, depth) is Ok,
        n == parse_value(s, depth)->Ok_0.1,
    ensures
        0 < n <= s.len(),
        parse(s.take(n), depth) == Ok::<Bencode, DecodeError>(parse_value(s, depth)->Ok_0.0),
{
    lemma_parse_value_bounds(s, depth);
    lemma_serialize_parsed(s, depth);
    let v = parse_value(s, depth)->Ok_0.0;
    lemma_parsed_fits(s, depth);
    lemma_parse_value(v, Seq::empty(), depth);
    assert(serialize(v) + Seq::<u8>::empty() =~= s.take(n));
}

/// What was read is a value that can be held, within the depth allowed.
pub proof fn lemma_parsed_fits(s: Seq<u8>, depth: nat)
    requires
        parse_value(s, depth) is Ok,
    ensures
        representable(parse_value(s, depth)->Ok_0.0),
        depth_of(parse_value(s, depth)->Ok_0.0) <= depth,
    decreases s.len(), 0nat,
{
    lemma_parse_value_bounds(s, depth);
    if s[0] == 108 {
        lemma_parsed_items_fit(s.skip(1), (depth - 1) as nat);
    } else if s[0] == 100 {
        lemma_parsed_entries_fit(s.skip(1), (depth - 1) as nat);
    }
}

/// The items of a list that was read are representable and no deeper than
/// the limit.
pub proof fn lemma_parsed_items_fit(s: Seq<u8>, depth: nat)
    requires
        parse_items(s, depth) is Ok,
    ensures
        items_representable(parse_items(s, depth)->Ok_0.0),
        items_depth(parse_items(s, depth)->Ok_0.0) <= depth,
    decreases s.len(), 1nat,
{
    let l = parse_items(s, depth)->Ok_0.0;
    if s[0] != 101 {
        let (v, n) = parse_value(s, depth)->Ok_0;
        lemma_parse_value_bounds(s, depth);
        lemma_parsed_fits(s, depth);
        lemma_parsed_items_fit(s.skip(n), depth);
        let rest = parse_items(s.skip(n), depth)->Ok_0.0;
        assert(l[0] == v);
        assert(l.drop_first() =~= rest);
    }
}

/// The values of a dictionary that was read are representable and no
/// deeper than the limit.
pub proof fn lemma_parsed_entries_fit(s: Seq<u8>, depth: nat)
    requires
        parse_entries(s, depth) is Ok,
    ensures
        entries_representable(parse_entries(s, depth)->Ok_0.0),
        entries_depth(parse_entries(s, depth)->Ok_0.0) <= depth,
    decreases s.len(), 1nat,
{
    let d = parse_entries(s, depth)->Ok_0.0;
    if s[0] != 101 {
        let (key, n) = parse_bytes(s)->Ok_0;
        let (v, m) = parse_value(s.skip(n), depth)->Ok_0;
        lemma_parse_value_bounds(s.skip(n), depth);
        lemma_parsed_fits(s.skip(n), depth);
        lemma_parsed_entries_fit(s.skip(n + m), depth);
        let rest = parse_entries(s.skip(n + m), depth)->Ok_0.0;
        assert(d[0] == (key, v));
        assert(d.drop_first() =~= rest);
    }
}

/// The files of a valid torrent with content add up to the pieces before
/// the last and the last piece, which is not empty and no longer than the
/// others.
pub proof fn lemma_pieces_cover_content(info: InfoModel)
    requires
        info.valid(),
        info.mode.total_length() > 0,
    ensures
        info.pieces.len() >= 1,
        ({
            let last = piece_size(
                info.mode.total_length(),
                info.piece_length as int,
                info.pieces.len() - 1,
            );
            &&& info.mode.total_length() == info.piece_length * (info.pieces.len() - 1) + last
            &&& 0 < last <= info.piece_length
        }),
{
    lemma_last_piece(info.mode.total_length(), info.piece_length as int);
}

/// Whatever came before, the availability of a piece is the number of peers
/// whose bitfield has the bit of the piece set.
pub proof fn lemma_availability_counts_peers(m: DataManager, i: int)
    requires
        m.wf(),
        0 <= i < m.count(),
    ensures
        m.availability@[i] == holders(m.bitfield_map@, i).len(),
{
    assert(m.counted(i));
}

/// The bytes of a piece that counts as verified, or as flushed, have the
/// SHA-1 that the torrent names for the piece.
pub proof fn lemma_verified_has_hash(w: PiecesWrapper, i: int)
    requires
        w.wf(),
        0 <= i < w.inner@.len(),
        w.inner@[i]@.state() == PieceState::Verified || w.inner@[i]@.state()
            == PieceState::Flushed,
    ensures
        w.inner@[i]@.bytes is Some,
        sha1(w.inner@[i]@.bytes->Some_0) == w.hashes@[i]@,
{
    assert(w.piece_ok(i));
}

/// Once the writes that `flush_piece` plans for a piece were made, the
/// files hold the bytes of the piece in order, where the content has them.
pub proof fn lemma_flushed_bytes_on_disk(
    layout: Layout,
    disk: Seq<Seq<u8>>,
    offset: int,
    spans: Seq<Span>,
    bytes: Seq<u8>,
)
    requires
        layout.wf(),
        layout.laid_out(disk),
        0 <= offset,
        layout.cuts(offset, bytes.len() as int, spans),
    ensures
        forall|p: int, i: int|
            0 <= p < bytes.len() && #[trigger] layout.holds(i, offset + p) ==> written(
                disk,
                spans,
                bytes,
                spans.len() as int,
            )[i][offset + p - layout.entries@[i].offset] == bytes[p],
{
    layout.lemma_written_in_order(disk, offset, spans, bytes, spans.len() as int);
    assert(spans.take(spans.len() as int) =~= spans);
}

/// A connect request is the protocol's number in eight bytes, four zero
/// bytes for the action, and the transaction id, each most significant
/// byte first.
pub proof fn lemma_connect_request_bytes(tid: i32)
    ensures
        request_bytes(RequestModel::Connect { cid: PROTOCOL_ID, tid }) == seq![
            0x00u8,
            0x00u8,
            0x04u8,
            0x17u8,
            0x27u8,
            0x10u8,
            0x19u8,
            0x80u8,
        ] + seq![0u8, 0u8, 0u8, 0u8] + be32(twos32(tid)),
        tid == -559038737 ==> be32(twos32(tid)) == seq![0xdeu8, 0xadu8, 0xbeu8, 0xefu8],
{
    lemma_twos_complement(0, PROTOCOL_ID, 0, 0);
    lemma_twos_complement(tid, 0, 0, 0);
    lemma_be64_bytes(twos64(PROTOCOL_ID));
    lemma_be32_bytes(0x417u32);
    lemma_be32_bytes(0x2710_1980u32);
    lemma_be32_bytes(0u32);
    lemma_be32_bytes(twos32(tid));
    assert(be_i64(PROTOCOL_ID) =~= seq![
        0x00u8,
        0x00u8,
        0x04u8,
        0x17u8,
        0x27u8,
        0x10u8,
        0x19u8,
        0x80u8,
    ]);
    assert(be_i32(0) =~= seq![0u8, 0u8, 0u8, 0u8]);
}

} // verus!
