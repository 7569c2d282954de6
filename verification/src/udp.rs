//! Packets of the UDP tracker protocol, big-endian and unpadded.

use vstd::prelude::*;
use vstd::slice::slice_subrange;
use vstd::utf8::{decode_utf8, encode_utf8, encode_utf8_decode_utf8, encode_utf8_valid_utf8, valid_utf8};
use crate::data::{Endpoint, Event};
use crate::helpers::range_to_array;
use crate::metainfo::chunks20;
use crate::text::string_from_utf8;
use crate::wire::{be16, be32, be64, be_i32, be_i64, copy_range, from_be16, from_be32, from_be64, from_be_i32, from_be_i64, lemma_be16_round_trip, lemma_be32_round_trip, lemma_be64_round_trip, lemma_be_i32_round_trip, lemma_be_i64_round_trip, lemma_from_be16_prefix, lemma_from_be32_prefix, push_bytes, push_i32, push_i64, push_u16, push_u32, push_u64, read_i32, read_i64, read_u16, read_u32, read_u64};

verus! {

/// The action of a connect packet.
pub const ACTION_CONNECT: i32 = 0;

/// The action of an announce packet.
pub const ACTION_ANNOUNCE: i32 = 1;

/// The action of a scrape packet.
pub const ACTION_SCRAPE: i32 = 2;

/// The action of an error packet.
pub const ACTION_ERROR: i32 = 3;

/// Why a packet could not be read.
#[derive(Clone, Copy, Debug, PartialEq, Eq, Structural)]
pub enum PacketError {
    /// The packet is shorter than its kind requires.
    Truncated,
    /// The action is none of connect, announce, scrape and error.
    UnknownAction,
    /// The event of an announce is none of the four.
    UnknownEvent,
    /// The message of an error is not UTF-8.
    InvalidText,
}

/// Counts for one torrent in a scrape over UDP.
#[derive(Clone, Copy, Debug, PartialEq, Eq, Structural)]
pub struct Status {
    pub complete: i32,
    pub downloaded: i32,
    pub incomplete: i32,
}

/// What we send to a UDP tracker.
#[derive(Clone, Debug, PartialEq, Eq)]
pub enum Request {
    Connect { cid: i64, tid: i32 },
    Announce {
        cid: i64,
        tid: i32,
        info_hash: [u8; 20],
        peer_id: [u8; 20],
        downloaded: u64,
        left: u64,
        uploaded: u64,
        event: Event,
        ip: u32,
        key: u32,
        num_want: i32,
        port: u16,
    },
    Scrape { cid: i64, tid: i32, hashes: Vec<[u8; 20]> },
}

/// A request, as plain values.
pub enum RequestModel {
    Connect { cid: i64, tid: i32 },
    Announce {
        cid: i64,
        tid: i32,
        info_hash: Seq<u8>,
        peer_id: Seq<u8>,
        downloaded: u64,
        left: u64,
        uploaded: u64,
        event: Event,
        ip: u32,
        key: u32,
        num_want: i32,
        port: u16,
    },
    Scrape { cid: i64, tid: i32, hashes: Seq<Seq<u8>> },
}

/// Each hash as its bytes.
pub open spec fn hash_list_view(v: Seq<[u8; 20]>) -> Seq<Seq<u8>> {
    Seq::new(v.len(), |i: int| v[i]@)
}

impl View for Request {
    type V = RequestModel;

    open spec fn view(&self) -> RequestModel {
        match self {
            Request::Connect { cid, tid } => RequestModel::Connect { cid: *cid, tid: *tid },
            Request::Announce {
                cid,
                tid,
                info_hash,
                peer_id,
                downloaded,
                left,
                uploaded,
                event,
                ip,
                key,
                num_want,
                port,
            } => RequestModel::Announce {
                cid: *cid,
                tid: *tid,
                info_hash: info_hash@,
                peer_id: peer_id@,
                downloaded: *downloaded,
                left: *left,
                uploaded: *uploaded,
                event: *event,
                ip: *ip,
                key: *key,
                num_want: *num_want,
                port: *port,
            },
            Request::Scrape { cid, tid, hashes } => RequestModel::Scrape {
                cid: *cid,
                tid: *tid,
                hashes: hash_list_view(hashes@),
            },
        }
    }
}

/// The hashes of a list, one after the other.
pub open spec fn concat_hashes(h: Seq<Seq<u8>>) -> Seq<u8>
    decreases h.len(),
{
    if h.len() == 0 {
        Seq::empty()
    } else {
        concat_hashes(h.drop_last()) + h.last()
    }
}

impl RequestModel {
    /// Every hash has 20 bytes.
    pub open spec fn wf(self) -> bool {
        match self {
            RequestModel::Connect { .. } => true,
            RequestModel::Announce { info_hash, peer_id, .. } => info_hash.len() == 20
                && peer_id.len() == 20,
            RequestModel::Scrape { hashes, .. } => forall|i: int|
                0 <= i < hashes.len() ==> (#[trigger] hashes[i]).len() == 20,
        }
    }
}

/// The packet of a request.
pub open spec fn request_bytes(r: RequestModel) -> Seq<u8> {
    match r {
        RequestModel::Connect { cid, tid } => be_i64(cid) + be_i32(ACTION_CONNECT) + be_i32(tid),
        RequestModel::Announce {
            cid,
            tid,
            info_hash,
            peer_id,
            downloaded,
            left,
            uploaded,
            event,
            ip,
            key,
            num_want,
            port,
        } => be_i64(cid) + be_i32(ACTION_ANNOUNCE) + be_i32(tid) + info_hash + peer_id + be64(
            downloaded,
        ) + be64(left) + be64(uploaded) + be_i32(event.code()) + be32(ip) + be32(key) + be_i32(
            num_want,
        ) + be16(port),
        RequestModel::Scrape { cid, tid, hashes } => be_i64(cid) + be_i32(ACTION_SCRAPE) + be_i32(
            tid,
        ) + concat_hashes(hashes),
    }
}

/// The event that a number in a packet stands for.
pub open spec fn event_of(code: i32) -> Option<Event> {
    if code == 0 {
        Some(Event::Inactive)
    } else if code == 1 {
        Some(Event::Completed)
    } else if code == 2 {
        Some(Event::Started)
    } else if code == 3 {
        Some(Event::Stopped)
    } else {
        None
    }
}

/// What a request packet says. Bytes behind a connect or an announce, and
/// behind the last whole hash of a scrape, are ignored.
pub open spec fn request_value(s: Seq<u8>) -> Result<RequestModel, PacketError> {
    if s.len() < 16 {
        Err(PacketError::Truncated)
    } else {
        let cid = from_be_i64(s);
        let action = from_be_i32(s.skip(8));
        let tid = from_be_i32(s.skip(12));
        if action == ACTION_CONNECT {
            Ok(RequestModel::Connect { cid, tid })
        } else if action == ACTION_ANNOUNCE {
            if s.len() < 98 {
                Err(PacketError::Truncated)
            } else {
                match event_of(from_be_i32(s.skip(80))) {
                    None => Err(PacketError::UnknownEvent),
                    Some(event) => Ok(
                        RequestModel::Announce {
                            cid,
                            tid,
                            info_hash: s.subrange(16, 36),
                            peer_id: s.subrange(36, 56),
                            downloaded: from_be64(s.skip(56)),
                            left: from_be64(s.skip(64)),
                            uploaded: from_be64(s.skip(72)),
                            event,
                            ip: from_be32(s.skip(84)),
                            key: from_be32(s.skip(88)),
                            num_want: from_be_i32(s.skip(92)),
                            port: from_be16(s.skip(96)),
                        },
                    ),
                }
            }
        } else if action == ACTION_SCRAPE {
            Ok(RequestModel::Scrape { cid, tid, hashes: chunks20(s.skip(16)) })
        } else {
            Err(PacketError::UnknownAction)
        }
    }
}

/// What a UDP tracker answers.
#[derive(Clone, Debug, PartialEq, Eq)]
pub enum Response {
    Connect { tid: i32, cid: i64 },
    Announce { tid: i32, interval: i32, leechers: i32, seeders: i32, peers: Vec<Endpoint> },
    Scrape { tid: i32, hashes: Vec<Status> },
    Error { tid: i32, error: String },
}

/// A response, as plain values.
pub enum ResponseModel {
    Connect { tid: i32, cid: i64 },
    Announce { tid: i32, interval: i32, leechers: i32, seeders: i32, peers: Seq<Endpoint> },
    Scrape { tid: i32, hashes: Seq<Status> },
    Error { tid: i32, error: Seq<char> },
}

impl View for Response {
    type V = ResponseModel;

    open spec fn view(&self) -> ResponseModel {
        match self {
            Response::Connect { tid, cid } => ResponseModel::Connect { tid: *tid, cid: *cid },
            Response::Announce { tid, interval, leechers, seeders, peers } => {
                ResponseModel::Announce {
                    tid: *tid,
                    interval: *interval,
                    leechers: *leechers,
                    seeders: *seeders,
                    peers: peers@,
                }
            },
            Response::Scrape { tid, hashes } => ResponseModel::Scrape {
                tid: *tid,
                hashes: hashes@,
            },
            Response::Error { tid, error } => ResponseModel::Error { tid: *tid, error: error@ },
        }
    }
}

/// The six bytes of a peer: address, then port.
pub open spec fn endpoint_bytes(e: Endpoint) -> Seq<u8> {
    be32(e.ip) + be16(e.port)
}

/// The peer that the six bytes at the start of `s` name.
pub open spec fn endpoint_at(s: Seq<u8>) -> Endpoint {
    Endpoint { ip: from_be32(s), port: from_be16(s.skip(4)) }
}

/// The peers of a compact list, six bytes each.
pub open spec fn compact_bytes(peers: Seq<Endpoint>) -> Seq<u8>
    decreases peers.len(),
{
    if peers.len() == 0 {
        Seq::empty()
    } else {
        compact_bytes(peers.drop_last()) + endpoint_bytes(peers.last())
    }
}

/// The peers that a compact list names; a last entry cut short is ignored.
pub open spec fn compact_peers(s: Seq<u8>) -> Seq<Endpoint> {
    Seq::new(s.len() / 6, |i: int| endpoint_at(s.skip(6 * i)))
}

/// The counts of one torrent, twelve bytes.
pub open spec fn status_bytes(st: Status) -> Seq<u8> {
    be_i32(st.complete) + be_i32(st.downloaded) + be_i32(st.incomplete)
}

/// The counts that the twelve bytes at the start of `s` spell.
pub open spec fn status_at(s: Seq<u8>) -> Status {
    Status {
        complete: from_be_i32(s),
        downloaded: from_be_i32(s.skip(4)),
        incomplete: from_be_i32(s.skip(8)),
    }
}

/// The counts of each torrent, twelve bytes each.
pub open spec fn statuses_bytes(v: Seq<Status>) -> Seq<u8>
    decreases v.len(),
{
    if v.len() == 0 {
        Seq::empty()
    } else {
        statuses_bytes(v.drop_last()) + status_bytes(v.last())
    }
}

/// The counts that a scrape response holds; a last entry cut short is
/// ignored.
pub open spec fn statuses_at(s: Seq<u8>) -> Seq<Status> {
    Seq::new(s.len() / 12, |i: int| status_at(s.skip(12 * i)))
}

/// The packet of a response.
pub open spec fn response_bytes(r: ResponseModel) -> Seq<u8> {
    match r {
        ResponseModel::Connect { tid, cid } => be_i32(ACTION_CONNECT) + be_i32(tid) + be_i64(cid),
        ResponseModel::Announce { tid, interval, leechers, seeders, peers } => be_i32(
            ACTION_ANNOUNCE,
        ) + be_i32(tid) + be_i32(interval) + be_i32(leechers) + be_i32(seeders) + compact_bytes(
            peers,
        ),
        ResponseModel::Scrape { tid, hashes } => be_i32(ACTION_SCRAPE) + be_i32(tid)
            + statuses_bytes(hashes),
        ResponseModel::Error { tid, error } => be_i32(ACTION_ERROR) + be_i32(tid) + encode_utf8(
            error,
        ),
    }
}

/// What a response packet says.
pub open spec fn response_value(s: Seq<u8>) -> Result<ResponseModel, PacketError> {
    if s.len() < 8 {
        Err(PacketError::Truncated)
    } else {
        let action = from_be_i32(s);
        let tid = from_be_i32(s.skip(4));
        if action == ACTION_CONNECT {
            if s.len() < 16 {
                Err(PacketError::Truncated)
            } else {
                Ok(ResponseModel::Connect { tid, cid: from_be_i64(s.skip(8)) })
            }
        } else if action == ACTION_ANNOUNCE {
            if s.len() < 20 {
                Err(PacketError::Truncated)
            } else {
                Ok(
                    ResponseModel::Announce {
                        tid,
                        interval: from_be_i32(s.skip(8)),
                        leechers: from_be_i32(s.skip(12)),
                        seeders: from_be_i32(s.skip(16)),
                        peers: compact_peers(s.skip(20)),
                    },
                )
            }
        } else if action == ACTION_SCRAPE {
            Ok(ResponseModel::Scrape { tid, hashes: statuses_at(s.skip(8)) })
        } else if action == ACTION_ERROR {
            if valid_utf8(s.skip(8)) {
                Ok(ResponseModel::Error { tid, error: decode_utf8(s.skip(8)) })
            } else {
                Err(PacketError::InvalidText)
            }
        } else {
            Err(PacketError::UnknownAction)
        }
    }
}

/// Reads the peers of a compact list that starts at `bytes[from]`.
pub fn read_compact_peers(bytes: &[u8], from: usize) -> (r: Vec<Endpoint>)
    requires
        from <= bytes@.len(),
    ensures
        r@ == compact_peers(bytes@.skip(from as int)),
{
    let len: usize = bytes.len();
    let count: usize = (len - from) / 6;
    let ghost s = bytes@.skip(from as int);
    let mut out: Vec<Endpoint> = Vec::new();
    let mut i: usize = 0;
    while i < count
        invariant
            i <= count,
            from <= len == bytes@.len(),
            count == (len - from) / 6,
            s == bytes@.skip(from as int),
            out@.len() == i,
            forall|j: int| 0 <= j < i ==> out@[j] == endpoint_at(s.skip(6 * j)),
        decreases count - i,
    {
        let at: usize = from + 6 * i;
        let ip: u32 = read_u32(bytes, at);
        let port: u16 = read_u16(bytes, at + 4);
        proof {
            assert(s.skip(6 * i) =~= bytes@.skip(at as int));
            assert(s.skip(6 * i).skip(4) =~= bytes@.skip(at + 4));
        }
        out.push(Endpoint { ip, port });
        i += 1;
    }
    proof {
        assert(out@ =~= compact_peers(s));
    }
    out
}

fn read_statuses(bytes: &[u8], from: usize) -> (r: Vec<Status>)
    requires
        from <= bytes@.len(),
    ensures
        r@ == statuses_at(bytes@.skip(from as int)),
{
    let len: usize = bytes.len();
    let count: usize = (len - from) / 12;
    let ghost s = bytes@.skip(from as int);
    let mut out: Vec<Status> = Vec::new();
    let mut i: usize = 0;
    while i < count
        invariant
            i <= count,
            from <= len == bytes@.len(),
            count == (len - from) / 12,
            s == bytes@.skip(from as int),
            out@.len() == i,
            forall|j: int| 0 <= j < i ==> out@[j] == status_at(s.skip(12 * j)),
        decreases count - i,
    {
        let at: usize = from + 12 * i;
        let complete: i32 = read_i32(bytes, at);
        let downloaded: i32 = read_i32(bytes, at + 4);
        let incomplete: i32 = read_i32(bytes, at + 8);
        proof {
            assert(s.skip(12 * i) =~= bytes@.skip(at as int));
            assert(s.skip(12 * i).skip(4) =~= bytes@.skip(at + 4));
            assert(s.skip(12 * i).skip(8) =~= bytes@.skip(at + 8));
        }
        out.push(Status { complete, downloaded, incomplete });
        i += 1;
    }
    proof {
        assert(out@ =~= statuses_at(s));
    }
    out
}

fn read_hashes(bytes: &[u8], from: usize) -> (r: Vec<[u8; 20]>)
    requires
        from <= bytes@.len(),
    ensures
        hash_list_view(r@) == chunks20(bytes@.skip(from as int)),
{
    let len: usize = bytes.len();
    let count: usize = (len - from) / 20;
    let ghost s = bytes@.skip(from as int);
    let mut out: Vec<[u8; 20]> = Vec::new();
    let mut i: usize = 0;
    while i < count
        invariant
            i <= count,
            from <= len == bytes@.len(),
            count == (len - from) / 20,
            s == bytes@.skip(from as int),
            out@.len() == i,
            forall|j: int| 0 <= j < i ==> (#[trigger] out@[j])@ == s.subrange(20 * j, 20 * j + 20),
        decreases count - i,
    {
        let at: usize = from + 20 * i;
        let hash: [u8; 20] = range_to_array::<20>(slice_subrange(bytes, at, at + 20));
        proof {
            assert(hash@ =~= s.subrange(20 * i, 20 * i + 20));
        }
        out.push(hash);
        i += 1;
    }
    proof {
        assert(hash_list_view(out@) =~= chunks20(s));
    }
    out
}

fn event_from_code(code: i32) -> (r: Option<Event>)
    ensures
        r == event_of(code),
{
    if code == 0 {
        Some(Event::Inactive)
    } else if code == 1 {
        Some(Event::Completed)
    } else if code == 2 {
        Some(Event::Started)
    } else if code == 3 {
        Some(Event::Stopped)
    } else {
        None
    }
}

impl Request {
    /// The packet to send.
    pub fn to_request(&self) -> (r: Vec<u8>)
        ensures
            r@ == request_bytes(self@),
    {
        let mut out: Vec<u8> = Vec::new();
        match self {
            Request::Connect { cid, tid } => {
                push_i64(&mut out, *cid);
                push_i32(&mut out, ACTION_CONNECT);
                push_i32(&mut out, *tid);
            },
            Request::Announce {
                cid,
                tid,
                info_hash,
                peer_id,
                downloaded,
                left,
                uploaded,
                event,
                ip,
                key,
                num_want,
                port,
            } => {
                push_i64(&mut out, *cid);
                push_i32(&mut out, ACTION_ANNOUNCE);
                push_i32(&mut out, *tid);
                push_bytes(&mut out, info_hash.as_slice());
                push_bytes(&mut out, peer_id.as_slice());
                push_u64(&mut out, *downloaded);
                push_u64(&mut out, *left);
                push_u64(&mut out, *uploaded);
                push_i32(&mut out, event.to_code());
                push_u32(&mut out, *ip);
                push_u32(&mut out, *key);
                push_i32(&mut out, *num_want);
                push_u16(&mut out, *port);
            },
            Request::Scrape { cid, tid, hashes } => {
                push_i64(&mut out, *cid);
                push_i32(&mut out, ACTION_SCRAPE);
                push_i32(&mut out, *tid);
                let ghost head = out@;
                let ghost model = hash_list_view(hashes@);
                let mut i: usize = 0;
                assert(concat_hashes(model.take(0)) =~= Seq::<u8>::empty());
                while i < hashes.len()
                    invariant
                        i <= hashes@.len(),
                        model == hash_list_view(hashes@),
                        out@ == head + concat_hashes(model.take(i as int)),
                    decreases hashes@.len() - i,
                {
                    push_bytes(&mut out, hashes[i].as_slice());
                    proof {
                        assert(model.take(i + 1).drop_last() =~= model.take(i as int));
                        assert(model.take(i + 1).last() == hashes@[i as int]@);
                    }
                    i += 1;
                }
                proof {
                    assert(model.take(hashes@.len() as int) =~= model);
                }
            },
        }
        assert(out@ =~= request_bytes(self@));
        out
    }

    /// Reads a request packet.
    pub fn from_request(v: &[u8]) -> (r: Result<Request, PacketError>)
        ensures
            r matches Ok(x) ==> request_value(v@) == Ok::<RequestModel, PacketError>(x@),
            r matches Err(e) ==> request_value(v@) == Err::<RequestModel, PacketError>(e),
    {
        if v.len() < 16 {
            return Err(PacketError::Truncated);
        }
        assert(v@.skip(0) =~= v@);
        let cid: i64 = read_i64(v, 0);
        let action: i32 = read_i32(v, 8);
        let tid: i32 = read_i32(v, 12);
        if action == ACTION_CONNECT {
            Ok(Request::Connect { cid, tid })
        } else if action == ACTION_ANNOUNCE {
            if v.len() < 98 {
                return Err(PacketError::Truncated);
            }
            let event = match event_from_code(read_i32(v, 80)) {
                Some(e) => e,
                None => {
                    return Err(PacketError::UnknownEvent);
                },
            };
            let info_hash: [u8; 20] = range_to_array::<20>(slice_subrange(v, 16, 36));
            let peer_id: [u8; 20] = range_to_array::<20>(slice_subrange(v, 36, 56));
            proof {
                assert(info_hash@ =~= v@.subrange(16, 36));
                assert(peer_id@ =~= v@.subrange(36, 56));
            }
            Ok(
                Request::Announce {
                    cid,
                    tid,
                    info_hash,
                    peer_id,
                    downloaded: read_u64(v, 56),
                    left: read_u64(v, 64),
                    uploaded: read_u64(v, 72),
                    event,
                    ip: read_u32(v, 84),
                    key: read_u32(v, 88),
                    num_want: read_i32(v, 92),
                    port: read_u16(v, 96),
                },
            )
        } else if action == ACTION_SCRAPE {
            Ok(Request::Scrape { cid, tid, hashes: read_hashes(v, 16) })
        } else {
            Err(PacketError::UnknownAction)
        }
    }
}

impl Response {
    /// Reads a response packet.
    pub fn to_response(v: &[u8]) -> (r: Result<Response, PacketError>)
        ensures
            r matches Ok(x) ==> response_value(v@) == Ok::<ResponseModel, PacketError>(x@),
            r matches Err(e) ==> response_value(v@) == Err::<ResponseModel, PacketError>(e),
    {
        if v.len() < 8 {
            return Err(PacketError::Truncated);
        }
        assert(v@.skip(0) =~= v@);
        let action: i32 = read_i32(v, 0);
        let tid: i32 = read_i32(v, 4);
        if action == ACTION_CONNECT {
            if v.len() < 16 {
                return Err(PacketError::Truncated);
            }
            Ok(Response::Connect { tid, cid: read_i64(v, 8) })
        } else if action == ACTION_ANNOUNCE {
            if v.len() < 20 {
                return Err(PacketError::Truncated);
            }
            Ok(
                Response::Announce {
                    tid,
                    interval: read_i32(v, 8),
                    leechers: read_i32(v, 12),
                    seeders: read_i32(v, 16),
                    peers: read_compact_peers(v, 20),
                },
            )
        } else if action == ACTION_SCRAPE {
            Ok(Response::Scrape { tid, hashes: read_statuses(v, 8) })
        } else if action == ACTION_ERROR {
            let text = copy_range(v, 8, v.len());
            assert(text@ =~= v@.skip(8));
            match string_from_utf8(text) {
                Some(error) => Ok(Response::Error { tid, error }),
                None => Err(PacketError::InvalidText),
            }
        } else {
            Err(PacketError::UnknownAction)
        }
    }

    /// The packet of this response, as a tracker sends it.
    pub fn to_bytes(&self) -> (r: Vec<u8>)
        ensures
            r@ == response_bytes(self@),
    {
        let mut out: Vec<u8> = Vec::new();
        match self {
            Response::Connect { tid, cid } => {
                push_i32(&mut out, ACTION_CONNECT);
                push_i32(&mut out, *tid);
                push_i64(&mut out, *cid);
            },
            Response::Announce { tid, interval, leechers, seeders, peers } => {
                push_i32(&mut out, ACTION_ANNOUNCE);
                push_i32(&mut out, *tid);
                push_i32(&mut out, *interval);
                push_i32(&mut out, *leechers);
                push_i32(&mut out, *seeders);
                let ghost head = out@;
                let mut i: usize = 0;
                assert(compact_bytes(peers@.take(0)) =~= Seq::<u8>::empty());
                while i < peers.len()
                    invariant
                        i <= peers@.len(),
                        out@ == head + compact_bytes(peers@.take(i as int)),
                    decreases peers@.len() - i,
                {
                    push_u32(&mut out, peers[i].ip);
                    push_u16(&mut out, peers[i].port);
                    proof {
                        assert(peers@.take(i + 1).drop_last() =~= peers@.take(i as int));
                        assert(peers@.take(i + 1).last() == peers@[i as int]);
                        assert(out@ =~= head + compact_bytes(peers@.take(i + 1)));
                    }
                    i += 1;
                }
                proof {
                    assert(peers@.take(peers@.len() as int) =~= peers@);
                }
            },
            Response::Scrape { tid, hashes } => {
                push_i32(&mut out, ACTION_SCRAPE);
                push_i32(&mut out, *tid);
                let ghost head = out@;
                let mut i: usize = 0;
                assert(statuses_bytes(hashes@.take(0)) =~= Seq::<u8>::empty());
                while i < hashes.len()
                    invariant
                        i <= hashes@.len(),
                        out@ == head + statuses_bytes(hashes@.take(i as int)),
                    decreases hashes@.len() - i,
                {
                    push_i32(&mut out, hashes[i].complete);
                    push_i32(&mut out, hashes[i].downloaded);
                    push_i32(&mut out, hashes[i].incomplete);
                    proof {
                        assert(hashes@.take(i + 1).drop_last() =~= hashes@.take(i as int));
                        assert(hashes@.take(i + 1).last() == hashes@[i as int]);
                        assert(out@ =~= head + statuses_bytes(hashes@.take(i + 1)));
                    }
                    i += 1;
                }
                proof {
                    assert(hashes@.take(hashes@.len() as int) =~= hashes@);
                }
            },
            Response::Error { tid, error } => {
                push_i32(&mut out, ACTION_ERROR);
                push_i32(&mut out, *tid);
                push_bytes(&mut out, error.as_str().as_bytes());
            },
        }
        assert(out@ =~= response_bytes(self@));
        out
    }
}

/// A compact list that was written names the same peers when read.
pub proof fn lemma_compact_round_trip(peers: Seq<Endpoint>)
    ensures
        compact_bytes(peers).len() == 6 * peers.len(),
        compact_peers(compact_bytes(peers)) == peers,
    decreases peers.len(),
{
    if peers.len() == 0 {
        assert(compact_peers(compact_bytes(peers)) =~= peers);
    } else {
        let head = peers.drop_last();
        let last = peers.last();
        lemma_compact_round_trip(head);
        let hb = compact_bytes(head);
        let s = compact_bytes(peers);
        assert(s == hb + endpoint_bytes(last));
        assert forall|i: int| 0 <= i < peers.len() implies compact_peers(s)[i] == peers[i] by {
            if i < head.len() {
                let a = hb.skip(6 * i);
                let b = s.skip(6 * i);
                assert(compact_peers(hb)[i] == head[i]);
                assert(a.len() >= 6);
                assert(a.take(4) =~= b.take(4));
                assert(a.skip(4).take(2) =~= b.skip(4).take(2));
                lemma_from_be32_prefix(a, b);
                lemma_from_be16_prefix(a.skip(4), b.skip(4));
            } else {
                assert(s.skip(6 * i) =~= be32(last.ip) + be16(last.port));
                lemma_be32_round_trip(last.ip, be16(last.port));
                assert(s.skip(6 * i).skip(4) =~= be16(last.port) + Seq::<u8>::empty());
                lemma_be16_round_trip(last.port, Seq::empty());
            }
        }
        assert(compact_peers(s) =~= peers);
    }
}

/// Scrape counts that were written are the same when read.
pub proof fn lemma_statuses_round_trip(v: Seq<Status>)
    ensures
        statuses_bytes(v).len() == 12 * v.len(),
        statuses_at(statuses_bytes(v)) == v,
    decreases v.len(),
{
    if v.len() == 0 {
        assert(statuses_at(statuses_bytes(v)) =~= v);
    } else {
        let head = v.drop_last();
        let last = v.last();
        lemma_statuses_round_trip(head);
        let hb = statuses_bytes(head);
        let s = statuses_bytes(v);
        assert(s == hb + status_bytes(last));
        assert forall|i: int| 0 <= i < v.len() implies statuses_at(s)[i] == v[i] by {
            if i < head.len() {
                let a = hb.skip(12 * i);
                let b = s.skip(12 * i);
                assert(statuses_at(hb)[i] == head[i]);
                assert(a.len() >= 12);
                assert(a.take(4) =~= b.take(4));
                assert(a.skip(4).take(4) =~= b.skip(4).take(4));
                assert(a.skip(8).take(4) =~= b.skip(8).take(4));
                lemma_from_be32_prefix(a, b);
                lemma_from_be32_prefix(a.skip(4), b.skip(4));
                lemma_from_be32_prefix(a.skip(8), b.skip(8));
            } else {
                let t = s.skip(12 * i);
                assert(t =~= be_i32(last.complete) + (be_i32(last.downloaded) + be_i32(
                    last.incomplete,
                )));
                lemma_be_i32_round_trip(
                    last.complete,
                    be_i32(last.downloaded) + be_i32(last.incomplete),
                );
                assert(t.skip(4) =~= be_i32(last.downloaded) + be_i32(last.incomplete));
                lemma_be_i32_round_trip(last.downloaded, be_i32(last.incomplete));
                assert(t.skip(8) =~= be_i32(last.incomplete) + Seq::<u8>::empty());
                lemma_be_i32_round_trip(last.incomplete, Seq::empty());
            }
        }
        assert(statuses_at(s) =~= v);
    }
}

/// Hashes that were written one after the other are the same when cut
/// apart again.
pub proof fn lemma_hashes_round_trip(h: Seq<Seq<u8>>)
    requires
        forall|i: int| 0 <= i < h.len() ==> (#[trigger] h[i]).len() == 20,
    ensures
        concat_hashes(h).len() == 20 * h.len(),
        chunks20(concat_hashes(h)) == h,
    decreases h.len(),
{
    if h.len() == 0 {
        assert(chunks20(concat_hashes(h)) =~= h);
    } else {
        let head = h.drop_last();
        lemma_hashes_round_trip(head);
        let hb = concat_hashes(head);
        let s = concat_hashes(h);
        assert(s == hb + h.last());
        assert forall|i: int| 0 <= i < h.len() implies chunks20(s)[i] == h[i] by {
            if i < head.len() {
                assert(chunks20(hb)[i] == head[i]);
                assert(s.subrange(20 * i, 20 * i + 20) =~= hb.subrange(20 * i, 20 * i + 20));
            } else {
                assert(s.subrange(20 * i, 20 * i + 20) =~= h.last());
            }
        }
        assert(chunks20(s) =~= h);
    }
}

/// Behind the head of what stands at an offset stands the tail.
pub proof fn lemma_tail(s: Seq<u8>, off: int, head: Seq<u8>, tail: Seq<u8>)
    requires
        0 <= off <= s.len(),
        s.skip(off) == head + tail,
    ensures
        off + head.len() <= s.len(),
        s.skip(off + head.len()) == tail,
        s.subrange(off, off + head.len()) == head,
{
    assert(s.skip(off).len() == head.len() + tail.len());
    assert(s.skip(off + head.len()) =~= s.skip(off).skip(head.len() as int));
    assert((head + tail).skip(head.len() as int) =~= tail);
    assert(s.subrange(off, off + head.len()) =~= s.skip(off).take(head.len() as int));
    assert((head + tail).take(head.len() as int) =~= head);
}

/// The numbers at the end of an announce, from the counts on, are read
/// back from where they were written.
pub proof fn lemma_announce_numbers(
    t: Seq<u8>,
    downloaded: u64,
    left: u64,
    uploaded: u64,
    code: i32,
    ip: u32,
    key: u32,
    num_want: i32,
    port: u16,
)
    requires
        t == be64(downloaded) + be64(left) + be64(uploaded) + be_i32(code) + be32(ip) + be32(key)
            + be_i32(num_want) + be16(port),
    ensures
        t.len() == 42,
        from_be64(t) == downloaded,
        from_be64(t.skip(8)) == left,
        from_be64(t.skip(16)) == uploaded,
        from_be_i32(t.skip(24)) == code,
        from_be32(t.skip(28)) == ip,
        from_be32(t.skip(32)) == key,
        from_be_i32(t.skip(36)) == num_want,
        from_be16(t.skip(40)) == port,
{
    let t42 = Seq::<u8>::empty();
    let t40 = be16(port) + t42;
    let t36 = be_i32(num_want) + t40;
    let t32 = be32(key) + t36;
    let t28 = be32(ip) + t32;
    let t24 = be_i32(code) + t28;
    let t16 = be64(uploaded) + t24;
    let t8 = be64(left) + t16;
    assert(t =~= be64(downloaded) + t8);
    assert(t.skip(0) =~= t);
    lemma_be64_round_trip(downloaded, t8);
    lemma_tail(t, 0, be64(downloaded), t8);
    lemma_be64_round_trip(left, t16);
    lemma_tail(t, 8, be64(left), t16);
    lemma_be64_round_trip(uploaded, t24);
    lemma_tail(t, 16, be64(uploaded), t24);
    lemma_be_i32_round_trip(code, t28);
    lemma_tail(t, 24, be_i32(code), t28);
    lemma_be32_round_trip(ip, t32);
    lemma_tail(t, 28, be32(ip), t32);
    lemma_be32_round_trip(key, t36);
    lemma_tail(t, 32, be32(key), t36);
    lemma_be_i32_round_trip(num_want, t40);
    lemma_tail(t, 36, be_i32(num_want), t40);
    lemma_be16_round_trip(port, t42);
    lemma_tail(t, 40, be16(port), t42);
}

/// The head of an announce, up to the peer id, is read back from where it
/// was written, and the numbers stand behind it.
pub proof fn lemma_announce_head(
    s: Seq<u8>,
    cid: i64,
    tid: i32,
    info_hash: Seq<u8>,
    peer_id: Seq<u8>,
    t: Seq<u8>,
)
    requires
        info_hash.len() == 20,
        peer_id.len() == 20,
        s == be_i64(cid) + be_i32(ACTION_ANNOUNCE) + be_i32(tid) + info_hash + peer_id + t,
    ensures
        s.len() == 56 + t.len(),
        from_be_i64(s) == cid,
        from_be_i32(s.skip(8)) == ACTION_ANNOUNCE,
        from_be_i32(s.skip(12)) == tid,
        s.subrange(16, 36) == info_hash,
        s.subrange(36, 56) == peer_id,
        s.skip(56) == t,
{
    let t36 = peer_id + t;
    let t16 = info_hash + t36;
    let t12 = be_i32(tid) + t16;
    let t8 = be_i32(ACTION_ANNOUNCE) + t12;
    assert(s =~= be_i64(cid) + t8);
    assert(s.skip(0) =~= s);
    lemma_be_i64_round_trip(cid, t8);
    lemma_tail(s, 0, be_i64(cid), t8);
    lemma_be_i32_round_trip(ACTION_ANNOUNCE, t12);
    lemma_tail(s, 8, be_i32(ACTION_ANNOUNCE), t12);
    lemma_be_i32_round_trip(tid, t16);
    lemma_tail(s, 12, be_i32(tid), t16);
    lemma_tail(s, 16, info_hash, t36);
    lemma_tail(s, 36, peer_id, t);
}

/// Every announce that was written is read back.
pub proof fn lemma_announce_round_trip(r: RequestModel)
    requires
        r is Announce,
        r.wf(),
    ensures
        request_value(request_bytes(r)) == Ok::<RequestModel, PacketError>(r),
{
    let s = request_bytes(r);
    let event = r->Announce_event;
    let t = be64(r->Announce_downloaded) + be64(r->Announce_left) + be64(r->Announce_uploaded)
        + be_i32(event.code()) + be32(r->Announce_ip) + be32(r->Announce_key) + be_i32(
        r->Announce_num_want,
    ) + be16(r->Announce_port);
    assert(s =~= be_i64(r->Announce_cid) + be_i32(ACTION_ANNOUNCE) + be_i32(r->Announce_tid)
        + r->Announce_info_hash + r->Announce_peer_id + t);
    lemma_announce_head(
        s,
        r->Announce_cid,
        r->Announce_tid,
        r->Announce_info_hash,
        r->Announce_peer_id,
        t,
    );
    lemma_announce_numbers(
        t,
        r->Announce_downloaded,
        r->Announce_left,
        r->Announce_uploaded,
        event.code(),
        r->Announce_ip,
        r->Announce_key,
        r->Announce_num_want,
        r->Announce_port,
    );
    assert(s.skip(64) =~= t.skip(8));
    assert(s.skip(72) =~= t.skip(16));
    assert(s.skip(80) =~= t.skip(24));
    assert(s.skip(84) =~= t.skip(28));
    assert(s.skip(88) =~= t.skip(32));
    assert(s.skip(92) =~= t.skip(36));
    assert(s.skip(96) =~= t.skip(40));
    assert(event_of(event.code()) == Some(event));
}

/// Every request that was written is read back.
pub proof fn lemma_request_round_trip(r: RequestModel)
    requires
        r.wf(),
    ensures
        request_value(request_bytes(r)) == Ok::<RequestModel, PacketError>(r),
{
    let s = request_bytes(r);
    match r {
        RequestModel::Connect { cid, tid } => {
            let t1 = be_i32(ACTION_CONNECT) + be_i32(tid);
            assert(s =~= be_i64(cid) + t1);
            lemma_be_i64_round_trip(cid, t1);
            assert(s.skip(8) =~= be_i32(ACTION_CONNECT) + be_i32(tid));
            lemma_be_i32_round_trip(ACTION_CONNECT, be_i32(tid));
            assert(s.skip(12) =~= be_i32(tid) + Seq::<u8>::empty());
            lemma_be_i32_round_trip(tid, Seq::empty());
        },
        RequestModel::Announce { .. } => {
            lemma_announce_round_trip(r);
        },
        RequestModel::Scrape { cid, tid, hashes } => {
            let t16 = concat_hashes(hashes);
            let t12 = be_i32(tid) + t16;
            let t8 = be_i32(ACTION_SCRAPE) + t12;
            assert(s =~= be_i64(cid) + t8);
            lemma_be_i64_round_trip(cid, t8);
            lemma_be_i32_round_trip(ACTION_SCRAPE, t12);
            lemma_be_i32_round_trip(tid, t16);
            assert(s.skip(8) =~= t8);
            assert(s.skip(12) =~= t12);
            assert(s.skip(16) =~= t16);
            lemma_hashes_round_trip(hashes);
        },
    }
}

/// A connect response that was written is read back.
pub proof fn lemma_connect_response_round_trip(tid: i32, cid: i64)
    ensures
        response_value(response_bytes(ResponseModel::Connect { tid, cid })) == Ok::<
            ResponseModel,
            PacketError,
        >(ResponseModel::Connect { tid, cid }),
{
    let s = response_bytes(ResponseModel::Connect { tid, cid });
    let t8 = be_i64(cid);
    let t4 = be_i32(tid) + t8;
    assert(s =~= be_i32(ACTION_CONNECT) + t4);
    lemma_be_i32_round_trip(ACTION_CONNECT, t4);
    lemma_be_i32_round_trip(tid, t8);
    lemma_be_i64_round_trip(cid, Seq::empty());
    assert(s.skip(4) =~= t4);
    assert(s.skip(8) =~= t8 + Seq::<u8>::empty());
}

/// An announce response that was written is read back.
pub proof fn lemma_announce_response_round_trip(
    tid: i32,
    interval: i32,
    leechers: i32,
    seeders: i32,
    peers: Seq<Endpoint>,
)
    ensures
        response_value(
            response_bytes(ResponseModel::Announce { tid, interval, leechers, seeders, peers }),
        ) == Ok::<ResponseModel, PacketError>(
            ResponseModel::Announce { tid, interval, leechers, seeders, peers },
        ),
{
    let s = response_bytes(ResponseModel::Announce { tid, interval, leechers, seeders, peers });
    let t20 = compact_bytes(peers);
    let t16 = be_i32(seeders) + t20;
    let t12 = be_i32(leechers) + t16;
    let t8 = be_i32(interval) + t12;
    let t4 = be_i32(tid) + t8;
    assert(s =~= be_i32(ACTION_ANNOUNCE) + t4);
    lemma_be_i32_round_trip(ACTION_ANNOUNCE, t4);
    lemma_be_i32_round_trip(tid, t8);
    lemma_be_i32_round_trip(interval, t12);
    lemma_be_i32_round_trip(leechers, t16);
    lemma_be_i32_round_trip(seeders, t20);
    assert(s.skip(4) =~= t4);
    assert(s.skip(8) =~= t8);
    assert(s.skip(12) =~= t12);
    assert(s.skip(16) =~= t16);
    assert(s.skip(20) =~= t20);
    lemma_compact_round_trip(peers);
}

/// A scrape response that was written is read back.
pub proof fn lemma_scrape_response_round_trip(tid: i32, hashes: Seq<Status>)
    ensures
        response_value(response_bytes(ResponseModel::Scrape { tid, hashes })) == Ok::<
            ResponseModel,
            PacketError,
        >(ResponseModel::Scrape { tid, hashes }),
{
    let s = response_bytes(ResponseModel::Scrape { tid, hashes });
    let t8 = statuses_bytes(hashes);
    let t4 = be_i32(tid) + t8;
    assert(s =~= be_i32(ACTION_SCRAPE) + t4);
    lemma_be_i32_round_trip(ACTION_SCRAPE, t4);
    lemma_be_i32_round_trip(tid, t8);
    assert(s.skip(4) =~= t4);
    assert(s.skip(8) =~= t8);
    lemma_statuses_round_trip(hashes);
}

/// An error response that was written is read back.
pub proof fn lemma_error_response_round_trip(tid: i32, error: Seq<char>)
    ensures
        response_value(response_bytes(ResponseModel::Error { tid, error })) == Ok::<
            ResponseModel,
            PacketError,
        >(ResponseModel::Error { tid, error }),
{
    let s = response_bytes(ResponseModel::Error { tid, error });
    let t8 = encode_utf8(error);
    let t4 = be_i32(tid) + t8;
    assert(s =~= be_i32(ACTION_ERROR) + t4);
    lemma_be_i32_round_trip(ACTION_ERROR, t4);
    lemma_be_i32_round_trip(tid, t8);
    assert(s.skip(4) =~= t4);
    assert(s.skip(8) =~= t8);
    encode_utf8_valid_utf8(error);
    encode_utf8_decode_utf8(error);
}

/// Every response that was written is read back.
pub proof fn lemma_response_round_trip(r: ResponseModel)
    ensures
        response_value(response_bytes(r)) == Ok::<ResponseModel, PacketError>(r),
{
    match r {
        ResponseModel::Connect { tid, cid } => {
            lemma_connect_response_round_trip(tid, cid);
        },
        ResponseModel::Announce { tid, interval, leechers, seeders, peers } => {
            lemma_announce_response_round_trip(tid, interval, leechers, seeders, peers);
        },
        ResponseModel::Scrape { tid, hashes } => {
            lemma_scrape_response_round_trip(tid, hashes);
        },
        ResponseModel::Error { tid, error } => {
            lemma_error_response_round_trip(tid, error);
        },
    }
}

/// The info-hash of an announce stands at bytes 16 to 36 of its packet.
pub proof fn lemma_announce_hash(r: RequestModel)
    requires
        r is Announce,
        r->Announce_info_hash.len() == 20,
    ensures
        request_bytes(r).subrange(16, 36) == r->Announce_info_hash,
{
    let s = request_bytes(r);
    let rest = r->Announce_peer_id + be64(r->Announce_downloaded) + be64(r->Announce_left) + be64(
        r->Announce_uploaded,
    ) + be_i32(r->Announce_event.code()) + be32(r->Announce_ip) + be32(r->Announce_key) + be_i32(
        r->Announce_num_want,
    ) + be16(r->Announce_port);
    let t16 = r->Announce_info_hash + rest;
    let t12 = be_i32(r->Announce_tid) + t16;
    let t8 = be_i32(ACTION_ANNOUNCE) + t12;
    assert(s =~= be_i64(r->Announce_cid) + t8);
    assert(s.skip(0) =~= s);
    lemma_be_i64_round_trip(r->Announce_cid, t8);
    lemma_tail(s, 0, be_i64(r->Announce_cid), t8);
    lemma_be_i32_round_trip(ACTION_ANNOUNCE, t12);
    lemma_tail(s, 8, be_i32(ACTION_ANNOUNCE), t12);
    lemma_be_i32_round_trip(r->Announce_tid, t16);
    lemma_tail(s, 12, be_i32(r->Announce_tid), t16);
    lemma_tail(s, 16, r->Announce_info_hash, rest);
}

} // verus!
