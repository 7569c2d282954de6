//! What HTTP trackers answer: announce and scrape responses, from bencode.

use vstd::prelude::*;
use vstd::string::StringSliceAdditionalSpecFns;
use crate::bencode::{Bencode, DecodeError, Kind, Value, DEFAULT_DEPTH, digit_run, digits_value, entries_view, is_digit, items_view, parse};
use crate::bencode::decoder::{decode, lemma_digit_run, lemma_digits_value_push};
use crate::bencode::fields::{as_bytes, as_dict, bytes_of, dict_of, field_u64, get, get_optional_text, get_optional_u64, get_required, get_u64, kind, kind_of, optional_bytes, optional_text, optional_u64, owned_text_view, required};
use crate::data::{Endpoint, HttpResponse, Peer, ScrapeResponse, Status};
use crate::helpers::range_to_array;
use crate::metainfo::{lemma_try_map_end, lemma_try_map_start, lemma_try_map_step, mapped_after, try_map};
use crate::udp::{compact_peers, read_compact_peers};

verus! {

/// A peer, as plain values.
pub struct PeerModel {
    pub id: Option<Seq<u8>>,
    pub addr: Endpoint,
}

impl View for Peer {
    type V = PeerModel;

    open spec fn view(&self) -> PeerModel {
        PeerModel {
            id: match self.id {
                Some(i) => Some(i@),
                None => None,
            },
            addr: self.addr,
        }
    }
}

/// Each peer as plain values.
pub open spec fn peers_view(v: Seq<Peer>) -> Seq<PeerModel> {
    Seq::new(v.len(), |i: int| v[i]@)
}

/// An announce response, as plain values.
pub struct HttpResponseModel {
    pub failure_reason: Option<Seq<char>>,
    pub warning: Option<Seq<char>>,
    pub interval: u64,
    pub min_interval: Option<u64>,
    pub tracker_id: Seq<char>,
    pub complete: u64,
    pub incomplete: u64,
    pub peers: Seq<PeerModel>,
}

impl View for HttpResponse {
    type V = HttpResponseModel;

    open spec fn view(&self) -> HttpResponseModel {
        HttpResponseModel {
            failure_reason: owned_text_view(self.failure_reason),
            warning: owned_text_view(self.warning),
            interval: self.interval,
            min_interval: self.min_interval,
            tracker_id: self.tracker_id@,
            complete: self.complete,
            incomplete: self.incomplete,
            peers: peers_view(self.peers@),
        }
    }
}

/// The numbers of a dotted IPv4 address: `n` runs of one to three digits,
/// none above 255, with a dot between them and nothing else.
pub open spec fn octets(s: Seq<u8>, n: nat) -> Option<Seq<int>>
    decreases n,
{
    let k = digit_run(s) as int;
    let v = digits_value(s.take(k)) as int;
    if n == 0 || k < 1 || k > 3 || v > 255 {
        None
    } else if n == 1 {
        if k == s.len() {
            Some(seq![v])
        } else {
            None
        }
    } else if k < s.len() && s[k] == 46 {
        match octets(s.skip(k + 1), (n - 1) as nat) {
            Some(rest) => Some(seq![v] + rest),
            None => None,
        }
    } else {
        None
    }
}

/// The address that dotted text spells.
pub open spec fn ipv4_value(s: Seq<u8>) -> Option<u32> {
    match octets(s, 4) {
        Some(o) => Some((((o[0] * 256 + o[1]) * 256 + o[2]) * 256 + o[3]) as u32),
        None => None,
    }
}

/// Reads one number of a dotted address at `bytes[pos]`: its value and the
/// position just behind it.
fn read_octet(bytes: &[u8], pos: usize) -> (r: Option<(u32, usize)>)
    requires
        pos <= bytes@.len(),
    ensures
        ({
            let s = bytes@.skip(pos as int);
            let k = digit_run(s) as int;
            let v = digits_value(s.take(k)) as int;
            if k < 1 || k > 3 || v > 255 {
                r is None
            } else {
                r == Some((v as u32, (pos + k) as usize)) && pos + k <= bytes@.len()
            }
        }),
{
    let len: usize = bytes.len();
    let ghost s = bytes@.skip(pos as int);
    let mut i: usize = pos;
    let mut v: u32 = 0;
    while i < len && i - pos < 4 && 48 <= bytes[i] && bytes[i] <= 57
        invariant
            pos <= i <= len,
            i - pos <= 4,
            len == bytes@.len(),
            s == bytes@.skip(pos as int),
            forall|j: int| 0 <= j < i - pos ==> is_digit(#[trigger] s[j]),
            v == digits_value(s.take(i - pos)),
            i - pos == 0 ==> v == 0,
            i - pos == 1 ==> v <= 9,
            i - pos == 2 ==> v <= 99,
            i - pos == 3 ==> v <= 999,
            i - pos == 4 ==> v <= 9999,
        decreases len - i,
    {
        proof {
            let before = s.take(i - pos);
            assert(s[i - pos] == bytes@[i as int]);
            assert(s.take(i - pos + 1) =~= before.push(bytes@[i as int]));
            lemma_digits_value_push(before, bytes@[i as int]);
        }
        v = v * 10 + (bytes[i] - 48) as u32;
        i += 1;
    }
    let k: usize = i - pos;
    proof {
        if i < len && !(48 <= bytes@[i as int] && bytes@[i as int] <= 57) || i == len {
            if i < len {
                assert(s[k as int] == bytes@[i as int]);
            }
            lemma_digit_run(s, k as int);
        } else {
            // Four digits and more to come: the run is too long.
            assert(k == 4);
            lemma_run_at_least(s, 4);
        }
    }
    if k < 1 || k > 3 || v > 255 {
        None
    } else {
        Some((v, i))
    }
}

/// A sequence that starts with `k` digits has a digit run of at least `k`.
pub proof fn lemma_run_at_least(s: Seq<u8>, k: int)
    requires
        0 <= k <= s.len(),
        forall|j: int| 0 <= j < k ==> is_digit(#[trigger] s[j]),
    ensures
        digit_run(s) >= k,
    decreases k,
{
    if k > 0 {
        let t = s.drop_first();
        assert forall|j: int| 0 <= j < k - 1 implies is_digit(#[trigger] t[j]) by {
            assert(is_digit(s[j + 1]));
        }
        lemma_run_at_least(t, k - 1);
    }
}

/// What reading on gives, behind the numbers read so far.
pub open spec fn octets_after(acc: Seq<int>, rest: Option<Seq<int>>) -> Option<Seq<int>> {
    match rest {
        Some(r) => Some(acc + r),
        None => None,
    }
}

/// Reads a dotted IPv4 address.
pub fn parse_ipv4(text: &[u8]) -> (r: Option<u32>)
    ensures
        r == ipv4_value(text@),
{
    let len: usize = text.len();
    let mut pos: usize = 0;
    let mut left: usize = 4;
    let mut ip: u32 = 0;
    let ghost mut acc: Seq<int> = Seq::empty();
    proof {
        assert(text@.skip(0) =~= text@);
        if let Some(r) = octets(text@, 4) {
            assert(acc + r =~= r);
        }
    }
    while left > 0
        invariant
            pos <= len,
            len == text@.len(),
            left <= 4,
            acc.len() == 4 - left,
            forall|i: int| 0 <= i < acc.len() ==> 0 <= #[trigger] acc[i] <= 255,
            left == 4 ==> ip == 0,
            left == 3 ==> ip == acc[0],
            left == 2 ==> ip == acc[0] * 256 + acc[1],
            left == 1 ==> ip == (acc[0] * 256 + acc[1]) * 256 + acc[2],
            left == 0 ==> ip == ((acc[0] * 256 + acc[1]) * 256 + acc[2]) * 256 + acc[3],
            left > 0 ==> octets(text@, 4) == octets_after(
                acc,
                octets(text@.skip(pos as int), left as nat),
            ),
            left == 0 ==> octets(text@, 4) == Some(acc),
        decreases left,
    {
        let ghost s = text@.skip(pos as int);
        let (v, end) = match read_octet(text, pos) {
            Some(x) => x,
            None => {
                return None;
            },
        };
        proof {
            if end < len {
                assert(s[end - pos] == text@[end as int]);
                assert(s.skip(end - pos + 1) =~= text@.skip(end + 1));
            }
        }
        if left == 1 {
            if end != len {
                return None;
            }
            proof {
                assert(octets(s, 1) == Some(seq![v as int]));
                assert(acc + seq![v as int] =~= acc.push(v as int));
            }
        } else {
            if !(end < len && text[end] == 46) {
                return None;
            }
            proof {
                let tail = octets(text@.skip(end + 1), (left - 1) as nat);
                if let Some(r) = tail {
                    assert(acc + (seq![v as int] + r) =~= acc.push(v as int) + r);
                }
            }
        }
        ip = ip * 256 + v;
        proof {
            acc = acc.push(v as int);
        }
        pos = if left == 1 {
            end
        } else {
            end + 1
        };
        left -= 1;
    }
    Some(ip)
}

/// One peer of the dictionary form: its address from `ip` and `port`, and
/// its id if there is one. An `ip` that is no dotted IPv4 address, which an
/// `Endpoint` cannot hold, is reported as something other than the byte
/// string expected, and nothing else is reported so; a port above
/// 65535 as an overflow; an id of another length than 20 as cut short or as
/// followed by more.
pub open spec fn peer_model(v: Bencode) -> Result<PeerModel, DecodeError> {
    match as_dict(v) {
        Err(e) => Err(e),
        Ok(d) => match optional_bytes(d, "peer id".spec_bytes()) {
            Err(e) => Err(e),
            Ok(id) => if id is Some && id->Some_0.len() < 20 {
                Err(DecodeError::Truncated)
            } else if id is Some && id->Some_0.len() > 20 {
                Err(DecodeError::TrailingBytes)
            } else {
                match required(d, "ip".spec_bytes(), Kind::Bytes) {
                    Err(e) => Err(e),
                    Ok(iv) => match as_bytes(iv) {
                        Err(e) => Err(e),
                        Ok(ip_text) => match ipv4_value(ip_text) {
                            None => Err(DecodeError::Unexpected(Kind::Other, Kind::Bytes)),
                            Some(ip) => match field_u64(d, "port".spec_bytes()) {
                                Err(e) => Err(e),
                                Ok(port) => if port > 65535 {
                                    Err(DecodeError::OverflowInteger)
                                } else {
                                    Ok(PeerModel { id, addr: Endpoint { ip, port: port as u16 } })
                                },
                            },
                        },
                    },
                }
            },
        },
    }
}

/// Peers of which only the address is known.
pub open spec fn anonymous(peers: Seq<Endpoint>) -> Seq<PeerModel> {
    Seq::new(peers.len(), |i: int| PeerModel { id: None, addr: peers[i] })
}

/// Whether the entry of a peer is in order but for its `ip`, which is a text
/// that names no IPv4 address: an IPv6 address, or the name of a host. No
/// other fault of an entry is reported in this way.
pub open spec fn elsewhere(v: Bencode) -> bool {
    peer_model(v) == Err::<PeerModel, DecodeError>(
        DecodeError::Unexpected(Kind::Other, Kind::Bytes),
    )
}

/// The peers among the first `n` entries of a list in the dictionary form,
/// in their order. A peer at an address that is no IPv4 address cannot be
/// kept and is passed over; any other fault of an entry is the fault of the
/// whole list, the first one from the front.
pub open spec fn listed_peers(l: Seq<Bencode>, n: int) -> Result<Seq<PeerModel>, DecodeError>
    decreases n,
{
    if n <= 0 {
        Ok(Seq::empty())
    } else {
        match listed_peers(l, n - 1) {
            Err(e) => Err(e),
            Ok(before) => match peer_model(l[n - 1]) {
                Ok(p) => Ok(before.push(p)),
                Err(e) => if elsewhere(l[n - 1]) {
                    Ok(before)
                } else {
                    Err(e)
                },
            },
        }
    }
}

/// Once an entry is at fault, the entries behind it do not matter.
pub proof fn lemma_listed_fault(l: Seq<Bencode>, at: int, n: int)
    requires
        0 <= at <= n,
        listed_peers(l, at) is Err,
    ensures
        listed_peers(l, n) == listed_peers(l, at),
    decreases n - at,
{
    if at < n {
        lemma_listed_fault(l, at, n - 1);
    }
}

/// The peers of a response, from either form: a list of dictionaries, or a
/// byte string of six bytes for each peer.
pub open spec fn peers_model(v: Bencode) -> Result<Seq<PeerModel>, DecodeError> {
    match v {
        Bencode::List(l) => listed_peers(l, l.len() as int),
        Bencode::Bytes(b) => if b.len() % 6 != 0 {
            Err(DecodeError::Truncated)
        } else {
            Ok(anonymous(compact_peers(b)))
        },
        _ => Err(DecodeError::Unexpected(kind_of(v), Kind::List)),
    }
}

/// The number, or zero where there is none.
pub open spec fn or_zero(n: Option<u64>) -> u64 {
    match n {
        Some(x) => x,
        None => 0,
    }
}

/// The text, or the empty text where there is none.
pub open spec fn or_empty(t: Option<Seq<char>>) -> Seq<char> {
    match t {
        Some(x) => x,
        None => Seq::empty(),
    }
}

/// What an announce response says. A response with a `failure reason`
/// holds nothing else; any other must have `interval` and `peers`.
pub open spec fn response_model(bytes: Seq<u8>) -> Result<HttpResponseModel, DecodeError> {
    match parse(bytes, DEFAULT_DEPTH as nat) {
        Err(e) => Err(e),
        Ok(v) => match as_dict(v) {
            Err(e) => Err(e),
            Ok(d) => match optional_text(d, "failure reason".spec_bytes()) {
                Err(e) => Err(e),
                Ok(Some(reason)) => Ok(
                    HttpResponseModel {
                        failure_reason: Some(reason),
                        warning: None,
                        interval: 0,
                        min_interval: None,
                        tracker_id: Seq::empty(),
                        complete: 0,
                        incomplete: 0,
                        peers: Seq::empty(),
                    },
                ),
                Ok(None) => match optional_text(d, "warning message".spec_bytes()) {
                    Err(e) => Err(e),
                    Ok(warning) => match field_u64(d, "interval".spec_bytes()) {
                        Err(e) => Err(e),
                        Ok(interval) => match optional_u64(d, "min interval".spec_bytes()) {
                            Err(e) => Err(e),
                            Ok(min_interval) => match optional_text(
                                d,
                                "tracker id".spec_bytes(),
                            ) {
                                Err(e) => Err(e),
                                Ok(tracker_id) => match optional_u64(d, "complete".spec_bytes()) {
                                    Err(e) => Err(e),
                                    Ok(complete) => match optional_u64(
                                        d,
                                        "incomplete".spec_bytes(),
                                    ) {
                                        Err(e) => Err(e),
                                        Ok(incomplete) => match required(
                                            d,
                                            "peers".spec_bytes(),
                                            Kind::List,
                                        ) {
                                            Err(e) => Err(e),
                                            Ok(pv) => match peers_model(pv) {
                                                Err(e) => Err(e),
                                                Ok(peers) => Ok(
                                                    HttpResponseModel {
                                                        failure_reason: None,
                                                        warning,
                                                        interval,
                                                        min_interval,
                                                        tracker_id: or_empty(tracker_id),
                                                        complete: or_zero(complete),
                                                        incomplete: or_zero(incomplete),
                                                        peers,
                                                    },
                                                ),
                                            },
                                        },
                                    },
                                },
                            },
                        },
                    },
                },
            },
        },
    }
}

impl Peer {
    /// Reads one peer of the dictionary form.
    pub fn decode_bencode_object(v: &Value) -> (r: Result<Peer, DecodeError>)
        ensures
            r matches Ok(p) ==> peer_model(v@) == Ok::<PeerModel, DecodeError>(p@),
            r matches Err(e) ==> peer_model(v@) == Err::<PeerModel, DecodeError>(e),
    {
        let d = dict_of(v)?;
        let id: Option<[u8; 20]> = match get(d, "peer id".as_bytes()) {
            None => None,
            Some(iv) => {
                let raw = bytes_of(iv)?;
                if raw.len() < 20 {
                    return Err(DecodeError::Truncated);
                }
                if raw.len() > 20 {
                    return Err(DecodeError::TrailingBytes);
                }
                let id: [u8; 20] = range_to_array::<20>(raw.as_slice());
                assert(id@ =~= raw@);
                Some(id)
            },
        };
        let iv = get_required(d, "ip", Kind::Bytes)?;
        let ip_text = bytes_of(iv)?;
        let ip: u32 = match parse_ipv4(ip_text.as_slice()) {
            Some(ip) => ip,
            None => {
                return Err(DecodeError::Unexpected(Kind::Other, Kind::Bytes));
            },
        };
        let port: u64 = get_u64(d, "port")?;
        if port > 65535 {
            return Err(DecodeError::OverflowInteger);
        }
        Ok(Peer { id, addr: Endpoint { ip, port: port as u16 } })
    }
}

/// Reads the peers of a response, from either form.
pub fn decode_peers(v: &Value) -> (r: Result<Vec<Peer>, DecodeError>)
    ensures
        r matches Ok(p) ==> peers_model(v@) == Ok::<Seq<PeerModel>, DecodeError>(peers_view(p@)),
        r matches Err(e) ==> peers_model(v@) == Err::<Seq<PeerModel>, DecodeError>(e),
{
    match v {
        Value::List(l) => {
            let ghost model = items_view(l@);
            let mut out: Vec<Peer> = Vec::new();
            let mut i: usize = 0;
            proof {
                assert(peers_view(out@) =~= Seq::<PeerModel>::empty());
            }
            while i < l.len()
                invariant
                    i <= l@.len(),
                    model == items_view(l@),
                    peers_model(v@) == listed_peers(model, l@.len() as int),
                    listed_peers(model, i as int) == Ok::<Seq<PeerModel>, DecodeError>(
                        peers_view(out@),
                    ),
                decreases l@.len() - i,
            {
                proof {
                    assert(model[i as int] == l@[i as int]@);
                }
                match Peer::decode_bencode_object(&l[i]) {
                    Err(DecodeError::Unexpected(Kind::Other, Kind::Bytes)) => {},
                    Err(e) => {
                        proof {
                            assert(listed_peers(model, i + 1) == Err::<
                                Seq<PeerModel>,
                                DecodeError,
                            >(e));
                            lemma_listed_fault(model, i + 1, l@.len() as int);
                        }
                        return Err(e);
                    },
                    Ok(p) => {
                        proof {
                            assert(peers_view(out@.push(p)) =~= peers_view(out@).push(p@));
                        }
                        out.push(p);
                    },
                }
                i += 1;
            }
            Ok(out)
        },
        Value::Bytes(b) => {
            if b.len() % 6 != 0 {
                return Err(DecodeError::Truncated);
            }
            assert(b@.skip(0) =~= b@);
            let addrs = read_compact_peers(b.as_slice(), 0);
            let mut out: Vec<Peer> = Vec::new();
            let mut i: usize = 0;
            while i < addrs.len()
                invariant
                    i <= addrs@.len(),
                    out@.len() == i,
                    forall|j: int|
                        0 <= j < i ==> (#[trigger] out@[j])@ == (PeerModel {
                            id: None,
                            addr: addrs@[j],
                        }),
                decreases addrs@.len() - i,
            {
                out.push(Peer::from(&addrs[i]));
                i += 1;
            }
            proof {
                assert(peers_view(out@) =~= anonymous(addrs@));
            }
            Ok(out)
        },
        _ => Err(DecodeError::Unexpected(kind(v), Kind::List)),
    }
}

impl HttpResponse {
    /// Reads the body of an announce response.
    pub fn from_bencode(bytes: &[u8]) -> (r: Result<HttpResponse, DecodeError>)
        ensures
            r matches Ok(x) ==> response_model(bytes@) == Ok::<HttpResponseModel, DecodeError>(
                x@,
            ),
            r matches Err(e) ==> response_model(bytes@) == Err::<HttpResponseModel, DecodeError>(
                e,
            ),
    {
        let v = decode(bytes, DEFAULT_DEPTH)?;
        let d = dict_of(&v)?;
        let failure = get_optional_text(d, "failure reason")?;
        if let Some(reason) = failure {
            let r = HttpResponse {
                failure_reason: Some(reason),
                warning: None,
                interval: 0,
                min_interval: None,
                tracker_id: String::new(),
                complete: 0,
                incomplete: 0,
                peers: Vec::new(),
            };
            assert(r@.peers =~= Seq::<PeerModel>::empty());
            return Ok(r);
        }
        let warning = get_optional_text(d, "warning message")?;
        let interval: u64 = get_u64(d, "interval")?;
        let min_interval = get_optional_u64(d, "min interval")?;
        let tracker_id = get_optional_text(d, "tracker id")?;
        let complete = get_optional_u64(d, "complete")?;
        let incomplete = get_optional_u64(d, "incomplete")?;
        let pv = get_required(d, "peers", Kind::List)?;
        let peers = decode_peers(pv)?;
        Ok(
            HttpResponse {
                failure_reason: None,
                warning,
                interval,
                min_interval,
                tracker_id: match tracker_id {
                    Some(t) => t,
                    None => String::new(),
                },
                complete: match complete {
                    Some(n) => n,
                    None => 0,
                },
                incomplete: match incomplete {
                    Some(n) => n,
                    None => 0,
                },
                peers,
            },
        )
    }

    /// How long to wait before the next regular announce: `min interval`
    /// where the tracker names one, else `interval`.
    pub fn wait(&self) -> (r: u64)
        ensures
            r == match self.min_interval {
                Some(m) => m,
                None => self.interval,
            },
    {
        match self.min_interval {
            Some(m) => m,
            None => self.interval,
        }
    }
}

/// The counts of one torrent, as plain values.
pub struct StatusModel {
    pub seeders: u32,
    pub finished: u32,
    pub leechers: u32,
    pub name: Option<Seq<char>>,
}

impl View for Status {
    type V = StatusModel;

    open spec fn view(&self) -> StatusModel {
        StatusModel {
            seeders: self.seeders,
            finished: self.finished,
            leechers: self.leechers,
            name: owned_text_view(self.name),
        }
    }
}

/// Each torrent's hash and counts as plain values.
pub open spec fn scrape_view(v: Seq<(Vec<u8>, Status)>) -> Seq<(Seq<u8>, StatusModel)> {
    Seq::new(v.len(), |i: int| (v[i].0@, v[i].1@))
}

/// A count of a scrape; one that is missing is zero, one above 32 bits an
/// overflow.
pub open spec fn count_field(d: Seq<(Seq<u8>, Bencode)>, key: Seq<u8>) -> Result<u32, DecodeError> {
    match optional_u64(d, key) {
        Err(e) => Err(e),
        Ok(n) => if or_zero(n) > u32::MAX {
            Err(DecodeError::OverflowInteger)
        } else {
            Ok(or_zero(n) as u32)
        },
    }
}

/// The counts for one torrent.
pub open spec fn status_model(v: Bencode) -> Result<StatusModel, DecodeError> {
    match as_dict(v) {
        Err(e) => Err(e),
        Ok(d) => match count_field(d, "complete".spec_bytes()) {
            Err(e) => Err(e),
            Ok(seeders) => match count_field(d, "downloaded".spec_bytes()) {
                Err(e) => Err(e),
                Ok(finished) => match count_field(d, "incomplete".spec_bytes()) {
                    Err(e) => Err(e),
                    Ok(leechers) => match optional_text(d, "name".spec_bytes()) {
                        Err(e) => Err(e),
                        Ok(name) => Ok(StatusModel { seeders, finished, leechers, name }),
                    },
                },
            },
        },
    }
}

/// The counts of every torrent of the `files` dictionary, in its order.
pub open spec fn statuses_model(d: Seq<(Seq<u8>, Bencode)>) -> Result<
    Seq<(Seq<u8>, StatusModel)>,
    DecodeError,
>
    decreases d.len(),
{
    if d.len() == 0 {
        Ok(Seq::empty())
    } else {
        match status_model(d[0].1) {
            Err(e) => Err(e),
            Ok(s) => match statuses_model(d.drop_first()) {
                Err(e) => Err(e),
                Ok(rest) => Ok(seq![(d[0].0, s)] + rest),
            },
        }
    }
}

/// What a scrape response says.
pub open spec fn scrape_model(bytes: Seq<u8>) -> Result<Seq<(Seq<u8>, StatusModel)>, DecodeError> {
    match parse(bytes, DEFAULT_DEPTH as nat) {
        Err(e) => Err(e),
        Ok(v) => match as_dict(v) {
            Err(e) => Err(e),
            Ok(d) => match required(d, "files".spec_bytes(), Kind::Dict) {
                Err(e) => Err(e),
                Ok(fv) => match as_dict(fv) {
                    Err(e) => Err(e),
                    Ok(files) => statuses_model(files),
                },
            },
        },
    }
}

fn get_count(d: &Vec<(Vec<u8>, Value)>, key: &str) -> (r: Result<u32, DecodeError>)
    ensures
        r == count_field(entries_view(d@), key.spec_bytes()),
{
    let n = get_optional_u64(d, key)?;
    let n: u64 = match n {
        Some(x) => x,
        None => 0,
    };
    if n > 0xffff_ffff {
        Err(DecodeError::OverflowInteger)
    } else {
        Ok(n as u32)
    }
}

impl Status {
    /// Reads the counts for one torrent.
    pub fn decode_bencode_object(v: &Value) -> (r: Result<Status, DecodeError>)
        ensures
            r matches Ok(s) ==> status_model(v@) == Ok::<StatusModel, DecodeError>(s@),
            r matches Err(e) ==> status_model(v@) == Err::<StatusModel, DecodeError>(e),
    {
        let d = dict_of(v)?;
        let seeders: u32 = get_count(d, "complete")?;
        let finished: u32 = get_count(d, "downloaded")?;
        let leechers: u32 = get_count(d, "incomplete")?;
        let name = get_optional_text(d, "name")?;
        Ok(Status { seeders, finished, leechers, name })
    }
}

impl ScrapeResponse {
    /// Reads the body of a scrape response.
    pub fn from_bencode(bytes: &[u8]) -> (r: Result<ScrapeResponse, DecodeError>)
        ensures
            r matches Ok(x) ==> scrape_model(bytes@) == Ok::<
                Seq<(Seq<u8>, StatusModel)>,
                DecodeError,
            >(scrape_view(x.files@)),
            r matches Err(e) ==> scrape_model(bytes@) == Err::<
                Seq<(Seq<u8>, StatusModel)>,
                DecodeError,
            >(e),
    {
        let v = decode(bytes, DEFAULT_DEPTH)?;
        let d = dict_of(&v)?;
        let fv = get_required(d, "files", Kind::Dict)?;
        let files = dict_of(fv)?;
        let ghost model = entries_view(files@);
        let mut out: Vec<(Vec<u8>, Status)> = Vec::new();
        let mut i: usize = 0;
        proof {
            assert(model.skip(0) =~= model);
            assert(scrape_view(out@) =~= Seq::<(Seq<u8>, StatusModel)>::empty());
            if let Ok(rest) = statuses_model(model) {
                assert(Seq::<(Seq<u8>, StatusModel)>::empty() + rest =~= rest);
            }
        }
        while i < files.len()
            invariant
                i <= files@.len(),
                model == entries_view(files@),
                scrape_model(bytes@) == statuses_model(model),
                statuses_model(model) == mapped_after(
                    scrape_view(out@),
                    statuses_model(model.skip(i as int)),
                ),
            decreases files@.len() - i,
        {
            proof {
                assert(model.skip(i as int)[0] == model[i as int]);
                assert(model.skip(i as int).drop_first() =~= model.skip(i + 1));
                assert(model[i as int] == (files@[i as int].0@, files@[i as int].1@));
            }
            let status = Status::decode_bencode_object(&files[i].1)?;
            let key = crate::wire::copy_range(files[i].0.as_slice(), 0, files[i].0.len());
            proof {
                assert(key@ =~= files@[i as int].0@);
                let before = scrape_view(out@);
                let entry = (key@, status@);
                assert(scrape_view(out@.push((key, status))) =~= before.push(entry));
                if let Ok(rest) = statuses_model(model.skip(i + 1)) {
                    assert(before + (seq![entry] + rest) =~= before.push(entry) + rest);
                }
            }
            out.push((key, status));
            i += 1;
        }
        proof {
            assert(model.skip(files@.len() as int).len() == 0);
            assert(scrape_view(out@) + Seq::<(Seq<u8>, StatusModel)>::empty() =~= scrape_view(
                out@,
            ));
        }
        Ok(ScrapeResponse { files: out })
    }
}

} // verus!
