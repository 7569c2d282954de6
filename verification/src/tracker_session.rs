//! Sessions with trackers, as state machines: the caller owns the sockets and
//! the clock, asks what to do next, and reports what came back.

use vstd::prelude::*;
use vstd::string::StringExecFns;
use crate::bencode::digits;
use crate::data::{Endpoint, Event, HttpResponse, TorrentInfo, PROTOCOL_ID};
use crate::entropy::{random_i32, random_u32};
use crate::helpers::{encode, url_text};
use crate::text::push_char;
use crate::udp::{Request, RequestModel, Response};
use crate::urls::{URL_LIMIT, joinable, url_parses, url_with_query, with_query};

verus! {

/// Seconds for which a connection id of a UDP tracker is good.
pub const CONNECTION_LIFETIME: u64 = 60;

/// Tries after which a UDP tracker counts as unreachable.
pub const MAX_TRIES: u8 = 8;

/// Seconds to wait before a tracker is asked again when it named no interval.
pub const DEFAULT_INTERVAL: u64 = 1800;

/// `a + b`, or the largest number where that does not fit.
pub open spec fn plus(a: u64, b: u64) -> u64 {
    if a + b > u64::MAX {
        u64::MAX
    } else {
        (a + b) as u64
    }
}

/// `a + b`, or the greatest number where that would not fit.
pub fn add_seconds(a: u64, b: u64) -> (r: u64)
    ensures
        r == plus(a, b),
{
    if b > u64::MAX - a {
        u64::MAX
    } else {
        a + b
    }
}

/// Seconds to wait for the answer to try number `n`: `15 * 2^n`.
pub open spec fn backoff(n: nat) -> nat
    decreases n,
{
    if n == 0 {
        15
    } else {
        2 * backoff((n - 1) as nat)
    }
}

/// No wait is shorter than 15 seconds or longer than 3840.
pub proof fn lemma_backoff_bound(n: nat)
    requires
        n <= 8,
    ensures
        15 <= backoff(n) <= 3840,
{
    assert(backoff(0) == 15);
    assert(backoff(1) == 30);
    assert(backoff(2) == 60);
    assert(backoff(3) == 120);
    assert(backoff(4) == 240);
    assert(backoff(5) == 480);
    assert(backoff(6) == 960);
    assert(backoff(7) == 1920);
    assert(backoff(8) == 3840);
}

/// Seconds to wait for the answer to try number `n`.
pub fn backoff_seconds(n: u8) -> (r: u64)
    requires
        n <= 8,
    ensures
        r == backoff(n as nat),
{
    let mut r: u64 = 15;
    let mut i: u8 = 0;
    while i < n
        invariant
            i <= n <= 8,
            r == backoff(i as nat),
        decreases n - i,
    {
        proof {
            lemma_backoff_bound(i as nat);
        }
        r = r * 2;
        i += 1;
    }
    r
}

/// Where a session with a UDP tracker stands.
#[derive(Clone, Copy, Debug, PartialEq, Eq, Structural)]
pub enum State {
    /// Nothing was sent yet.
    Disconnected,
    /// A connect with transaction `tid` went out at `sent`, as try `tries`.
    Connecting { tid: i32, tries: u8, sent: u64 },
    /// The tracker gave connection id `cid`, good until `expiry`.
    Connected { cid: i64, expiry: u64 },
    /// An announce under `cid` with transaction `tid` went out at `sent`, as
    /// try `tries`.
    Announcing { cid: i64, expiry: u64, tid: i32, tries: u8, sent: u64 },
    /// The tracker answered an announce at `at` and wants the next one
    /// `interval` later.
    Announced { interval: u64, cid: i64, expiry: u64, at: u64 },
    /// The tracker did not answer, or sent an error, at `at`.
    Errored { at: u64 },
}

/// What the caller is to do for a session.
#[derive(Clone, Copy, Debug, PartialEq, Eq, Structural)]
pub enum Action {
    /// Send a connect request with this transaction id.
    Connect { tid: i32 },
    /// Send an announce under this connection id and transaction id.
    Announce { cid: i64, tid: i32 },
    /// Nothing to do before `until`.
    Wait { until: u64 },
}

/// What a response means to a session.
#[derive(Clone, Debug, PartialEq, Eq)]
pub enum Outcome {
    /// The response is not for this session, or not for what it waits for.
    Dropped,
    /// The connection is made; the next step will announce.
    Connected,
    /// The tracker named these peers.
    Peers(Vec<Endpoint>),
    /// The tracker refused.
    Refused,
}

/// The next state and action of a session in `state` at time `now`, where
/// `tid` is a fresh transaction id and `interval` the time to stay away from
/// a tracker that failed.
pub open spec fn step_model(state: State, now: u64, tid: i32, interval: u64) -> (State, Action) {
    match state {
        State::Disconnected => (
            State::Connecting { tid, tries: 0, sent: now },
            Action::Connect { tid },
        ),
        State::Connecting { tid: waiting, tries, sent } => {
            let deadline = plus(sent, backoff(tries as nat) as u64);
            if tries >= MAX_TRIES {
                (State::Errored { at: now }, Action::Wait { until: plus(now, interval) })
            } else if now < deadline {
                (state, Action::Wait { until: deadline })
            } else if tries + 1 >= MAX_TRIES {
                (State::Errored { at: now }, Action::Wait { until: plus(now, interval) })
            } else {
                (
                    State::Connecting { tid, tries: (tries + 1) as u8, sent: now },
                    Action::Connect { tid },
                )
            }
        },
        State::Connected { cid, expiry } => if now >= expiry {
            (State::Connecting { tid, tries: 0, sent: now }, Action::Connect { tid })
        } else {
            (
                State::Announcing { cid, expiry, tid, tries: 0, sent: now },
                Action::Announce { cid, tid },
            )
        },
        State::Announcing { cid, expiry, tid: waiting, tries, sent } => {
            let deadline = plus(sent, backoff(tries as nat) as u64);
            if tries >= MAX_TRIES {
                (State::Errored { at: now }, Action::Wait { until: plus(now, interval) })
            } else if now < deadline {
                (state, Action::Wait { until: deadline })
            } else if tries + 1 >= MAX_TRIES {
                (State::Errored { at: now }, Action::Wait { until: plus(now, interval) })
            } else if now >= expiry {
                (
                    State::Connecting { tid, tries: (tries + 1) as u8, sent: now },
                    Action::Connect { tid },
                )
            } else {
                (
                    State::Announcing { cid, expiry, tid, tries: (tries + 1) as u8, sent: now },
                    Action::Announce { cid, tid },
                )
            }
        },
        State::Announced { interval: wait, cid, expiry, at } => if now < plus(at, wait) {
            (state, Action::Wait { until: plus(at, wait) })
        } else if now >= expiry {
            (State::Connecting { tid, tries: 0, sent: now }, Action::Connect { tid })
        } else {
            (
                State::Announcing { cid, expiry, tid, tries: 0, sent: now },
                Action::Announce { cid, tid },
            )
        },
        State::Errored { at } => if now < plus(at, interval) {
            (state, Action::Wait { until: plus(at, interval) })
        } else {
            (State::Connecting { tid, tries: 0, sent: now }, Action::Connect { tid })
        },
    }
}

/// Whether `response` is the answer that a session in `state` waits for: it
/// carries the transaction id of the request that went out last, and it is
/// the answer to that kind of request or an error.
pub open spec fn answers(state: State, response: crate::udp::ResponseModel) -> bool {
    match (state, response) {
        (
            State::Connecting { tid, .. },
            crate::udp::ResponseModel::Connect { tid: answered, .. },
        ) => tid == answered,
        (
            State::Announcing { tid, .. },
            crate::udp::ResponseModel::Announce { tid: answered, .. },
        ) => tid == answered,
        (State::Connecting { tid, .. }, crate::udp::ResponseModel::Error { tid: answered, .. }) => {
            tid == answered
        },
        (State::Announcing { tid, .. }, crate::udp::ResponseModel::Error { tid: answered, .. }) => {
            tid == answered
        },
        _ => false,
    }
}

/// The state of a session in `state` after `response` came from the tracker
/// at `now`. A response that is not the answer awaited leaves the state as
/// it is.
pub open spec fn receive_model(state: State, response: crate::udp::ResponseModel, now: u64) -> State {
    match (state, response) {
        (
            State::Connecting { tid, .. },
            crate::udp::ResponseModel::Connect { tid: answered, cid },
        ) => if tid == answered {
            State::Connected { cid, expiry: plus(now, CONNECTION_LIFETIME) }
        } else {
            state
        },
        (
            State::Announcing { cid, expiry, tid, .. },
            crate::udp::ResponseModel::Announce { tid: answered, interval, .. },
        ) => if tid == answered {
            State::Announced {
                interval: if interval > 0 {
                    interval as u64
                } else {
                    DEFAULT_INTERVAL
                },
                cid,
                expiry,
                at: now,
            }
        } else {
            state
        },
        (State::Connecting { tid, .. }, crate::udp::ResponseModel::Error { tid: answered, .. }) => {
            if tid == answered {
                State::Errored { at: now }
            } else {
                state
            }
        },
        (State::Announcing { tid, .. }, crate::udp::ResponseModel::Error { tid: answered, .. }) => {
            if tid == answered {
                State::Errored { at: now }
            } else {
                state
            }
        },
        _ => state,
    }
}

/// What an announce tells the tracker.
#[derive(Clone, Debug, PartialEq, Eq)]
pub struct Parameters {
    pub info_hash: [u8; 20],
    pub peer_id: [u8; 20],
    pub port: u16,
    pub uploaded: u64,
    pub downloaded: u64,
    pub left: u64,
    pub compact: bool,
    pub no_peer_id: bool,
    pub event: Event,
    pub ip: Option<Endpoint>,
    pub numwant: u8,
    pub key: Option<u32>,
    pub tracker_id: Option<String>,
}

impl Parameters {
    /// What to tell about a torrent of which nothing is here yet.
    pub fn try_from(info: &TorrentInfo, peer_id: [u8; 20]) -> (p: Parameters)
        ensures
            p.info_hash == info.hash,
            p.peer_id == peer_id,
            p.port == crate::BITTORRENT_PORT,
            p.uploaded == 0 && p.downloaded == 0,
            p.left == if info@.length() <= u64::MAX {
                info@.length()
            } else {
                u64::MAX as int
            },
            !p.compact && !p.no_peer_id,
            p.event == Event::Inactive,
            p.ip is None && p.key is None && p.tracker_id is None,
            p.numwant == 50,
    {
        Parameters {
            info_hash: info.hash,
            peer_id,
            port: crate::BITTORRENT_PORT,
            uploaded: 0,
            downloaded: 0,
            left: info.length(),
            compact: false,
            no_peer_id: false,
            event: Event::Inactive,
            ip: None,
            numwant: 50,
            key: None,
            tracker_id: None,
        }
    }

    /// Notes the id that the tracker gave for what follows.
    pub fn tracker_id(&mut self, tracker_id: String)
        ensures
            final(self).tracker_id == Some(tracker_id),
            final(self).info_hash == old(self).info_hash,
            final(self).peer_id == old(self).peer_id,
            final(self).port == old(self).port,
            final(self).uploaded == old(self).uploaded,
            final(self).downloaded == old(self).downloaded,
            final(self).left == old(self).left,
            final(self).compact == old(self).compact,
            final(self).no_peer_id == old(self).no_peer_id,
            final(self).event == old(self).event,
            final(self).ip == old(self).ip,
            final(self).numwant == old(self).numwant,
            final(self).key == old(self).key,
    {
        self.tracker_id = Some(tracker_id);
    }

    /// Takes what a tracker answered: the id that it names, if it names
    /// one, goes out with the announces that follow.
    pub fn heard(&mut self, response: &HttpResponse)
        ensures
            *final(self) == (Parameters {
                tracker_id: if response.tracker_id@.len() > 0 {
                    Some(response.tracker_id)
                } else {
                    old(self).tracker_id
                },
                ..*old(self)
            }),
    {
        if response.tracker_id.as_str().unicode_len() > 0 {
            self.tracker_id = Some(response.tracker_id.clone());
        }
    }
}

/// A session with one UDP tracker.
#[derive(Clone, Debug, PartialEq, Eq)]
pub struct UdpSession {
    pub dst: Endpoint,
    pub state: State,
    /// Seconds to stay away from the tracker after it failed.
    pub interval: u64,
    /// The key that tells the tracker who we are across address changes.
    pub key: u32,
}

/// The packet that goes out for an action: a connect request, an announce
/// with what `p` tells under the session's `key`, or nothing while the
/// session waits. An announce asks for as many peers as the tracker likes
/// to give and leaves the address to it.
pub open spec fn packet_for(action: Action, p: Parameters, key: u32) -> Option<RequestModel> {
    match action {
        Action::Connect { tid } => Some(RequestModel::Connect { cid: PROTOCOL_ID, tid }),
        Action::Announce { cid, tid } => Some(
            RequestModel::Announce {
                cid,
                tid,
                info_hash: p.info_hash@,
                peer_id: p.peer_id@,
                downloaded: p.downloaded,
                left: p.left,
                uploaded: p.uploaded,
                event: p.event,
                ip: 0,
                key,
                num_want: -1i32,
                port: p.port,
            },
        ),
        Action::Wait { .. } => None,
    }
}

impl UdpSession {
    /// A session with the tracker at `dst` that has sent nothing yet.
    pub fn new(dst: Endpoint) -> (s: UdpSession)
        ensures
            s.dst == dst,
            s.state == State::Disconnected,
            s.interval == DEFAULT_INTERVAL,
    {
        UdpSession { dst, state: State::Disconnected, interval: DEFAULT_INTERVAL, key: random_u32() }
    }

    /// What to do at `now`, with `tid` as the transaction id of a request
    /// that goes out.
    pub fn step(&mut self, now: u64, tid: i32) -> (a: Action)
        ensures
            (final(self).state, a) == step_model(old(self).state, now, tid, old(self).interval),
            final(self).dst == old(self).dst,
            final(self).interval == old(self).interval,
            final(self).key == old(self).key,
    {
        let (next, action): (State, Action) = match self.state {
            State::Disconnected => (
                State::Connecting { tid, tries: 0, sent: now },
                Action::Connect { tid },
            ),
            State::Connecting { tid: _, tries, sent } => {
                if tries >= MAX_TRIES {
                    (
                        State::Errored { at: now },
                        Action::Wait { until: add_seconds(now, self.interval) },
                    )
                } else {
                    let deadline: u64 = add_seconds(sent, backoff_seconds(tries));
                    if now < deadline {
                        (self.state, Action::Wait { until: deadline })
                    } else if tries + 1 >= MAX_TRIES {
                        (
                            State::Errored { at: now },
                            Action::Wait { until: add_seconds(now, self.interval) },
                        )
                    } else {
                        (
                            State::Connecting { tid, tries: tries + 1, sent: now },
                            Action::Connect { tid },
                        )
                    }
                }
            },
            State::Connected { cid, expiry } => {
                if now >= expiry {
                    (State::Connecting { tid, tries: 0, sent: now }, Action::Connect { tid })
                } else {
                    (
                        State::Announcing { cid, expiry, tid, tries: 0, sent: now },
                        Action::Announce { cid, tid },
                    )
                }
            },
            State::Announcing { cid, expiry, tid: _, tries, sent } => {
                if tries >= MAX_TRIES {
                    (
                        State::Errored { at: now },
                        Action::Wait { until: add_seconds(now, self.interval) },
                    )
                } else {
                    let deadline: u64 = add_seconds(sent, backoff_seconds(tries));
                    if now < deadline {
                        (self.state, Action::Wait { until: deadline })
                    } else if tries + 1 >= MAX_TRIES {
                        (
                            State::Errored { at: now },
                            Action::Wait { until: add_seconds(now, self.interval) },
                        )
                    } else if now >= expiry {
                        (
                            State::Connecting { tid, tries: tries + 1, sent: now },
                            Action::Connect { tid },
                        )
                    } else {
                        (
                            State::Announcing { cid, expiry, tid, tries: tries + 1, sent: now },
                            Action::Announce { cid, tid },
                        )
                    }
                }
            },
            State::Announced { interval, cid, expiry, at } => {
                let due: u64 = add_seconds(at, interval);
                if now < due {
                    (self.state, Action::Wait { until: due })
                } else if now >= expiry {
                    (State::Connecting { tid, tries: 0, sent: now }, Action::Connect { tid })
                } else {
                    (
                        State::Announcing { cid, expiry, tid, tries: 0, sent: now },
                        Action::Announce { cid, tid },
                    )
                }
            },
            State::Errored { at } => {
                let due: u64 = add_seconds(at, self.interval);
                if now < due {
                    (self.state, Action::Wait { until: due })
                } else {
                    (State::Connecting { tid, tries: 0, sent: now }, Action::Connect { tid })
                }
            },
        };
        self.state = next;
        action
    }

    /// What to do at `now`; a request that goes out gets a random
    /// transaction id.
    pub fn poll(&mut self, now: u64) -> (a: Action)
        ensures
            exists|tid: i32|
                (final(self).state, a) == #[trigger] step_model(
                    old(self).state,
                    now,
                    tid,
                    old(self).interval,
                ),
            final(self).dst == old(self).dst,
            final(self).interval == old(self).interval,
            final(self).key == old(self).key,
    {
        let tid: i32 = random_i32();
        let a = self.step(now, tid);
        assert((self.state, a) == step_model(old(self).state, now, tid, old(self).interval));
        a
    }

    /// The packet that `action` asks to send, if it asks for one.
    pub fn request(&self, action: &Action, p: &Parameters) -> (r: Option<Request>)
        ensures
            match packet_for(*action, *p, self.key) {
                Some(m) => r matches Some(q) && q@ == m,
                None => r is None,
            },
    {
        match *action {
            Action::Connect { tid } => Some(Request::Connect { cid: PROTOCOL_ID, tid }),
            Action::Announce { cid, tid } => Some(
                Request::Announce {
                    cid,
                    tid,
                    info_hash: p.info_hash,
                    peer_id: p.peer_id,
                    downloaded: p.downloaded,
                    left: p.left,
                    uploaded: p.uploaded,
                    event: p.event,
                    ip: 0,
                    key: self.key,
                    num_want: -1,
                    port: p.port,
                },
            ),
            Action::Wait { .. } => None,
        }
    }

    /// Takes in a response that came from `from` at `now`. One from another
    /// address than the tracker's, or one that is not the answer awaited, is
    /// dropped; the answer awaited connects the session, names peers, or
    /// tells that the tracker refused.
    pub fn receive(&mut self, from: Endpoint, response: Response, now: u64) -> (r: Outcome)
        ensures
            final(self).dst == old(self).dst,
            final(self).interval == old(self).interval,
            final(self).key == old(self).key,
            final(self).state == (if from == old(self).dst {
                receive_model(old(self).state, response@, now)
            } else {
                old(self).state
            }),
            match r {
                Outcome::Dropped => !(from == old(self).dst && answers(old(self).state, response@)),
                Outcome::Connected => from == old(self).dst && answers(
                    old(self).state,
                    response@,
                ) && response@ is Connect,
                Outcome::Peers(peers) => from == old(self).dst && answers(
                    old(self).state,
                    response@,
                ) && response@ is Announce && peers@ == response@->Announce_peers,
                Outcome::Refused => from == old(self).dst && answers(old(self).state, response@)
                    && response@ is Error,
            },
    {
        if !(from.ip == self.dst.ip && from.port == self.dst.port) {
            return Outcome::Dropped;
        }
        match (self.state, response) {
            (State::Connecting { tid, tries, sent }, Response::Connect { tid: answered, cid }) => {
                if tid == answered {
                    self.state = State::Connected {
                        cid,
                        expiry: add_seconds(now, CONNECTION_LIFETIME),
                    };
                    Outcome::Connected
                } else {
                    Outcome::Dropped
                }
            },
            (
                State::Announcing { cid, expiry, tid, tries, sent },
                Response::Announce { tid: answered, interval, leechers, seeders, peers },
            ) => {
                if tid == answered {
                    self.state = State::Announced {
                        interval: if interval > 0 {
                            interval as u64
                        } else {
                            DEFAULT_INTERVAL
                        },
                        cid,
                        expiry,
                        at: now,
                    };
                    Outcome::Peers(peers)
                } else {
                    Outcome::Dropped
                }
            },
            (State::Connecting { tid, tries, sent }, Response::Error { tid: answered, error }) => {
                if tid == answered {
                    self.state = State::Errored { at: now };
                    Outcome::Refused
                } else {
                    Outcome::Dropped
                }
            },
            (
                State::Announcing { cid, expiry, tid, tries, sent },
                Response::Error { tid: answered, error },
            ) => {
                if tid == answered {
                    self.state = State::Errored { at: now };
                    Outcome::Refused
                } else {
                    Outcome::Dropped
                }
            },
            _ => Outcome::Dropped,
        }
    }
}

/// A connection id that was given at `connected` is stale 61 seconds later:
/// the step taken then sends a connect, not an announce.
pub proof fn lemma_stale_connection_reconnects(
    before: State,
    tid_sent: i32,
    cid: i64,
    connected: u64,
    now: u64,
    tid: i32,
    interval: u64,
)
    requires
        before matches State::Connecting { tid: t, .. } && t == tid_sent,
        connected + 61 <= now,
    ensures
        ({
            let state = receive_model(
                before,
                crate::udp::ResponseModel::Connect { tid: tid_sent, cid },
                connected,
            );
            &&& state == (State::Connected { cid, expiry: plus(connected, CONNECTION_LIFETIME) })
            &&& step_model(state, now, tid, interval).1 == (Action::Connect { tid })
            &&& step_model(state, now, tid, interval).0 is Connecting
        }),
{
}

/// The decimal spelling of `n`, as text.
pub open spec fn decimal(n: nat) -> Seq<char> {
    Seq::new(digits(n).len(), |i: int| digits(n)[i] as char)
}

/// A flag as it stands in a query: `1` or `0`.
pub open spec fn flag(b: bool) -> Seq<char> {
    if b {
        "1"@
    } else {
        "0"@
    }
}

/// How an event is told in a query; nothing for no event.
pub open spec fn event_text(e: Event) -> Seq<char> {
    match e {
        Event::Inactive => Seq::empty(),
        Event::Completed => "&event=completed"@,
        Event::Started => "&event=started"@,
        Event::Stopped => "&event=stopped"@,
    }
}

/// How the tracker id is told in a query; nothing while none was given.
pub open spec fn tracker_id_text(t: Option<String>) -> Seq<char> {
    match t {
        Some(id) => "&trackerid="@ + url_text(vstd::utf8::encode_utf8(id@)),
        None => Seq::empty(),
    }
}

/// The query of an announce over HTTP.
pub open spec fn query_text(p: &Parameters) -> Seq<char> {
    "info_hash="@ + url_text(p.info_hash@) + "&peer_id="@ + url_text(p.peer_id@) + "&port="@
        + decimal(p.port as nat) + "&uploaded="@ + decimal(p.uploaded as nat) + "&downloaded="@
        + decimal(p.downloaded as nat) + "&left="@ + decimal(p.left as nat) + "&compact="@ + flag(
        p.compact,
    ) + "&no_peer_id="@ + flag(p.no_peer_id) + "&numwant="@ + decimal(p.numwant as nat)
        + event_text(p.event) + tracker_id_text(p.tracker_id)
}

/// Appends the decimal spelling of `n`.
pub fn push_decimal(out: &mut String, n: u64)
    ensures
        final(out)@ == old(out)@ + decimal(n as nat),
    decreases n,
{
    if n < 10 {
        push_char(out, (48 + n as u8) as char);
        proof {
            assert(out@ =~= old(out)@ + decimal(n as nat));
        }
    } else {
        push_decimal(out, n / 10);
        push_char(out, (48 + (n % 10) as u8) as char);
        proof {
            assert(out@ =~= old(out)@ + decimal(n as nat));
        }
    }
}

fn push_flag(out: &mut String, b: bool)
    ensures
        final(out)@ == old(out)@ + flag(b),
{
    if b {
        out.append("1");
    } else {
        out.append("0");
    }
}

/// The query of an announce over HTTP.
pub fn query(p: &Parameters) -> (r: String)
    ensures
        r@ == query_text(p),
{
    let mut out = String::new();
    out.append("info_hash=");
    let hash = encode(p.info_hash.as_slice());
    out.append(hash.as_str());
    out.append("&peer_id=");
    let id = encode(p.peer_id.as_slice());
    out.append(id.as_str());
    out.append("&port=");
    push_decimal(&mut out, p.port as u64);
    out.append("&uploaded=");
    push_decimal(&mut out, p.uploaded);
    out.append("&downloaded=");
    push_decimal(&mut out, p.downloaded);
    out.append("&left=");
    push_decimal(&mut out, p.left);
    out.append("&compact=");
    push_flag(&mut out, p.compact);
    out.append("&no_peer_id=");
    push_flag(&mut out, p.no_peer_id);
    out.append("&numwant=");
    push_decimal(&mut out, p.numwant as u64);
    match p.event {
        Event::Inactive => {},
        Event::Completed => {
            out.append("&event=completed");
        },
        Event::Started => {
            out.append("&event=started");
        },
        Event::Stopped => {
            out.append("&event=stopped");
        },
    }
    let ghost before_id = out@;
    assert(before_id =~= "info_hash="@ + url_text(p.info_hash@) + "&peer_id="@ + url_text(
        p.peer_id@,
    ) + "&port="@ + decimal(p.port as nat) + "&uploaded="@ + decimal(p.uploaded as nat)
        + "&downloaded="@ + decimal(p.downloaded as nat) + "&left="@ + decimal(p.left as nat)
        + "&compact="@ + flag(p.compact) + "&no_peer_id="@ + flag(p.no_peer_id) + "&numwant="@
        + decimal(p.numwant as nat) + event_text(p.event));
    match &p.tracker_id {
        Some(id) => {
            out.append("&trackerid=");
            let text = encode(id.as_str().as_bytes());
            out.append(text.as_str());
            assert(out@ =~= before_id + tracker_id_text(p.tracker_id));
        },
        None => {
            assert(out@ =~= before_id + tracker_id_text(p.tracker_id));
        },
    }
    out
}

/// Where a session with an HTTP tracker stands.
#[derive(Clone, Copy, Debug, PartialEq, Eq, Structural)]
pub enum HttpState {
    /// Nothing was asked yet.
    Fresh,
    /// The tracker was asked at `since`; the next announce is due `wait`
    /// later.
    Waiting { since: u64, wait: u64 },
    /// The tracker gave a failure reason; the session is over.
    Dead,
}

/// What the caller is to do for an HTTP session.
#[derive(Clone, Copy, Debug, PartialEq, Eq, Structural)]
pub enum HttpAction {
    /// Announce with this event.
    Announce { event: Event },
    /// Nothing to do before `until`.
    Wait { until: u64 },
    /// Nothing to do any more.
    Stop,
}

/// A session with one HTTP tracker.
#[derive(Clone, Debug, PartialEq, Eq)]
pub struct HttpSession {
    pub dst: String,
    pub state: HttpState,
    /// Whether an announce was answered, so that leaving is to be told.
    pub started: bool,
    /// Seconds between announces, as the tracker last named them.
    pub interval: u64,
}

impl HttpSession {
    /// A session with the tracker at `dst` that has asked nothing yet.
    pub fn connect(dst: String) -> (s: HttpSession)
        ensures
            s.dst == dst,
            s.state == HttpState::Fresh,
            !s.started,
            s.interval == DEFAULT_INTERVAL,
    {
        HttpSession { dst, state: HttpState::Fresh, started: false, interval: DEFAULT_INTERVAL }
    }

    /// The URL to get for an announce: the tracker's, with the query of `p`.
    /// `None` where the tracker's URL is none that the URL parser takes, and
    /// where the URL or the query is longer than `URL_LIMIT` bytes.
    pub fn build_request(&self, p: &Parameters) -> (r: Option<String>)
        ensures
            r is Some <==> joinable(self.dst@, query_text(p)) && url_parses(self.dst@),
            r matches Some(u) ==> u@ == url_with_query(self.dst@, query_text(p)),
    {
        let q = query(p);
        if self.dst.as_str().as_bytes().len() > URL_LIMIT || q.as_str().as_bytes().len()
            > URL_LIMIT {
            return None;
        }
        with_query(self.dst.as_str(), q.as_str())
    }

    /// What to do at `now`: the first announce tells that the download
    /// started; later ones come when the time the tracker asked for is over.
    pub fn next(&self, now: u64) -> (a: HttpAction)
        ensures
            a == match self.state {
                HttpState::Fresh => HttpAction::Announce { event: Event::Started },
                HttpState::Waiting { since, wait } => if now < plus(since, wait) {
                    HttpAction::Wait { until: plus(since, wait) }
                } else {
                    HttpAction::Announce { event: Event::Inactive }
                },
                HttpState::Dead => HttpAction::Stop,
            },
    {
        match self.state {
            HttpState::Fresh => HttpAction::Announce { event: Event::Started },
            HttpState::Waiting { since, wait } => {
                let due: u64 = add_seconds(since, wait);
                if now < due {
                    HttpAction::Wait { until: due }
                } else {
                    HttpAction::Announce { event: Event::Inactive }
                }
            },
            HttpState::Dead => HttpAction::Stop,
        }
    }

    /// Takes in the tracker's answer that came at `now`. A failure reason
    /// ends the session; any other answer sets the time of the next
    /// announce: `min interval` where there is one, else `interval`.
    pub fn answered(&mut self, response: &HttpResponse, now: u64)
        ensures
            final(self).dst == old(self).dst,
            response.failure_reason is Some ==> final(self).state == HttpState::Dead && final(self).started == old(self).started && final(self).interval == old(self).interval,
            response.failure_reason is None ==> final(self).started && final(self).interval
                == response.interval && final(self).state == (HttpState::Waiting {
                since: now,
                wait: match response.min_interval {
                    Some(m) => m,
                    None => response.interval,
                },
            }),
    {
        if response.failure_reason.is_some() {
            self.state = HttpState::Dead;
        } else {
            self.started = true;
            self.interval = response.interval;
            self.state = HttpState::Waiting { since: now, wait: response.wait() };
        }
    }

    /// Notes that the announce sent at `now` got no answer: the next try
    /// comes an interval later. A session that is over stays over.
    pub fn failed(&mut self, now: u64)
        ensures
            final(self).dst == old(self).dst,
            final(self).started == old(self).started,
            final(self).interval == old(self).interval,
            final(self).state == (if old(self).state == HttpState::Dead {
                HttpState::Dead
            } else {
                HttpState::Waiting { since: now, wait: old(self).interval }
            }),
    {
        match self.state {
            HttpState::Dead => {},
            _ => {
                self.state = HttpState::Waiting { since: now, wait: self.interval };
            },
        }
    }

    /// The event to tell the tracker when the download is shut down:
    /// `stopped`, if the tracker ever heard of it.
    pub fn shutdown(&self) -> (r: Option<Event>)
        ensures
            r == if self.started {
                Some(Event::Stopped)
            } else {
                None
            },
    {
        if self.started {
            Some(Event::Stopped)
        } else {
            None
        }
    }
}

} // verus!
