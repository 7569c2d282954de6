//! The trackers of one torrent: their sessions, and the peers they name.

use vstd::prelude::*;
use std::collections::HashMap;
use crate::data::{Endpoint, Peer, TorrentInfo};
use crate::piece_manager::manager::{endpoint_key, key_of};
use crate::tracker_session::{Action, HttpSession, Outcome, Parameters, UdpSession, answers, packet_for, receive_model, step_model};
use crate::udp::{Request, Response, response_value};

verus! {

/// Whether one of the first `n` of `peers` has the address `addr`.
pub open spec fn seen(peers: Seq<Peer>, n: int, addr: Endpoint) -> bool {
    exists|j: int| 0 <= j < n && j < peers.len() && (#[trigger] peers[j]).addr == addr
}

/// The first `n` of `peers` without those whose address came before.
pub open spec fn first_seen(peers: Seq<Peer>, n: int) -> Seq<Peer>
    decreases n,
{
    if n <= 0 {
        Seq::empty()
    } else if seen(peers, n - 1, peers[n - 1].addr) {
        first_seen(peers, n - 1)
    } else {
        first_seen(peers, n - 1).push(peers[n - 1])
    }
}

/// What `first_seen` keeps names each address of the list once.
pub proof fn lemma_first_seen(peers: Seq<Peer>, n: int)
    requires
        0 <= n <= peers.len(),
    ensures
        forall|a: int, b: int|
            0 <= a < b < first_seen(peers, n).len() ==> first_seen(peers, n)[a].addr
                != first_seen(peers, n)[b].addr,
        forall|addr: Endpoint|
            seen(peers, n, addr) <==> seen(
                first_seen(peers, n),
                first_seen(peers, n).len() as int,
                addr,
            ),
    decreases n,
{
    if n > 0 {
        lemma_first_seen(peers, n - 1);
        let prev = first_seen(peers, n - 1);
        let cur = first_seen(peers, n);
        let last = peers[n - 1];
        assert forall|addr: Endpoint| seen(peers, n, addr) <==> seen(
            cur,
            cur.len() as int,
            addr,
        ) by {
            assert(seen(peers, n - 1, addr) <==> seen(prev, prev.len() as int, addr));
            if seen(peers, n, addr) {
                let j = choose|j: int| 0 <= j < n && j < peers.len() && (#[trigger] peers[j]).addr
                    == addr;
                if j < n - 1 {
                    assert(seen(peers, n - 1, addr));
                    let k = choose|k: int|
                        0 <= k < prev.len() && k < prev.len() && (#[trigger] prev[k]).addr == addr;
                    assert(cur[k].addr == addr);
                } else if seen(peers, n - 1, last.addr) {
                    let k = choose|k: int|
                        0 <= k < prev.len() && k < prev.len() && (#[trigger] prev[k]).addr == addr;
                    assert(cur[k].addr == addr);
                } else {
                    assert(cur[cur.len() - 1].addr == addr);
                }
            }
            if seen(cur, cur.len() as int, addr) {
                let k = choose|k: int|
                    0 <= k < cur.len() && k < cur.len() && (#[trigger] cur[k]).addr == addr;
                if k < prev.len() {
                    assert(prev[k].addr == addr);
                    assert(seen(prev, prev.len() as int, addr));
                    assert(seen(peers, n - 1, addr));
                    let j = choose|j: int|
                        0 <= j < n - 1 && j < peers.len() && (#[trigger] peers[j]).addr == addr;
                    assert(peers[j].addr == addr);
                } else {
                    assert(peers[n - 1].addr == addr);
                }
            }
        }
        if !seen(peers, n - 1, last.addr) {
            assert forall|a: int, b: int| 0 <= a < b < cur.len() implies cur[a].addr
                != cur[b].addr by {
                if b == cur.len() - 1 {
                    if cur[a].addr == last.addr {
                        assert(prev[a].addr == last.addr);
                        assert(seen(prev, prev.len() as int, last.addr));
                    }
                }
            }
        }
    }
}

/// The peers of a list, each address once: of peers with the same address
/// the first stays.
pub fn dedup(peers: Vec<Peer>) -> (r: Vec<Peer>)
    ensures
        r@ == first_seen(peers@, peers@.len() as int),
{
    let mut out: Vec<Peer> = Vec::new();
    let mut rest = peers;
    let ghost all = rest@;
    let n: usize = rest.len();
    let mut i: usize = 0;
    while i < n
        invariant
            i <= n,
            n == all.len(),
            rest@.len() == n - i,
            forall|j: int| 0 <= j < n - i ==> rest@[j] == all[i + j],
            out@ == first_seen(all, i as int),
        decreases n - i,
    {
        let peer = rest.remove(0);
        assert(peer == all[i as int]);
        let mut known: bool = false;
        let mut k: usize = 0;
        proof {
            lemma_first_seen(all, i as int);
        }
        while k < out.len()
            invariant
                k <= out@.len(),
                known == seen(out@, k as int, peer.addr),
            decreases out@.len() - k,
        {
            if out[k].addr == peer.addr {
                known = true;
            }
            k += 1;
        }
        if !known {
            out.push(peer);
        }
        i += 1;
    }
    out
}

/// The sessions with the UDP trackers of a torrent, by tracker address.
pub struct UdpTracker {
    pub session_map: HashMap<u64, UdpSession>,
    pub hash: [u8; 20],
    pub length: u64,
}

impl UdpTracker {
    /// Every session is filed under the address of its tracker.
    pub open spec fn wf(&self) -> bool {
        forall|k: u64| #[trigger]
            self.session_map@.contains_key(k) ==> key_of(self.session_map@[k].dst) == k
    }

    /// Fresh sessions with the trackers at `trackers`, one for each address.
    pub fn new(trackers: &Vec<Endpoint>, hash: [u8; 20], length: u64) -> (t: UdpTracker)
        ensures
            t.wf(),
            t.hash == hash,
            t.length == length,
            forall|k: u64|
                t.session_map@.contains_key(k) <==> exists|i: int|
                    0 <= i < trackers@.len() && key_of(#[trigger] trackers@[i]) == k,
            forall|k: u64| #[trigger]
                t.session_map@.contains_key(k) ==> t.session_map@[k].state
                    == crate::tracker_session::State::Disconnected,
    {
        let mut session_map: HashMap<u64, UdpSession> = HashMap::new();
        let mut i: usize = 0;
        while i < trackers.len()
            invariant
                i <= trackers@.len(),
                forall|k: u64| #[trigger]
                    session_map@.contains_key(k) ==> key_of(session_map@[k].dst) == k
                        && session_map@[k].state == crate::tracker_session::State::Disconnected,
                forall|k: u64|
                    session_map@.contains_key(k) <==> exists|j: int|
                        0 <= j < i && key_of(#[trigger] trackers@[j]) == k,
            decreases trackers@.len() - i,
        {
            let dst: Endpoint = trackers[i];
            let key: u64 = endpoint_key(&dst);
            let ghost before = session_map@;
            session_map.insert(key, UdpSession::new(dst));
            proof {
                assert forall|k: u64| session_map@.contains_key(k) <==> exists|j: int|
                    0 <= j < i + 1 && key_of(#[trigger] trackers@[j]) == k by {
                    if session_map@.contains_key(k) {
                        if k == key {
                            assert(key_of(trackers@[i as int]) == k);
                        } else {
                            assert(before.contains_key(k));
                            let j = choose|j: int|
                                0 <= j < i && key_of(#[trigger] trackers@[j]) == k;
                            assert(0 <= j < i + 1);
                        }
                    }
                    if exists|j: int| 0 <= j < i + 1 && key_of(#[trigger] trackers@[j]) == k {
                        let j = choose|j: int|
                            0 <= j < i + 1 && key_of(#[trigger] trackers@[j]) == k;
                        if j < i {
                            assert(before.contains_key(k));
                        }
                    }
                }
            }
            i += 1;
        }
        UdpTracker { session_map, hash, length }
    }

    /// Hands a datagram that came from `from` at `now` to the session with
    /// that tracker. A datagram from an address that is no tracker of ours,
    /// or one that is no response packet, is dropped.
    pub fn listen(&mut self, from: Endpoint, datagram: &[u8], now: u64) -> (r: Outcome)
        requires
            old(self).wf(),
        ensures
            final(self).wf(),
            final(self).hash == old(self).hash,
            final(self).length == old(self).length,
            final(self).session_map@.dom() == old(self).session_map@.dom(),
            forall|k: u64|
                k != key_of(from) && old(self).session_map@.contains_key(k) ==> final(self).session_map@[k] == old(self).session_map@[k],
            !old(self).session_map@.contains_key(key_of(from)) || response_value(datagram@)
                is Err ==> r == Outcome::Dropped && final(self).session_map@ == old(self).session_map@,
            old(self).session_map@.contains_key(key_of(from)) && response_value(datagram@)
                is Ok ==> {
                let was = old(self).session_map@[key_of(from)];
                let is_now = final(self).session_map@[key_of(from)];
                &&& is_now.dst == was.dst
                &&& is_now.interval == was.interval
                &&& is_now.key == was.key
                &&& is_now.state == receive_model(
                    was.state,
                    response_value(datagram@)->Ok_0,
                    now,
                )
                &&& match r {
                    Outcome::Dropped => !answers(was.state, response_value(datagram@)->Ok_0),
                    Outcome::Connected => answers(was.state, response_value(datagram@)->Ok_0)
                        && response_value(datagram@)->Ok_0 is Connect,
                    Outcome::Peers(peers) => answers(was.state, response_value(datagram@)->Ok_0)
                        && response_value(datagram@)->Ok_0 is Announce && peers@
                        == response_value(datagram@)->Ok_0->Announce_peers,
                    Outcome::Refused => answers(was.state, response_value(datagram@)->Ok_0)
                        && response_value(datagram@)->Ok_0 is Error,
                }
            },
    {
        let key: u64 = endpoint_key(&from);
        if !self.session_map.contains_key(&key) {
            return Outcome::Dropped;
        }
        let response = match Response::to_response(datagram) {
            Ok(r) => r,
            Err(_) => {
                return Outcome::Dropped;
            },
        };
        let ghost before = self.session_map@;
        let mut session = match self.session_map.remove(&key) {
            Some(s) => s,
            None => {
                return Outcome::Dropped;
            },
        };
        proof {
            crate::piece_manager::manager::lemma_key_injective(session.dst, from);
        }
        let outcome = session.receive(from, response, now);
        self.session_map.insert(key, session);
        proof {
            assert(self.session_map@.dom() =~= before.dom());
        }
        outcome
    }

    /// Lets the session with the tracker at `dst` take its next step at
    /// `now`: what it is to do, and the packet to send for it, if there is
    /// one. Nothing for an address that is no tracker of ours. The other
    /// sessions stay as they are.
    pub fn poll(&mut self, dst: Endpoint, now: u64, p: &Parameters) -> (r: Option<
        (Action, Option<Request>),
    >)
        requires
            old(self).wf(),
        ensures
            final(self).wf(),
            final(self).hash == old(self).hash,
            final(self).length == old(self).length,
            final(self).session_map@.dom() == old(self).session_map@.dom(),
            forall|k: u64|
                k != key_of(dst) && old(self).session_map@.contains_key(k) ==> final(self).session_map@[k] == old(self).session_map@[k],
            r is Some <==> old(self).session_map@.contains_key(key_of(dst)),
            r is None ==> final(self).session_map@ == old(self).session_map@,
            r matches Some((action, packet)) ==> {
                let was = old(self).session_map@[key_of(dst)];
                let is_now = final(self).session_map@[key_of(dst)];
                &&& is_now.dst == was.dst
                &&& is_now.interval == was.interval
                &&& is_now.key == was.key
                &&& exists|tid: i32|
                    (is_now.state, action) == #[trigger] step_model(
                        was.state,
                        now,
                        tid,
                        was.interval,
                    )
                &&& match packet_for(action, *p, was.key) {
                    Some(m) => packet matches Some(q) && q@ == m,
                    None => packet is None,
                }
            },
    {
        let key: u64 = endpoint_key(&dst);
        let ghost before = self.session_map@;
        let mut session = match self.session_map.remove(&key) {
            Some(s) => s,
            None => {
                assert(self.session_map@ =~= before);
                return None;
            },
        };
        let action = session.poll(now);
        let packet = session.request(&action, p);
        self.session_map.insert(key, session);
        proof {
            assert(self.session_map@.dom() =~= before.dom());
        }
        Some((action, packet))
    }
}

/// The sessions with the HTTP trackers of a torrent, and what to tell them.
pub struct HttpTracker {
    pub parameters: Parameters,
    pub trackers: Vec<HttpSession>,
}

impl HttpTracker {
    /// Fresh sessions with the HTTP trackers of `info`.
    pub fn new(info: &TorrentInfo, peer_id: [u8; 20]) -> (t: HttpTracker)
        ensures
            t.trackers@.len() == info.announce.http@.len(),
            forall|i: int|
                0 <= i < t.trackers@.len() ==> (#[trigger] t.trackers@[i]).dst@
                    == info.announce.http@[i]@ && t.trackers@[i].state
                    == crate::tracker_session::HttpState::Fresh,
            t.parameters.info_hash == info.hash,
            t.parameters.peer_id == peer_id,
    {
        let parameters = Parameters::try_from(info, peer_id);
        let mut trackers: Vec<HttpSession> = Vec::new();
        let mut i: usize = 0;
        while i < info.announce.http.len()
            invariant
                i <= info.announce.http@.len(),
                trackers@.len() == i,
                forall|j: int|
                    0 <= j < i ==> (#[trigger] trackers@[j]).dst@ == info.announce.http@[j]@
                        && trackers@[j].state == crate::tracker_session::HttpState::Fresh,
            decreases info.announce.http@.len() - i,
        {
            trackers.push(HttpSession::connect(info.announce.http[i].clone()));
            i += 1;
        }
        HttpTracker { parameters, trackers }
    }
}

} // verus!
