//! One peer connection, as a state machine: what a received message does to
//! our picture of the peer, and when to speak up or hang up.

use vstd::prelude::*;
use crate::framing::{ParseCheck, ParseError};
use crate::piece_manager::BitField;
use crate::piece_map::{valid_bitfield, wire_bits};
use crate::pwp::{Handshake, HandshakeModel, Message, MessageModel, State, handshake_value, message_len, message_value};
use crate::tracker_session::{add_seconds, plus};

verus! {

/// Seconds of silence on our side after which a keep-alive goes out.
pub const KEEP_ALIVE_AFTER: u64 = 120;

/// Seconds of silence on the peer's side after which the connection is
/// closed.
pub const IDLE_LIMIT: u64 = 180;

/// Seconds to wait for a connection to open, and for the handshake to
/// arrive.
pub const CONNECT_TIMEOUT: u64 = 3;

/// What a peer may not do.
#[derive(Clone, Copy, Debug, PartialEq, Eq, Structural)]
pub enum Violation {
    /// A bitfield came after another message.
    LateBitfield,
    /// A bitfield of the wrong length.
    BitfieldLength,
    /// A bitfield with a bit set behind the last piece.
    BitfieldSpare,
    /// A `have` for a piece that the torrent has not.
    NoSuchPiece,
}

/// Our picture of one peer.
#[derive(Clone, Debug, PartialEq, Eq)]
pub struct Connection {
    pub state: State,
    /// The pieces the peer has told of.
    pub remote_bitfield: BitField,
    /// The number of pieces of the torrent.
    pub real_len: usize,
    /// Whether the number of pieces is known. It is not for a torrent from
    /// a magnet link whose metadata is still to be fetched.
    pub sized: bool,
    /// Whether a message other than a keep-alive has come.
    pub started: bool,
    /// When we last sent something.
    pub last_sent: u64,
    /// When the peer last sent something.
    pub last_received: u64,
}

/// A connection, as plain values.
pub struct ConnectionModel {
    pub state: State,
    pub bits: Seq<bool>,
    pub sized: bool,
    pub started: bool,
    pub last_sent: u64,
    pub last_received: u64,
}

impl View for Connection {
    type V = ConnectionModel;

    open spec fn view(&self) -> ConnectionModel {
        ConnectionModel {
            state: self.state,
            bits: self.remote_bitfield@,
            sized: self.sized,
            started: self.started,
            last_sent: self.last_sent,
            last_received: self.last_received,
        }
    }
}

/// What the message does to our picture of the peer at `now`, or how it
/// breaks the protocol. While the number of pieces is not known, what the
/// peer tells of its pieces can be neither checked nor kept.
pub open spec fn after(c: ConnectionModel, m: MessageModel, now: u64) -> Result<
    ConnectionModel,
    Violation,
> {
    let heard = ConnectionModel { last_received: now, ..c };
    let begun = ConnectionModel { started: true, ..heard };
    match m {
        MessageModel::KeepAlive => Ok(heard),
        MessageModel::Choke => Ok(ConnectionModel { state: State { choked: true, ..c.state }, ..begun }),
        MessageModel::Unchoke => Ok(
            ConnectionModel { state: State { choked: false, ..c.state }, ..begun },
        ),
        MessageModel::Interested => Ok(
            ConnectionModel { state: State { peer_interested: true, ..c.state }, ..begun },
        ),
        MessageModel::Uninterested => Ok(
            ConnectionModel { state: State { peer_interested: false, ..c.state }, ..begun },
        ),
        MessageModel::Have(i) => if !c.sized {
            Ok(begun)
        } else if i < c.bits.len() {
            Ok(ConnectionModel { bits: c.bits.update(i as int, true), ..begun })
        } else {
            Err(Violation::NoSuchPiece)
        },
        MessageModel::BitField(payload) => if c.started {
            Err(Violation::LateBitfield)
        } else if !c.sized {
            Ok(begun)
        } else if payload.len() != (c.bits.len() + 7) / 8 {
            Err(Violation::BitfieldLength)
        } else if !valid_bitfield(payload, c.bits.len() as int) {
            Err(Violation::BitfieldSpare)
        } else {
            Ok(ConnectionModel { bits: wire_bits(payload, c.bits.len() as int), ..begun })
        },
        MessageModel::Port(p) => Ok(
            ConnectionModel { state: State { dht_port: Some(p), ..c.state }, ..begun },
        ),
        _ => Ok(begun),
    }
}

/// Whether the message is for someone else to act on: the piece manager
/// (`have`, `bitfield`, `piece`), the upload path (`request`, `cancel`) or
/// the extension layer.
pub open spec fn passed_on(m: MessageModel) -> bool {
    m is Have || m is BitField || m is Piece || m is Request || m is Cancel || m is Extended
}

impl Connection {
    /// The peer's bitfield has one bit for each piece.
    pub open spec fn wf(&self) -> bool {
        self.remote_bitfield.wf() && self.remote_bitfield@.len() == self.real_len
    }

    /// The picture of a peer with which the handshake was just made, at
    /// `now`: both sides choke, nobody is interested, and the peer has told
    /// of no piece.
    pub fn new(real_len: usize, now: u64) -> (c: Connection)
        ensures
            c.wf(),
            c.real_len == real_len,
            c.sized,
            c@.state == (State {
                choked: true,
                interested: false,
                peer_choked: true,
                peer_interested: false,
                dht_port: None,
            }),
            forall|i: int| 0 <= i < real_len ==> !c@.bits[i],
            !c@.started,
            c@.last_sent == now,
            c@.last_received == now,
    {
        Connection {
            state: State::new(),
            remote_bitfield: BitField::empty(real_len),
            real_len,
            sized: true,
            started: false,
            last_sent: now,
            last_received: now,
        }
    }

    /// The picture of a peer with which the handshake was just made, at
    /// `now`, for a torrent of which the number of pieces is not known yet.
    pub fn blind(now: u64) -> (c: Connection)
        ensures
            c.wf(),
            c@ == (ConnectionModel {
                state: State {
                    choked: true,
                    interested: false,
                    peer_choked: true,
                    peer_interested: false,
                    dht_port: None,
                },
                bits: Seq::empty(),
                sized: false,
                started: false,
                last_sent: now,
                last_received: now,
            }),
    {
        let c = Connection {
            state: State::new(),
            remote_bitfield: BitField::empty(0),
            real_len: 0,
            sized: false,
            started: false,
            last_sent: now,
            last_received: now,
        };
        assert(c@.bits =~= Seq::empty());
        c
    }

    /// Reads the handshake that a peer answered with and holds it against
    /// the torrent we asked for. A peer that answers for another torrent is
    /// to be dropped.
    pub fn handshake(reply: &[u8], hash: &[u8; 20]) -> (r: Result<Handshake, ParseError>)
        ensures
            r matches Ok(h) ==> reply@.len() >= 68 && handshake_value(reply@.take(68)) == Ok::<
                HandshakeModel,
                ParseError,
            >(h@) && h.hash@ == hash@,
            r matches Err(e) ==> e == (if reply@.len() < 68 {
                ParseError::Incomplete
            } else {
                match handshake_value(reply@.take(68)) {
                    Err(x) => x,
                    Ok(h) => ParseError::WrongTorrent,
                }
            }) && (reply@.len() >= 68 && handshake_value(reply@.take(68)) is Ok
                ==> handshake_value(reply@.take(68))->Ok_0.hash != hash@),
    {
        if reply.len() < 68 {
            return Err(ParseError::Incomplete);
        }
        let frame = vstd::slice::slice_subrange(reply, 0, 68);
        assert(frame@ =~= reply@.take(68));
        let h = <Handshake as ParseCheck>::parse(frame)?;
        if !h.matches(hash) {
            return Err(ParseError::WrongTorrent);
        }
        Ok(h)
    }

    /// Takes in a message that came at `now`. A message that someone else is
    /// to act on is handed back.
    pub fn handle(&mut self, message: Message, now: u64) -> (r: Result<Option<Message>, Violation>)
        requires
            old(self).wf(),
        ensures
            final(self).wf(),
            final(self).real_len == old(self).real_len,
            match after(old(self)@, message@, now) {
                Ok(c) => final(self)@ == c && (r matches Ok(back) && (match back {
                    Some(m) => passed_on(message@) && m@ == message@,
                    None => !passed_on(message@),
                })),
                Err(v) => r == Err::<Option<Message>, Violation>(v) && final(self)@ == old(self)@,
            },
    {
        match message {
            Message::KeepAlive => {
                self.last_received = now;
                Ok(None)
            },
            Message::Choke => {
                self.last_received = now;
                self.started = true;
                self.state.choked = true;
                Ok(None)
            },
            Message::Unchoke => {
                self.last_received = now;
                self.started = true;
                self.state.choked = false;
                Ok(None)
            },
            Message::Interested => {
                self.last_received = now;
                self.started = true;
                self.state.peer_interested = true;
                Ok(None)
            },
            Message::Uninterested => {
                self.last_received = now;
                self.started = true;
                self.state.peer_interested = false;
                Ok(None)
            },
            Message::Have(i) => {
                if !self.sized {
                    self.last_received = now;
                    self.started = true;
                    Ok(Some(Message::Have(i)))
                } else if (i as usize) < self.real_len {
                    self.last_received = now;
                    self.started = true;
                    self.remote_bitfield.set(i as usize);
                    Ok(Some(Message::Have(i)))
                } else {
                    Err(Violation::NoSuchPiece)
                }
            },
            Message::BitField(payload) => {
                if self.started {
                    return Err(Violation::LateBitfield);
                }
                if !self.sized {
                    self.last_received = now;
                    self.started = true;
                    return Ok(Some(Message::BitField(payload)));
                }
                match BitField::from_wire(payload.as_slice(), self.real_len) {
                    Ok(bits) => {
                        self.last_received = now;
                        self.started = true;
                        self.remote_bitfield = bits;
                        Ok(Some(Message::BitField(payload)))
                    },
                    Err(ParseError::BadLength) => Err(Violation::BitfieldLength),
                    Err(_) => Err(Violation::BitfieldSpare),
                }
            },
            Message::Port(p) => {
                self.last_received = now;
                self.started = true;
                self.state.dht_port = Some(p);
                Ok(None)
            },
            Message::Request { index, begin, length } => {
                self.last_received = now;
                self.started = true;
                Ok(Some(Message::Request { index, begin, length }))
            },
            Message::Cancel { index, begin, length } => {
                self.last_received = now;
                self.started = true;
                Ok(Some(Message::Cancel { index, begin, length }))
            },
            Message::Piece { index, begin, block } => {
                self.last_received = now;
                self.started = true;
                Ok(Some(Message::Piece { index, begin, block }))
            },
            Message::Extended { id, payload } => {
                self.last_received = now;
                self.started = true;
                Ok(Some(Message::Extended { id, payload }))
            },
        }
    }

    /// Notes that something was sent at `now`.
    pub fn sent(&mut self, now: u64)
        ensures
            final(self)@ == (ConnectionModel { last_sent: now, ..old(self)@ }),
            final(self).real_len == old(self).real_len,
            final(self).remote_bitfield == old(self).remote_bitfield,
    {
        self.last_sent = now;
    }

    /// Notes that we are, or are no longer, interested in the peer, and
    /// gives the message that tells it; nothing where the peer knows
    /// already.
    pub fn interest(&mut self, interested: bool, now: u64) -> (r: Option<Message>)
        ensures
            final(self).real_len == old(self).real_len,
            final(self).sized == old(self).sized,
            final(self).remote_bitfield == old(self).remote_bitfield,
            final(self).started == old(self).started,
            final(self).last_received == old(self).last_received,
            final(self).state == (State { interested, ..old(self).state }),
            old(self).state.interested == interested ==> r is None && final(self).last_sent
                == old(self).last_sent,
            old(self).state.interested != interested ==> final(self).last_sent == now && (r
                matches Some(m) && m@ == (if interested {
                MessageModel::Interested
            } else {
                MessageModel::Uninterested
            })),
    {
        if self.state.interested == interested {
            return None;
        }
        self.state.interested = interested;
        self.last_sent = now;
        if interested {
            Some(Message::Interested)
        } else {
            Some(Message::Uninterested)
        }
    }

    /// The keep-alive to send at `now`, if nothing was sent for 120
    /// seconds; it counts as sent.
    pub fn keep_alive(&mut self, now: u64) -> (r: Option<Message>)
        ensures
            final(self).real_len == old(self).real_len,
            final(self).sized == old(self).sized,
            final(self).remote_bitfield == old(self).remote_bitfield,
            final(self).state == old(self).state,
            final(self).started == old(self).started,
            final(self).last_received == old(self).last_received,
            now >= plus(old(self).last_sent, KEEP_ALIVE_AFTER) ==> final(self).last_sent == now
                && (r matches Some(m) && m@ == MessageModel::KeepAlive),
            now < plus(old(self).last_sent, KEEP_ALIVE_AFTER) ==> r is None && final(self).last_sent == old(self).last_sent,
    {
        if now >= add_seconds(self.last_sent, KEEP_ALIVE_AFTER) {
            self.last_sent = now;
            Some(Message::KeepAlive)
        } else {
            None
        }
    }

    /// Whether the peer has been silent for 180 seconds at `now`, so that
    /// the connection is to be closed.
    pub fn timed_out(&self, now: u64) -> (r: bool)
        ensures
            r == (now >= plus(self.last_received, IDLE_LIMIT)),
    {
        now >= add_seconds(self.last_received, IDLE_LIMIT)
    }

    /// Whether blocks may be asked of the peer: it does not choke us and we
    /// are interested.
    pub fn may_request(&self) -> (r: bool)
        ensures
            r == (!self.state.choked && self.state.interested),
    {
        !self.state.choked && self.state.interested
    }
}

/// Each message as plain values.
pub open spec fn messages_view(v: Seq<Message>) -> Seq<MessageModel> {
    Seq::new(v.len(), |i: int| v[i]@)
}

/// The messages that the whole frames at the start of `s` say, in the order
/// of the wire; bytes of a frame that is not whole yet are left. A frame
/// that breaks the protocol is the fault of the stream.
pub open spec fn frames_of(s: Seq<u8>, cap: nat) -> Result<Seq<MessageModel>, ParseError>
    decreases s.len(),
{
    match message_len(s, cap) {
        Err(ParseError::Incomplete) => Ok(Seq::empty()),
        Err(e) => Err(e),
        Ok(n) => match message_value(s.take(n as int)) {
            Err(e) => Err(e),
            Ok(m) => if n == 0 {
                Ok(Seq::empty())
            } else {
                match frames_of(s.skip(n as int), cap) {
                    Err(e) => Err(e),
                    Ok(rest) => Ok(seq![m] + rest),
                }
            },
        },
    }
}

/// What is heard on a stream that starts with the peer's handshake: the
/// messages behind the handshake in the order of the wire, and nothing where
/// the handshake is cut short, is none, or is for another torrent than
/// `hash`.
pub open spec fn heard(stream: Seq<u8>, hash: Seq<u8>, cap: nat) -> Result<
    Seq<MessageModel>,
    ParseError,
> {
    if stream.len() < 68 {
        Err(ParseError::Incomplete)
    } else {
        match handshake_value(stream.take(68)) {
            Err(e) => Err(e),
            Ok(h) => if h.hash != hash {
                Err(ParseError::WrongTorrent)
            } else {
                frames_of(stream.skip(68), cap)
            },
        }
    }
}

/// Joins the messages that a loop has read so far with what reading on
/// gives.
pub open spec fn heard_after(acc: Seq<MessageModel>, r: Result<Seq<MessageModel>, ParseError>) -> Result<
    Seq<MessageModel>,
    ParseError,
> {
    match r {
        Ok(rest) => Ok(acc + rest),
        Err(e) => Err(e),
    }
}

impl Connection {
    /// Listens to what a peer sent: checks its handshake against the torrent
    /// `hash` and reads the frames behind it, none longer than `cap`. A peer
    /// that answers for another torrent is aborted before any message is
    /// read.
    pub fn listen(stream: &[u8], hash: &[u8; 20], cap: usize) -> (r: Result<Vec<Message>, ParseError>)
        ensures
            r matches Ok(v) ==> heard(stream@, hash@, cap as nat) == Ok::<
                Seq<MessageModel>,
                ParseError,
            >(messages_view(v@)),
            r matches Err(e) ==> heard(stream@, hash@, cap as nat) == Err::<
                Seq<MessageModel>,
                ParseError,
            >(e),
    {
        let _ = Connection::handshake(stream, hash)?;
        let rest = vstd::slice::slice_subrange(stream, 68, stream.len());
        assert(rest@ =~= stream@.skip(68));
        let ghost all = rest@;
        let mut out: Vec<Message> = Vec::new();
        let mut pos: usize = 0;
        proof {
            assert(all.skip(0) =~= all);
            assert(messages_view(out@) =~= Seq::<MessageModel>::empty());
            if let Ok(x) = frames_of(all, cap as nat) {
                assert(Seq::<MessageModel>::empty() + x =~= x);
            }
        }
        loop
            invariant
                pos <= rest@.len(),
                all == rest@,
                heard(stream@, hash@, cap as nat) == frames_of(all, cap as nat),
                frames_of(all, cap as nat) == heard_after(
                    messages_view(out@),
                    frames_of(all.skip(pos as int), cap as nat),
                ),
            decreases rest@.len() - pos,
        {
            let tail = vstd::slice::slice_subrange(rest, pos, rest.len());
            assert(tail@ =~= all.skip(pos as int));
            let n: usize = match <Message as ParseCheck>::check(tail, cap) {
                Ok(n) => n,
                Err(ParseError::Incomplete) => {
                    proof {
                        assert(messages_view(out@) + Seq::<MessageModel>::empty()
                            =~= messages_view(out@));
                    }
                    return Ok(out);
                },
                Err(e) => {
                    return Err(e);
                },
            };
            let frame = vstd::slice::slice_subrange(tail, 0, n);
            assert(frame@ =~= tail@.take(n as int));
            let m = <Message as ParseCheck>::parse(frame)?;
            proof {
                let before = messages_view(out@);
                assert(messages_view(out@.push(m)) =~= before.push(m@));
                assert(all.skip(pos as int).skip(n as int) =~= all.skip(pos + n));
                if let Ok(x) = frames_of(all.skip(pos + n), cap as nat) {
                    assert(before + (seq![m@] + x) =~= before.push(m@) + x);
                }
            }
            out.push(m);
            pos = pos + n;
        }
    }
}

} // verus!
