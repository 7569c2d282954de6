//! The peer wire protocol: the handshake and the length-prefixed messages.

use vstd::prelude::*;
use crate::entropy::{is_alphanumeric, random_alphanumeric};
use crate::framing::{ParseCheck, ParseError};
use crate::hash::same_hash;
use crate::helpers::range_to_array;
use crate::wire::{be16, be32, copy_range, from_be16, from_be32, lemma_be16_round_trip, lemma_be32_round_trip, push_bytes, push_u16, push_u32, read_u16, read_u32};

verus! {

/// Length of a handshake in bytes.
pub const HANDSHAKE_LEN: usize = 68;

/// `"BitTorrent protocol"`, the protocol name that opens a handshake.
pub open spec fn protocol_name() -> Seq<u8> {
    seq![
        66u8, 105u8, 116u8, 84u8, 111u8, 114u8, 114u8, 101u8, 110u8, 116u8, 32u8, 112u8, 114u8,
        111u8, 116u8, 111u8, 99u8, 111u8, 108u8,
    ]
}

fn protocol_name_bytes() -> (r: [u8; 19])
    ensures
        r@ == protocol_name(),
{
    let r: [u8; 19] = [
        66u8, 105u8, 116u8, 84u8, 111u8, 114u8, 114u8, 101u8, 110u8, 116u8, 32u8, 112u8, 114u8,
        111u8, 116u8, 111u8, 99u8, 111u8, 108u8,
    ];
    assert(r@ =~= protocol_name());
    r
}

/// What a peer tells about itself before anything else: the extensions it
/// speaks, the torrent it wants and who it is.
#[derive(Clone, Copy, Debug, PartialEq, Eq)]
pub struct Handshake {
    pub reserved: [u8; 8],
    pub hash: [u8; 20],
    pub peer_id: [u8; 20],
}

/// A handshake, as plain values.
pub struct HandshakeModel {
    pub reserved: Seq<u8>,
    pub hash: Seq<u8>,
    pub peer_id: Seq<u8>,
}

impl View for Handshake {
    type V = HandshakeModel;

    open spec fn view(&self) -> HandshakeModel {
        HandshakeModel { reserved: self.reserved@, hash: self.hash@, peer_id: self.peer_id@ }
    }
}

/// The 68 bytes of a handshake.
pub open spec fn handshake_bytes(h: HandshakeModel) -> Seq<u8> {
    seq![19u8] + protocol_name() + h.reserved + h.hash + h.peer_id
}

/// A fresh peer id: `-XV`, four letters or digits, `-`, twelve more.
pub fn new_peer_id() -> (id: [u8; 20])
    ensures
        id@[0] == 45 && id@[1] == 88 && id@[2] == 86 && id@[7] == 45,
        forall|i: int| (3 <= i < 7 || 8 <= i < 20) ==> is_alphanumeric(#[trigger] id@[i]),
{
    let mut id: [u8; 20] = [45u8; 20];
    id[1] = 88;
    id[2] = 86;
    let mut i: usize = 3;
    while i < 20
        invariant
            3 <= i <= 20,
            id@[0] == 45 && id@[1] == 88 && id@[2] == 86,
            i > 7 ==> id@[7] == 45,
            i <= 7 ==> id@[7] == 45,
            forall|j: int| (3 <= j < 7 || 8 <= j < 20) && j < i ==> is_alphanumeric(#[trigger] id@[j]),
        decreases 20 - i,
    {
        if i != 7 {
            id[i] = random_alphanumeric();
        }
        i += 1;
    }
    id
}

/// Something that is sent as bytes of its own and read back from them.
pub trait Request: Sized + View {
    /// Whether the value can be sent.
    spec fn fits(v: Self::V) -> bool;

    /// The bytes that are sent for a value.
    spec fn request_bytes(v: Self::V) -> Seq<u8>;

    /// The value that received bytes stand for, if they stand for one.
    spec fn request_value(s: Seq<u8>) -> Option<Self::V>;

    /// The bytes to send.
    fn to_request(&self) -> (r: Vec<u8>)
        requires
            Self::fits(self@),
        ensures
            r@ == Self::request_bytes(self@),
    ;

    /// Reads a value from received bytes.
    fn from_request(v: &[u8]) -> (r: Option<Self>)
        ensures
            match Self::request_value(v@) {
                Some(m) => r matches Some(x) && x@ == m,
                None => r is None,
            },
    ;
}

impl Handshake {
    /// Whether the reserved bits announce DHT support.
    pub open spec fn dht(self) -> bool {
        self.reserved@[7] & 0x01 != 0
    }

    /// Whether the reserved bits announce the extension protocol.
    pub open spec fn extended(self) -> bool {
        self.reserved@[5] & 0x10 != 0
    }

    /// Our handshake for the torrent `hash`: it announces DHT support (last
    /// bit of the last reserved byte) and the extension protocol (mask `0x10`
    /// of reserved byte 5).
    pub fn new(hash: [u8; 20], peer_id: [u8; 20]) -> (h: Handshake)
        ensures
            h.hash == hash,
            h.peer_id == peer_id,
            h.reserved@ == seq![0u8, 0u8, 0u8, 0u8, 0u8, 0x10u8, 0u8, 0x01u8],
            h.dht(),
            h.extended(),
    {
        let mut reserved: [u8; 8] = [0u8; 8];
        reserved[7] = 0x01;
        reserved[5] = 0x10;
        assert(reserved@ =~= seq![0u8, 0u8, 0u8, 0u8, 0u8, 0x10u8, 0u8, 0x01u8]);
        assert(0x01u8 & 0x01u8 != 0) by (bit_vector);
        assert(0x10u8 & 0x10u8 != 0) by (bit_vector);
        Handshake { reserved, hash, peer_id }
    }

    /// Whether the peer announces a DHT node.
    pub fn supports_dht(&self) -> (r: bool)
        ensures
            r == self.dht(),
    {
        self.reserved[7] & 0x01 != 0
    }

    /// Whether the peer speaks the extension protocol.
    pub fn supports_extensions(&self) -> (r: bool)
        ensures
            r == self.extended(),
    {
        self.reserved[5] & 0x10 != 0
    }

    /// Whether this handshake, received from a peer, is for the torrent
    /// `hash`. A peer that answers for another torrent is dropped.
    pub fn matches(&self, hash: &[u8; 20]) -> (r: bool)
        ensures
            r == (self.hash@ == hash@),
    {
        same_hash(&self.hash, hash)
    }
}

impl Request for Handshake {
    /// Every handshake can be sent.
    open spec fn fits(v: HandshakeModel) -> bool {
        true
    }

    open spec fn request_bytes(v: HandshakeModel) -> Seq<u8> {
        handshake_bytes(v)
    }

    /// The handshake in the first 68 bytes.
    open spec fn request_value(s: Seq<u8>) -> Option<HandshakeModel> {
        if s.len() < 68 {
            None
        } else {
            match handshake_value(s.take(68)) {
                Ok(h) => Some(h),
                Err(_) => None,
            }
        }
    }

    /// The 68 bytes to send.
    fn to_request(&self) -> (r: Vec<u8>)
        ensures
            r@.len() == 68,
    {
        let mut out: Vec<u8> = Vec::new();
        out.push(19);
        let name = protocol_name_bytes();
        push_bytes(&mut out, name.as_slice());
        push_bytes(&mut out, self.reserved.as_slice());
        push_bytes(&mut out, self.hash.as_slice());
        push_bytes(&mut out, self.peer_id.as_slice());
        assert(out@ =~= handshake_bytes(self@));
        out
    }

    /// Reads a handshake from the first 68 bytes of `v`.
    fn from_request(v: &[u8]) -> (r: Option<Handshake>) {
        if v.len() < HANDSHAKE_LEN {
            return None;
        }
        let frame = vstd::slice::slice_subrange(v, 0, HANDSHAKE_LEN);
        assert(frame@ =~= v@.take(68));
        match <Handshake as ParseCheck>::parse(frame) {
            Ok(h) => Some(h),
            Err(_) => None,
        }
    }
}

/// The length of the handshake at the start of `s`: 68 bytes, once they
/// have all arrived.
pub open spec fn handshake_len(s: Seq<u8>) -> Result<nat, ParseError> {
    if s.len() < 68 {
        Err(ParseError::Incomplete)
    } else {
        Ok(68)
    }
}

/// The handshake that the 68 bytes of `frame` spell.
pub open spec fn handshake_value(frame: Seq<u8>) -> Result<HandshakeModel, ParseError> {
    if frame.len() != 68 {
        Err(ParseError::BadLength)
    } else if frame[0] != 19 || frame.subrange(1, 20) != protocol_name() {
        Err(ParseError::BadProtocol)
    } else {
        Ok(
            HandshakeModel {
                reserved: frame.subrange(20, 28),
                hash: frame.subrange(28, 48),
                peer_id: frame.subrange(48, 68),
            },
        )
    }
}

impl ParseCheck for Handshake {
    open spec fn frame_len(s: Seq<u8>, cap: nat) -> Result<nat, ParseError> {
        handshake_len(s)
    }

    open spec fn frame_value(frame: Seq<u8>) -> Result<HandshakeModel, ParseError> {
        handshake_value(frame)
    }

    fn check(buf: &[u8], cap: usize) -> (r: Result<usize, ParseError>) {
        if buf.len() < HANDSHAKE_LEN {
            Err(ParseError::Incomplete)
        } else {
            Ok(HANDSHAKE_LEN)
        }
    }

    fn parse(frame: &[u8]) -> (r: Result<Handshake, ParseError>) {
        if frame.len() != HANDSHAKE_LEN {
            return Err(ParseError::BadLength);
        }
        if frame[0] != 19 {
            return Err(ParseError::BadProtocol);
        }
        let name = protocol_name_bytes();
        let mut i: usize = 0;
        while i < 19
            invariant
                i <= 19,
                frame@.len() == 68,
                name@ == protocol_name(),
                forall|j: int| 0 <= j < i ==> frame@[1 + j] == protocol_name()[j],
            decreases 19 - i,
        {
            if frame[1 + i] != name[i] {
                proof {
                    assert(frame@.subrange(1, 20)[i as int] != protocol_name()[i as int]);
                }
                return Err(ParseError::BadProtocol);
            }
            i += 1;
        }
        proof {
            assert(frame@.subrange(1, 20) =~= protocol_name());
        }
        let reserved: [u8; 8] = range_to_array::<8>(vstd::slice::slice_subrange(frame, 20, 28));
        let hash: [u8; 20] = range_to_array::<20>(vstd::slice::slice_subrange(frame, 28, 48));
        let peer_id: [u8; 20] = range_to_array::<20>(vstd::slice::slice_subrange(frame, 48, 68));
        proof {
            assert(reserved@ =~= frame@.subrange(20, 28));
            assert(hash@ =~= frame@.subrange(28, 48));
            assert(peer_id@ =~= frame@.subrange(48, 68));
        }
        Ok(Handshake { reserved, hash, peer_id })
    }
}

/// A handshake that was written is read back.
pub proof fn lemma_handshake_round_trip(h: HandshakeModel, rest: Seq<u8>)
    requires
        h.reserved.len() == 8,
        h.hash.len() == 20,
        h.peer_id.len() == 20,
    ensures
        handshake_len(handshake_bytes(h) + rest) == Ok::<nat, ParseError>(68),
        handshake_value((handshake_bytes(h) + rest).take(68)) == Ok::<
            HandshakeModel,
            ParseError,
        >(h),
        handshake_bytes(h).subrange(28, 48) == h.hash,
{
    let s = handshake_bytes(h);
    let f = (s + rest).take(68);
    assert(f =~= s);
    assert(s.subrange(1, 20) =~= protocol_name());
    assert(s.subrange(20, 28) =~= h.reserved);
    assert(s.subrange(28, 48) =~= h.hash);
    assert(s.subrange(48, 68) =~= h.peer_id);
}

/// Where we stand with one peer. `choked` and `peer_interested` follow what
/// the peer tells us; `peer_choked` and `interested` are what we told it.
#[derive(Clone, Copy, Debug, PartialEq, Eq, Structural)]
pub struct State {
    /// The peer chokes us.
    pub choked: bool,
    /// We are interested in the peer.
    pub interested: bool,
    /// We choke the peer.
    pub peer_choked: bool,
    /// The peer is interested in us.
    pub peer_interested: bool,
    /// The port of the peer's DHT node, once told.
    pub dht_port: Option<u16>,
}

impl State {
    /// Both sides choke, nobody is interested.
    pub fn new() -> (s: State)
        ensures
            s == (State {
                choked: true,
                interested: false,
                peer_choked: true,
                peer_interested: false,
                dht_port: None,
            }),
    {
        State {
            choked: true,
            interested: false,
            peer_choked: true,
            peer_interested: false,
            dht_port: None,
        }
    }
}

/// A message of the peer wire protocol. A frame of length zero is
/// `KeepAlive`; an extended message keeps its payload as bytes.
#[derive(Clone, Debug, PartialEq, Eq)]
pub enum Message {
    KeepAlive,
    Choke,
    Unchoke,
    Interested,
    Uninterested,
    Have(u32),
    BitField(Vec<u8>),
    Request { index: u32, begin: u32, length: u32 },
    Piece { index: u32, begin: u32, block: Vec<u8> },
    Cancel { index: u32, begin: u32, length: u32 },
    Port(u16),
    Extended { id: u8, payload: Vec<u8> },
}

/// A message, as plain values.
pub enum MessageModel {
    KeepAlive,
    Choke,
    Unchoke,
    Interested,
    Uninterested,
    Have(u32),
    BitField(Seq<u8>),
    Request { index: u32, begin: u32, length: u32 },
    Piece { index: u32, begin: u32, block: Seq<u8> },
    Cancel { index: u32, begin: u32, length: u32 },
    Port(u16),
    Extended { id: u8, payload: Seq<u8> },
}

impl View for Message {
    type V = MessageModel;

    open spec fn view(&self) -> MessageModel {
        match self {
            Message::KeepAlive => MessageModel::KeepAlive,
            Message::Choke => MessageModel::Choke,
            Message::Unchoke => MessageModel::Unchoke,
            Message::Interested => MessageModel::Interested,
            Message::Uninterested => MessageModel::Uninterested,
            Message::Have(i) => MessageModel::Have(*i),
            Message::BitField(b) => MessageModel::BitField(b@),
            Message::Request { index, begin, length } => MessageModel::Request {
                index: *index,
                begin: *begin,
                length: *length,
            },
            Message::Piece { index, begin, block } => MessageModel::Piece {
                index: *index,
                begin: *begin,
                block: block@,
            },
            Message::Cancel { index, begin, length } => MessageModel::Cancel {
                index: *index,
                begin: *begin,
                length: *length,
            },
            Message::Port(p) => MessageModel::Port(*p),
            Message::Extended { id, payload } => MessageModel::Extended {
                id: *id,
                payload: payload@,
            },
        }
    }
}

/// What follows the length prefix: the message id and the payload. Nothing
/// for a keep-alive.
pub open spec fn message_body(m: MessageModel) -> Seq<u8> {
    match m {
        MessageModel::KeepAlive => Seq::empty(),
        MessageModel::Choke => seq![0u8],
        MessageModel::Unchoke => seq![1u8],
        MessageModel::Interested => seq![2u8],
        MessageModel::Uninterested => seq![3u8],
        MessageModel::Have(i) => seq![4u8] + be32(i),
        MessageModel::BitField(b) => seq![5u8] + b,
        MessageModel::Request { index, begin, length } => seq![6u8] + be32(index) + be32(begin)
            + be32(length),
        MessageModel::Piece { index, begin, block } => seq![7u8] + be32(index) + be32(begin)
            + block,
        MessageModel::Cancel { index, begin, length } => seq![8u8] + be32(index) + be32(begin)
            + be32(length),
        MessageModel::Port(p) => seq![9u8] + be16(p),
        MessageModel::Extended { id, payload } => seq![20u8, id] + payload,
    }
}

/// Whether the length of the message fits the 32-bit prefix.
pub open spec fn sendable(m: MessageModel) -> bool {
    message_body(m).len() <= u32::MAX
}

/// The frame of a message: its length in four bytes, then its body.
pub open spec fn message_bytes(m: MessageModel) -> Seq<u8> {
    be32(message_body(m).len() as u32) + message_body(m)
}

/// The length of the frame at the start of `s`: four bytes of prefix and as
/// many as the prefix says, which may be at most `cap`.
pub open spec fn message_len(s: Seq<u8>, cap: nat) -> Result<nat, ParseError> {
    if s.len() < 4 {
        Err(ParseError::Incomplete)
    } else if from_be32(s) > cap {
        Err(ParseError::TooLong)
    } else if s.len() < 4 + from_be32(s) {
        Err(ParseError::Incomplete)
    } else {
        Ok((4 + from_be32(s)) as nat)
    }
}

/// What the body of a frame says.
pub open spec fn body_value(b: Seq<u8>) -> Result<MessageModel, ParseError> {
    if b.len() == 0 {
        Ok(MessageModel::KeepAlive)
    } else {
        let id = b[0];
        let p = b.skip(1);
        if id <= 3 {
            if p.len() != 0 {
                Err(ParseError::BadLength)
            } else if id == 0 {
                Ok(MessageModel::Choke)
            } else if id == 1 {
                Ok(MessageModel::Unchoke)
            } else if id == 2 {
                Ok(MessageModel::Interested)
            } else {
                Ok(MessageModel::Uninterested)
            }
        } else if id == 4 {
            if p.len() != 4 {
                Err(ParseError::BadLength)
            } else {
                Ok(MessageModel::Have(from_be32(p)))
            }
        } else if id == 5 {
            Ok(MessageModel::BitField(p))
        } else if id == 6 || id == 8 {
            if p.len() != 12 {
                Err(ParseError::BadLength)
            } else {
                let index = from_be32(p);
                let begin = from_be32(p.skip(4));
                let length = from_be32(p.skip(8));
                if id == 6 {
                    Ok(MessageModel::Request { index, begin, length })
                } else {
                    Ok(MessageModel::Cancel { index, begin, length })
                }
            }
        } else if id == 7 {
            if p.len() < 8 {
                Err(ParseError::BadLength)
            } else {
                Ok(
                    MessageModel::Piece {
                        index: from_be32(p),
                        begin: from_be32(p.skip(4)),
                        block: p.skip(8),
                    },
                )
            }
        } else if id == 9 {
            if p.len() != 2 {
                Err(ParseError::BadLength)
            } else {
                Ok(MessageModel::Port(from_be16(p)))
            }
        } else if id == 20 {
            if p.len() < 1 {
                Err(ParseError::BadLength)
            } else {
                Ok(MessageModel::Extended { id: p[0], payload: p.skip(1) })
            }
        } else {
            Err(ParseError::UnknownId)
        }
    }
}

/// What a whole frame says.
pub open spec fn message_value(frame: Seq<u8>) -> Result<MessageModel, ParseError> {
    if frame.len() < 4 {
        Err(ParseError::Incomplete)
    } else if frame.len() != 4 + from_be32(frame) {
        Err(ParseError::BadLength)
    } else {
        body_value(frame.skip(4))
    }
}

impl Message {
    /// Whether the message can be sent: its length fits the 32-bit prefix.
    pub fn fits_frame(&self) -> (r: bool)
        ensures
            r == sendable(self@),
    {
        match self {
            Message::BitField(b) => b.len() <= 0xffff_fffe,
            Message::Piece { block, .. } => {
                assert(message_body(self@).len() == 9 + block@.len());
                block.len() <= 0xffff_fff6
            },
            Message::Extended { payload, .. } => payload.len() <= 0xffff_fffd,
            _ => true,
        }
    }
}

impl Request for Message {
    open spec fn fits(v: MessageModel) -> bool {
        sendable(v)
    }

    open spec fn request_bytes(v: MessageModel) -> Seq<u8> {
        message_bytes(v)
    }

    open spec fn request_value(s: Seq<u8>) -> Option<MessageModel> {
        match message_value(s) {
            Ok(m) => Some(m),
            Err(_) => None,
        }
    }

    /// The frame to send.
    fn to_request(&self) -> (r: Vec<u8>) {
        let mut out: Vec<u8> = Vec::new();
        match self {
            Message::KeepAlive => {
                push_u32(&mut out, 0);
            },
            Message::Choke => {
                push_u32(&mut out, 1);
                out.push(0);
            },
            Message::Unchoke => {
                push_u32(&mut out, 1);
                out.push(1);
            },
            Message::Interested => {
                push_u32(&mut out, 1);
                out.push(2);
            },
            Message::Uninterested => {
                push_u32(&mut out, 1);
                out.push(3);
            },
            Message::Have(i) => {
                push_u32(&mut out, 5);
                out.push(4);
                push_u32(&mut out, *i);
            },
            Message::BitField(b) => {
                push_u32(&mut out, (b.len() + 1) as u32);
                out.push(5);
                push_bytes(&mut out, b.as_slice());
            },
            Message::Request { index, begin, length } => {
                push_u32(&mut out, 13);
                out.push(6);
                push_u32(&mut out, *index);
                push_u32(&mut out, *begin);
                push_u32(&mut out, *length);
            },
            Message::Piece { index, begin, block } => {
                push_u32(&mut out, (block.len() + 9) as u32);
                out.push(7);
                push_u32(&mut out, *index);
                push_u32(&mut out, *begin);
                push_bytes(&mut out, block.as_slice());
            },
            Message::Cancel { index, begin, length } => {
                push_u32(&mut out, 13);
                out.push(8);
                push_u32(&mut out, *index);
                push_u32(&mut out, *begin);
                push_u32(&mut out, *length);
            },
            Message::Port(p) => {
                push_u32(&mut out, 3);
                out.push(9);
                push_u16(&mut out, *p);
            },
            Message::Extended { id, payload } => {
                push_u32(&mut out, (payload.len() + 2) as u32);
                out.push(20);
                out.push(*id);
                push_bytes(&mut out, payload.as_slice());
            },
        }
        assert(out@ =~= message_bytes(self@));
        out
    }

    /// Reads the one message that `v` holds, whatever its length.
    fn from_request(v: &[u8]) -> (r: Option<Message>) {
        match <Message as ParseCheck>::parse(v) {
            Ok(m) => Some(m),
            Err(_) => None,
        }
    }
}

impl ParseCheck for Message {
    open spec fn frame_len(s: Seq<u8>, cap: nat) -> Result<nat, ParseError> {
        message_len(s, cap)
    }

    open spec fn frame_value(frame: Seq<u8>) -> Result<MessageModel, ParseError> {
        message_value(frame)
    }

    fn check(buf: &[u8], cap: usize) -> (r: Result<usize, ParseError>) {
        if buf.len() < 4 {
            return Err(ParseError::Incomplete);
        }
        assert(buf@.skip(0) =~= buf@);
        let n: u32 = read_u32(buf, 0);
        if n as usize > cap {
            return Err(ParseError::TooLong);
        }
        if buf.len() - 4 < n as usize {
            return Err(ParseError::Incomplete);
        }
        Ok(4 + n as usize)
    }

    fn parse(frame: &[u8]) -> (r: Result<Message, ParseError>) {
        let len: usize = frame.len();
        if len < 4 {
            return Err(ParseError::Incomplete);
        }
        assert(frame@.skip(0) =~= frame@);
        let n: u32 = read_u32(frame, 0);
        if len - 4 != n as usize {
            return Err(ParseError::BadLength);
        }
        let ghost b = frame@.skip(4);
        if len == 4 {
            return Ok(Message::KeepAlive);
        }
        let id: u8 = frame[4];
        let ghost p = b.skip(1);
        let plen: usize = len - 5;
        proof {
            assert(b[0] == id);
            assert(p =~= frame@.skip(5));
            if plen >= 4 {
                assert(p.skip(4) =~= frame@.skip(9));
            }
            if plen >= 8 {
                assert(p.skip(8) =~= frame@.skip(13));
            }
        }
        if id <= 3 {
            if plen != 0 {
                Err(ParseError::BadLength)
            } else if id == 0 {
                Ok(Message::Choke)
            } else if id == 1 {
                Ok(Message::Unchoke)
            } else if id == 2 {
                Ok(Message::Interested)
            } else {
                Ok(Message::Uninterested)
            }
        } else if id == 4 {
            if plen != 4 {
                Err(ParseError::BadLength)
            } else {
                Ok(Message::Have(read_u32(frame, 5)))
            }
        } else if id == 5 {
            let bits = copy_range(frame, 5, len);
            assert(bits@ =~= p);
            Ok(Message::BitField(bits))
        } else if id == 6 || id == 8 {
            if plen != 12 {
                Err(ParseError::BadLength)
            } else {
                let index: u32 = read_u32(frame, 5);
                let begin: u32 = read_u32(frame, 9);
                let length: u32 = read_u32(frame, 13);
                if id == 6 {
                    Ok(Message::Request { index, begin, length })
                } else {
                    Ok(Message::Cancel { index, begin, length })
                }
            }
        } else if id == 7 {
            if plen < 8 {
                Err(ParseError::BadLength)
            } else {
                let index: u32 = read_u32(frame, 5);
                let begin: u32 = read_u32(frame, 9);
                let block = copy_range(frame, 13, len);
                assert(block@ =~= p.skip(8));
                Ok(Message::Piece { index, begin, block })
            }
        } else if id == 9 {
            if plen != 2 {
                Err(ParseError::BadLength)
            } else {
                Ok(Message::Port(read_u16(frame, 5)))
            }
        } else if id == 20 {
            if plen < 1 {
                Err(ParseError::BadLength)
            } else {
                let ext: u8 = frame[5];
                let payload = copy_range(frame, 6, len);
                assert(p[0] == ext);
                assert(payload@ =~= p.skip(1));
                Ok(Message::Extended { id: ext, payload })
            }
        } else {
            Err(ParseError::UnknownId)
        }
    }
}

/// Every message that was written is read back: the frame at the start of
/// what was sent has the length that was written, and says the message.
pub proof fn lemma_message_round_trip(m: MessageModel, rest: Seq<u8>, cap: nat)
    requires
        sendable(m),
        message_body(m).len() <= cap,
    ensures
        message_len(message_bytes(m) + rest, cap) == Ok::<nat, ParseError>(
            message_bytes(m).len(),
        ),
        (message_bytes(m) + rest).take(message_bytes(m).len() as int) == message_bytes(m),
        message_value(message_bytes(m)) == Ok::<MessageModel, ParseError>(m),
{
    let body = message_body(m);
    let n = body.len() as u32;
    let frame = message_bytes(m);
    let s = frame + rest;
    lemma_be32_round_trip(n, body + rest);
    lemma_be32_round_trip(n, body);
    assert(s =~= be32(n) + (body + rest));
    assert(s.take(frame.len() as int) =~= frame);
    assert(frame.skip(4) =~= body);
    lemma_body_round_trip(m);
}

/// The body of every message says the message.
pub proof fn lemma_body_round_trip(m: MessageModel)
    ensures
        body_value(message_body(m)) == Ok::<MessageModel, ParseError>(m),
{
    let b = message_body(m);
    match m {
        MessageModel::KeepAlive => {},
        MessageModel::Choke => {},
        MessageModel::Unchoke => {},
        MessageModel::Interested => {},
        MessageModel::Uninterested => {},
        MessageModel::Have(i) => {
            assert(b.skip(1) =~= be32(i) + Seq::<u8>::empty());
            lemma_be32_round_trip(i, Seq::empty());
        },
        MessageModel::BitField(bits) => {
            assert(b.skip(1) =~= bits);
        },
        MessageModel::Request { index, begin, length } => {
            let p = b.skip(1);
            assert(p =~= be32(index) + (be32(begin) + be32(length)));
            assert(p.skip(4) =~= be32(begin) + be32(length));
            assert(p.skip(8) =~= be32(length) + Seq::<u8>::empty());
            lemma_be32_round_trip(index, be32(begin) + be32(length));
            lemma_be32_round_trip(begin, be32(length));
            lemma_be32_round_trip(length, Seq::empty());
        },
        MessageModel::Piece { index, begin, block } => {
            let p = b.skip(1);
            assert(p =~= be32(index) + (be32(begin) + block));
            assert(p.skip(4) =~= be32(begin) + block);
            assert(p.skip(8) =~= block);
            lemma_be32_round_trip(index, be32(begin) + block);
            lemma_be32_round_trip(begin, block);
        },
        MessageModel::Cancel { index, begin, length } => {
            let p = b.skip(1);
            assert(p =~= be32(index) + (be32(begin) + be32(length)));
            assert(p.skip(4) =~= be32(begin) + be32(length));
            assert(p.skip(8) =~= be32(length) + Seq::<u8>::empty());
            lemma_be32_round_trip(index, be32(begin) + be32(length));
            lemma_be32_round_trip(begin, be32(length));
            lemma_be32_round_trip(length, Seq::empty());
        },
        MessageModel::Port(port) => {
            assert(b.skip(1) =~= be16(port) + Seq::<u8>::empty());
            lemma_be16_round_trip(port, Seq::empty());
        },
        MessageModel::Extended { id, payload } => {
            assert(b.skip(1)[0] == id);
            assert(b.skip(1).skip(1) =~= payload);
        },
    }
}

} // verus!
