//! The extension protocol: the extended handshake, and the messages of the
//! metadata extension that fetch the `info` dictionary from peers.

use vstd::prelude::*;
use vstd::string::StringSliceAdditionalSpecFns;
use vstd::utf8::{decode_utf8, encode_utf8, valid_utf8};
use crate::bencode::{Bencode, DecodeError, Kind, Value, DEFAULT_DEPTH, canonical, entries_view, lookup, parse_value, serialize};
use crate::bencode::decoder::{decode_value, lemma_dict_view};
use crate::bencode::encoder::encode;
use crate::bencode::fields::{as_dict, as_u64, bounded, dict_of, get, get_bounded, get_optional_text, get_sized, get_u64, copied_option_view, field_u64, narrow16, narrow32, optional_text, owned_text_view, sized, to_u16, to_u32, u64_of};
use crate::data::{GeneralError, Info};
use crate::hash::{same_hash, sha1, sha1_digest};
use crate::metainfo::info_model;
use crate::piece_manager::{blocks_in, block_len, overwrite, zeros, block_bytes, block_count};
use crate::wire::copy_range;

verus! {

/// Size of a piece of metadata in bytes (16 KiB).
pub const METADATA_PIECE: u32 = 16384;

/// What a peer tells in the extended handshake.
#[derive(Clone, Debug, Default, PartialEq, Eq)]
pub struct Handshake {
    /// The extensions the peer speaks, each with the message id it wants
    /// them under.
    pub inner: Vec<(String, u32)>,
    pub port: Option<u16>,
    pub client: Option<String>,
    /// Our address as the peer sees it: 4 or 16 bytes.
    pub ext_ip: Option<Vec<u8>>,
    pub ipv4: Option<Vec<u8>>,
    pub ipv6: Option<Vec<u8>>,
    pub reqq: Option<u32>,
    /// The length of the `info` dictionary, where the peer has it.
    pub metadata_size: Option<u32>,
}

/// What a message of the metadata extension is for.
#[derive(Clone, Copy, Debug, PartialEq, Eq, Structural)]
pub enum MsgType {
    Request,
    Data,
    Reject,
}

/// A message of an extension.
#[derive(Clone, Debug, Default, PartialEq, Eq)]
pub enum Extension {
    #[default]
    Nothing,
    Metadata { msg_type: MsgType, piece: u32, total_size: Option<u32>, payload: Option<Vec<u8>> },
}

/// An extended message: the handshake, or a message of an extension.
#[derive(Clone, Debug, PartialEq, Eq)]
pub enum Message {
    Handshake(Handshake),
    Extension(Extension),
}

/// An extension handshake, as plain values.
pub struct HandshakeModel {
    pub inner: Seq<(Seq<char>, u32)>,
    pub port: Option<u16>,
    pub client: Option<Seq<char>>,
    pub ext_ip: Option<Seq<u8>>,
    pub ipv4: Option<Seq<u8>>,
    pub ipv6: Option<Seq<u8>>,
    pub reqq: Option<u32>,
    pub metadata_size: Option<u32>,
}

/// An extension message, as plain values.
pub enum ExtensionModel {
    Nothing,
    Metadata { msg_type: MsgType, piece: u32, total_size: Option<u32>, payload: Option<Seq<u8>> },
}

/// A message of the extension protocol, as plain values.
pub enum MessageModel {
    Handshake(HandshakeModel),
    Extension(ExtensionModel),
}

/// Each extension's name, as characters, with its number.
pub open spec fn names_view(v: Seq<(String, u32)>) -> Seq<(Seq<char>, u32)> {
    Seq::new(v.len(), |i: int| (v[i].0@, v[i].1))
}

impl View for Handshake {
    type V = HandshakeModel;

    open spec fn view(&self) -> HandshakeModel {
        HandshakeModel {
            inner: names_view(self.inner@),
            port: self.port,
            client: owned_text_view(self.client),
            ext_ip: copied_option_view(self.ext_ip),
            ipv4: copied_option_view(self.ipv4),
            ipv6: copied_option_view(self.ipv6),
            reqq: self.reqq,
            metadata_size: self.metadata_size,
        }
    }
}

impl View for Extension {
    type V = ExtensionModel;

    open spec fn view(&self) -> ExtensionModel {
        match self {
            Extension::Nothing => ExtensionModel::Nothing,
            Extension::Metadata { msg_type, piece, total_size, payload } => {
                ExtensionModel::Metadata {
                    msg_type: *msg_type,
                    piece: *piece,
                    total_size: *total_size,
                    payload: copied_option_view(*payload),
                }
            },
        }
    }
}

impl View for Message {
    type V = MessageModel;

    open spec fn view(&self) -> MessageModel {
        match self {
            Message::Handshake(h) => MessageModel::Handshake(h@),
            Message::Extension(e) => MessageModel::Extension(e@),
        }
    }
}

impl Default for Message {
    fn default() -> (m: Message)
        ensures
            m@ == MessageModel::Handshake(
                HandshakeModel {
                    inner: Seq::empty(),
                    port: None,
                    client: None,
                    ext_ip: None,
                    ipv4: None,
                    ipv6: None,
                    reqq: None,
                    metadata_size: None,
                },
            ),
    {
        let h = Handshake {
            inner: Vec::new(),
            port: None,
            client: None,
            ext_ip: None,
            ipv4: None,
            ipv6: None,
            reqq: None,
            metadata_size: None,
        };
        assert(h@.inner =~= Seq::empty());
        Message::Handshake(h)
    }
}

/// The message id under which we take messages of the metadata extension.
pub const UT_METADATA: u8 = 1;

/// Whether no name of an extension occurs twice.
pub open spec fn distinct_names(names: Seq<(Seq<char>, u32)>) -> bool {
    forall|i: int, j: int|
        0 <= i < j < names.len() ==> (#[trigger] names[i]).0 != (#[trigger] names[j]).0
}

/// Whether a message can be written: the extensions of a handshake become
/// the keys of a dictionary, so none may occur twice.
pub open spec fn writable(m: MessageModel) -> bool {
    m matches MessageModel::Handshake(h) ==> distinct_names(h.inner)
}

/// The id that a peer's handshake gives the extension `name`: that of the
/// first entry with this name.
pub open spec fn id_in(names: Seq<(Seq<char>, u32)>, name: Seq<char>) -> Option<u32>
    decreases names.len(),
{
    if names.len() == 0 {
        None
    } else if names[0].0 == name {
        Some(names[0].1)
    } else {
        id_in(names.drop_first(), name)
    }
}

/// The message id under which a peer takes messages of the metadata
/// extension: what its handshake gives `ut_metadata`, where that is the id
/// of a message other than the handshake.
pub open spec fn metadata_id_of(h: HandshakeModel) -> Option<u8> {
    match id_in(h.inner, "ut_metadata"@) {
        Some(id) => if 0 < id <= 255 {
            Some(id as u8)
        } else {
            None
        },
        None => None,
    }
}

/// Our own handshake.
pub open spec fn ours_model() -> HandshakeModel {
    HandshakeModel {
        inner: seq![("ut_metadata"@, UT_METADATA as u32)],
        port: None,
        client: None,
        ext_ip: None,
        ipv4: None,
        ipv6: None,
        reqq: None,
        metadata_size: None,
    }
}

impl MsgType {
    /// The number of the message type in `msg_type`.
    pub open spec fn code(self) -> int {
        match self {
            MsgType::Request => 0,
            MsgType::Data => 1,
            MsgType::Reject => 2,
        }
    }
}

// ---------------------------------------------------------------------------
// Writing
// ---------------------------------------------------------------------------

/// One entry, or none.
pub open spec fn entry(key: Seq<u8>, v: Option<Bencode>) -> Seq<(Seq<u8>, Bencode)> {
    match v {
        Some(x) => seq![(key, x)],
        None => Seq::empty(),
    }
}

/// One entry that holds a number, or none.
pub open spec fn int_entry(key: Seq<u8>, v: Option<int>) -> Seq<(Seq<u8>, Bencode)> {
    match v {
        Some(x) => seq![(key, Bencode::Int(x))],
        None => Seq::empty(),
    }
}

/// One entry that holds a byte string, or none.
pub open spec fn bytes_entry(key: Seq<u8>, v: Option<Seq<u8>>) -> Seq<(Seq<u8>, Bencode)> {
    match v {
        Some(x) => seq![(key, Bencode::Bytes(x))],
        None => Seq::empty(),
    }
}

/// An optional number as a mathematical integer.
pub open spec fn widen16(v: Option<u16>) -> Option<int> {
    match v {
        Some(x) => Some(x as int),
        None => None,
    }
}

/// An optional number as a mathematical integer.
pub open spec fn widen32(v: Option<u32>) -> Option<int> {
    match v {
        Some(x) => Some(x as int),
        None => None,
    }
}

/// An optional text as UTF-8.
pub open spec fn text_bytes(v: Option<Seq<char>>) -> Option<Seq<u8>> {
    match v {
        Some(x) => Some(encode_utf8(x)),
        None => None,
    }
}

/// The dictionary `m` of a handshake: each extension name with its id.
pub open spec fn names_entries(inner: Seq<(Seq<char>, u32)>) -> Seq<(Seq<u8>, Bencode)> {
    Seq::new(inner.len(), |i: int| (encode_utf8(inner[i].0), Bencode::Int(inner[i].1 as int)))
}

/// The dictionary that a handshake is written as, before its keys are
/// sorted.
pub open spec fn handshake_value(h: HandshakeModel) -> Bencode {
    Bencode::Dict(
        seq![("m".spec_bytes(), Bencode::Dict(names_entries(h.inner)))] + int_entry(
            "p".spec_bytes(),
            widen16(h.port),
        ) + bytes_entry("v".spec_bytes(), text_bytes(h.client)) + bytes_entry(
            "yourip".spec_bytes(),
            h.ext_ip,
        ) + bytes_entry("ipv4".spec_bytes(), h.ipv4) + bytes_entry("ipv6".spec_bytes(), h.ipv6)
            + int_entry("reqq".spec_bytes(), widen32(h.reqq)) + int_entry(
            "metadata_size".spec_bytes(),
            widen32(h.metadata_size),
        ),
    )
}

/// The dictionary that a metadata message is written as.
pub open spec fn metadata_value(msg_type: MsgType, piece: u32, total_size: Option<u32>) -> Bencode {
    Bencode::Dict(
        seq![
            ("msg_type".spec_bytes(), Bencode::Int(msg_type.code())),
            ("piece".spec_bytes(), Bencode::Int(piece as int)),
        ] + int_entry("total_size".spec_bytes(), widen32(total_size)),
    )
}

/// The payload of an extended message: its dictionary with sorted keys and,
/// for metadata, the bytes of the piece behind it. The empty extension has
/// no payload.
pub open spec fn message_payload(m: MessageModel) -> Seq<u8> {
    match m {
        MessageModel::Handshake(h) => serialize(canonical(handshake_value(h))),
        MessageModel::Extension(ExtensionModel::Nothing) => Seq::empty(),
        MessageModel::Extension(
            ExtensionModel::Metadata { msg_type, piece, total_size, payload },
        ) => serialize(canonical(metadata_value(msg_type, piece, total_size))) + match payload {
            Some(p) => p,
            None => Seq::empty(),
        },
    }
}

fn push_int(entries: &mut Vec<(Vec<u8>, Value)>, key: &str, v: Option<i64>)
    ensures
        entries_view(final(entries)@) == entries_view(old(entries)@) + int_entry(
            key.spec_bytes(),
            match v {
                Some(x) => Some(x as int),
                None => None,
            },
        ),
{
    match v {
        Some(x) => {
            let k = copy_range(key.as_bytes(), 0, key.as_bytes().len());
            assert(k@ =~= key.spec_bytes());
            entries.push((k, Value::Int(x)));
            assert(entries_view(entries@) =~= entries_view(old(entries)@) + seq![
                (key.spec_bytes(), Bencode::Int(x as int)),
            ]);
        },
        None => {
            assert(entries_view(entries@) =~= entries_view(old(entries)@) + Seq::<
                (Seq<u8>, Bencode),
            >::empty());
        },
    }
}

fn push_bytes_entry(entries: &mut Vec<(Vec<u8>, Value)>, key: &str, v: Option<&[u8]>)
    ensures
        entries_view(final(entries)@) == entries_view(old(entries)@) + bytes_entry(
            key.spec_bytes(),
            match v {
                Some(x) => Some(x@),
                None => None,
            },
        ),
{
    match v {
        Some(x) => {
            let k = copy_range(key.as_bytes(), 0, key.as_bytes().len());
            assert(k@ =~= key.spec_bytes());
            let data = copy_range(x, 0, x.len());
            assert(data@ =~= x@);
            entries.push((k, Value::Bytes(data)));
            assert(entries_view(entries@) =~= entries_view(old(entries)@) + seq![
                (key.spec_bytes(), Bencode::Bytes(x@)),
            ]);
        },
        None => {
            assert(entries_view(entries@) =~= entries_view(old(entries)@) + Seq::<
                (Seq<u8>, Bencode),
            >::empty());
        },
    }
}

fn option_slice(v: &Option<Vec<u8>>) -> (r: Option<&[u8]>)
    ensures
        match r {
            Some(x) => v matches Some(y) && x@ == y@,
            None => v is None,
        },
{
    match v {
        Some(x) => Some(x.as_slice()),
        None => None,
    }
}

impl Handshake {
    /// The dictionary that this handshake is written as. Its extensions
    /// become the keys of a dictionary, so no name may occur twice.
    pub fn to_value(&self) -> (v: Value)
        requires
            distinct_names(self@.inner),
        ensures
            v@ == handshake_value(self@),
    {
        let mut names: Vec<(Vec<u8>, Value)> = Vec::new();
        let mut i: usize = 0;
        while i < self.inner.len()
            invariant
                i <= self.inner@.len(),
                names@.len() == i,
                forall|j: int|
                    0 <= j < i ==> (#[trigger] names@[j]).0@ == encode_utf8(self.inner@[j].0@)
                        && names@[j].1@ == Bencode::Int(self.inner@[j].1 as int),
            decreases self.inner@.len() - i,
        {
            let name = self.inner[i].0.as_str().as_bytes();
            let key = copy_range(name, 0, name.len());
            assert(key@ =~= encode_utf8(self.inner@[i as int].0@));
            names.push((key, Value::Int(self.inner[i].1 as i64)));
            i += 1;
        }
        proof {
            assert(entries_view(names@) =~= names_entries(self@.inner));
            lemma_dict_view(names);
        }
        let mut entries: Vec<(Vec<u8>, Value)> = Vec::new();
        let m = copy_range("m".as_bytes(), 0, "m".as_bytes().len());
        assert(m@ =~= "m".spec_bytes());
        entries.push((m, Value::Dict(names)));
        assert(entries_view(entries@) =~= seq![
            ("m".spec_bytes(), Bencode::Dict(names_entries(self@.inner))),
        ]);
        push_int(
            &mut entries,
            "p",
            match self.port {
                Some(p) => Some(p as i64),
                None => None,
            },
        );
        push_bytes_entry(
            &mut entries,
            "v",
            match &self.client {
                Some(c) => Some(c.as_str().as_bytes()),
                None => None,
            },
        );
        push_bytes_entry(&mut entries, "yourip", option_slice(&self.ext_ip));
        push_bytes_entry(&mut entries, "ipv4", option_slice(&self.ipv4));
        push_bytes_entry(&mut entries, "ipv6", option_slice(&self.ipv6));
        push_int(
            &mut entries,
            "reqq",
            match self.reqq {
                Some(p) => Some(p as i64),
                None => None,
            },
        );
        push_int(
            &mut entries,
            "metadata_size",
            match self.metadata_size {
                Some(p) => Some(p as i64),
                None => None,
            },
        );
        proof {
            lemma_dict_view(entries);
        }
        Value::Dict(entries)
    }

    /// The message id under which the peer wants the extension `name`: the
    /// first one, should the peer name the extension twice.
    pub fn id_of(&self, name: &str) -> (r: Option<u32>)
        ensures
            r == id_in(self@.inner, name@),
    {
        find_id(&self.inner, name)
    }

    /// The message id under which the peer takes messages of the metadata
    /// extension, if it speaks it.
    pub fn metadata_id(&self) -> (r: Option<u8>)
        ensures
            r == metadata_id_of(self@),
    {
        match self.id_of("ut_metadata") {
            Some(id) => if 0 < id && id <= 255 {
                Some(id as u8)
            } else {
                None
            },
            None => None,
        }
    }

    /// Our own handshake: it offers the metadata extension under
    /// `UT_METADATA` and tells nothing else.
    pub fn ours() -> (h: Handshake)
        ensures
            h@ == ours_model(),
    {
        let mut inner: Vec<(String, u32)> = Vec::new();
        inner.push(("ut_metadata".to_owned(), UT_METADATA as u32));
        let h = Handshake {
            inner,
            port: None,
            client: None,
            ext_ip: None,
            ipv4: None,
            ipv6: None,
            reqq: None,
            metadata_size: None,
        };
        assert(h@.inner =~= seq![("ut_metadata"@, UT_METADATA as u32)]);
        h
    }
}

fn type_code(t: MsgType) -> (c: i64)
    ensures
        c == t.code(),
{
    match t {
        MsgType::Request => 0,
        MsgType::Data => 1,
        MsgType::Reject => 2,
    }
}

impl Message {
    /// The payload of this message, as it goes behind the extended message
    /// id.
    pub fn to_bencode(&self) -> (r: Vec<u8>)
        requires
            writable(self@),
        ensures
            r@ == message_payload(self@),
    {
        match self {
            Message::Handshake(h) => {
                let v = h.to_value();
                encode(&v)
            },
            Message::Extension(Extension::Nothing) => Vec::new(),
            Message::Extension(Extension::Metadata { msg_type, piece, total_size, payload }) => {
                let mut entries: Vec<(Vec<u8>, Value)> = Vec::new();
                push_int(&mut entries, "msg_type", Some(type_code(*msg_type)));
                push_int(&mut entries, "piece", Some(*piece as i64));
                push_int(
                    &mut entries,
                    "total_size",
                    match total_size {
                        Some(t) => Some(*t as i64),
                        None => None,
                    },
                );
                proof {
                    lemma_dict_view(entries);
                    assert(entries_view(entries@) =~= metadata_value(
                        *msg_type,
                        *piece,
                        *total_size,
                    )->Dict_0);
                }
                let v = Value::Dict(entries);
                let mut out = encode(&v);
                match payload {
                    Some(p) => {
                        crate::wire::push_bytes(&mut out, p.as_slice());
                    },
                    None => {
                        assert(out@ + Seq::<u8>::empty() =~= out@);
                    },
                }
                out
            },
        }
    }

    /// The peer wire message that carries this message under extended
    /// message id `id`: 0 for the handshake, the id that the peer asked for
    /// otherwise.
    pub fn to_request(&self, id: u8) -> (m: crate::pwp::Message)
        requires
            writable(self@),
        ensures
            m@ == (crate::pwp::MessageModel::Extended { id, payload: message_payload(self@) }),
    {
        crate::pwp::Message::Extended { id, payload: self.to_bencode() }
    }
}

// ---------------------------------------------------------------------------
// Reading
// ---------------------------------------------------------------------------

/// The extensions among the first `n` entries of the dictionary `m`, in
/// its order. Of a name that comes twice the first entry counts.
pub open spec fn names_upto(d: Seq<(Seq<u8>, Bencode)>, n: int) -> Result<
    Seq<(Seq<char>, u32)>,
    DecodeError,
>
    decreases n,
{
    if n <= 0 {
        Ok(Seq::empty())
    } else {
        match names_upto(d, n - 1) {
            Err(e) => Err(e),
            Ok(before) => if !valid_utf8(d[n - 1].0) {
                Err(DecodeError::Unexpected(Kind::Other, Kind::Bytes))
            } else {
                match as_u64(d[n - 1].1) {
                    Err(e) => Err(e),
                    Ok(id) => if id > u32::MAX {
                        Err(DecodeError::OverflowInteger)
                    } else if id_in(before, decode_utf8(d[n - 1].0)) is Some {
                        Ok(before)
                    } else {
                        Ok(before.push((decode_utf8(d[n - 1].0), id as u32)))
                    },
                }
            },
        }
    }
}

/// The extensions of the dictionary `m`, in its order, each name once.
pub open spec fn names_model(d: Seq<(Seq<u8>, Bencode)>) -> Result<
    Seq<(Seq<char>, u32)>,
    DecodeError,
> {
    names_upto(d, d.len() as int)
}

/// Once an entry is at fault, the entries behind it do not matter.
pub proof fn lemma_names_fault(d: Seq<(Seq<u8>, Bencode)>, at: int, n: int)
    requires
        0 <= at <= n,
        names_upto(d, at) is Err,
    ensures
        names_upto(d, n) == names_upto(d, at),
    decreases n - at,
{
    if at < n {
        lemma_names_fault(d, at, n - 1);
    }
}

/// A name has an id exactly where an entry has the name.
pub proof fn lemma_id_in(names: Seq<(Seq<char>, u32)>, name: Seq<char>)
    ensures
        id_in(names, name) is None <==> forall|i: int|
            0 <= i < names.len() ==> (#[trigger] names[i]).0 != name,
    decreases names.len(),
{
    if names.len() > 0 {
        let rest = names.drop_first();
        lemma_id_in(rest, name);
        if names[0].0 != name {
            if id_in(rest, name) is None {
                assert forall|i: int| 0 <= i < names.len() implies (#[trigger] names[i]).0
                    != name by {
                    if i > 0 {
                        assert(rest[i - 1] == names[i]);
                    }
                }
            } else {
                let i = choose|i: int| 0 <= i < rest.len() && (#[trigger] rest[i]).0 == name;
                assert(names[i + 1] == rest[i]);
            }
        }
    }
}

/// The extensions that are read out of a dictionary have each name once.
pub proof fn lemma_names_distinct(d: Seq<(Seq<u8>, Bencode)>, n: int)
    requires
        names_upto(d, n) is Ok,
    ensures
        distinct_names(names_upto(d, n)->Ok_0),
    decreases n,
{
    if n > 0 {
        lemma_names_distinct(d, n - 1);
        let before = names_upto(d, n - 1)->Ok_0;
        let name = decode_utf8(d[n - 1].0);
        lemma_id_in(before, name);
    }
}

/// What the dictionary of a handshake says. Keys it does not know are
/// passed over.
pub open spec fn handshake_model(d: Seq<(Seq<u8>, Bencode)>) -> Result<HandshakeModel, DecodeError> {
    match lookup(d, "m".spec_bytes()) {
        Some(Bencode::Dict(names)) => handshake_rest(d, names_model(names)),
        Some(other) => Err(
            DecodeError::Unexpected(crate::bencode::fields::kind_of(other), Kind::Dict),
        ),
        None => handshake_rest(d, Ok(Seq::empty())),
    }
}

/// The handshake that the dictionary `d` holds, given the extensions that
/// its `m` entry names.
pub open spec fn handshake_rest(
    d: Seq<(Seq<u8>, Bencode)>,
    names: Result<Seq<(Seq<char>, u32)>, DecodeError>,
) -> Result<HandshakeModel, DecodeError> {
    match names {
        Err(e) => Err(e),
        Ok(inner) => match bounded(d, "p".spec_bytes(), 65535) {
            Err(e) => Err(e),
            Ok(port) => match optional_text(d, "v".spec_bytes()) {
                Err(e) => Err(e),
                Ok(client) => match sized(d, "yourip".spec_bytes(), 4, 16) {
                    Err(e) => Err(e),
                    Ok(ext_ip) => match sized(d, "ipv4".spec_bytes(), 4, 4) {
                        Err(e) => Err(e),
                        Ok(ipv4) => match sized(d, "ipv6".spec_bytes(), 16, 16) {
                            Err(e) => Err(e),
                            Ok(ipv6) => match bounded(d, "reqq".spec_bytes(), u32::MAX as int) {
                                Err(e) => Err(e),
                                Ok(reqq) => match bounded(
                                    d,
                                    "metadata_size".spec_bytes(),
                                    u32::MAX as int,
                                ) {
                                    Err(e) => Err(e),
                                    Ok(metadata_size) => Ok(
                                        HandshakeModel {
                                            inner,
                                            port: to_u16(port),
                                            client,
                                            ext_ip,
                                            ipv4,
                                            ipv6,
                                            reqq: to_u32(reqq),
                                            metadata_size: to_u32(metadata_size),
                                        },
                                    ),
                                },
                            },
                        },
                    },
                },
            },
        },
    }
}

/// The message type that a number in `msg_type` stands for.
pub open spec fn type_of(code: u64) -> Option<MsgType> {
    if code == 0 {
        Some(MsgType::Request)
    } else if code == 1 {
        Some(MsgType::Data)
    } else if code == 2 {
        Some(MsgType::Reject)
    } else {
        None
    }
}

/// What the dictionary of a metadata message says, with `rest` as the bytes
/// behind it: the piece for a data message; no other message has any.
pub open spec fn metadata_model(d: Seq<(Seq<u8>, Bencode)>, rest: Seq<u8>) -> Result<
    ExtensionModel,
    DecodeError,
> {
    match field_u64(d, "msg_type".spec_bytes()) {
        Err(e) => Err(e),
        Ok(code) => match type_of(code) {
            None => Err(DecodeError::OverflowInteger),
            Some(msg_type) => match field_u64(d, "piece".spec_bytes()) {
                Err(e) => Err(e),
                Ok(piece) => if piece > u32::MAX {
                    Err(DecodeError::OverflowInteger)
                } else {
                    match bounded(d, "total_size".spec_bytes(), u32::MAX as int) {
                        Err(e) => Err(e),
                        Ok(total_size) => if msg_type == MsgType::Data {
                            Ok(
                                ExtensionModel::Metadata {
                                    msg_type,
                                    piece: piece as u32,
                                    total_size: to_u32(total_size),
                                    payload: Some(rest),
                                },
                            )
                        } else if rest.len() > 0 {
                            Err(DecodeError::TrailingBytes)
                        } else {
                            Ok(
                                ExtensionModel::Metadata {
                                    msg_type,
                                    piece: piece as u32,
                                    total_size: to_u32(total_size),
                                    payload: None,
                                },
                            )
                        },
                    }
                },
            },
        },
    }
}

/// What the payload of an extended message says: a dictionary with
/// `msg_type` is a metadata message, any other a handshake, which nothing
/// may follow.
pub open spec fn message_model(bytes: Seq<u8>) -> Result<MessageModel, DecodeError> {
    match parse_value(bytes, DEFAULT_DEPTH as nat) {
        Err(e) => Err(e),
        Ok((v, n)) => match as_dict(v) {
            Err(e) => Err(e),
            Ok(d) => if lookup(d, "msg_type".spec_bytes()) is Some {
                match metadata_model(d, bytes.skip(n)) {
                    Ok(e) => Ok(MessageModel::Extension(e)),
                    Err(e) => Err(e),
                }
            } else if n != bytes.len() {
                Err(DecodeError::TrailingBytes)
            } else {
                match handshake_model(d) {
                    Ok(h) => Ok(MessageModel::Handshake(h)),
                    Err(e) => Err(e),
                }
            },
        },
    }
}

/// The id that `names` gives the extension `name`: that of the first entry
/// with this name.
fn find_id(names: &Vec<(String, u32)>, name: &str) -> (r: Option<u32>)
    ensures
        r == id_in(names_view(names@), name@),
{
    let ghost all = names_view(names@);
    let mut i: usize = 0;
    assert(all.skip(0) =~= all);
    while i < names.len()
        invariant
            i <= names@.len(),
            all == names_view(names@),
            id_in(all, name@) == id_in(all.skip(i as int), name@),
        decreases names@.len() - i,
    {
        assert(all.skip(i as int)[0] == all[i as int]);
        assert(all.skip(i as int).drop_first() =~= all.skip(i + 1));
        if crate::magnet::same_text(names[i].0.as_str(), name) {
            return Some(names[i].1);
        }
        i += 1;
    }
    None
}

fn decode_names(d: &Vec<(Vec<u8>, Value)>) -> (r: Result<Vec<(String, u32)>, DecodeError>)
    ensures
        r matches Ok(n) ==> names_model(entries_view(d@)) == Ok::<
            Seq<(Seq<char>, u32)>,
            DecodeError,
        >(names_view(n@)) && distinct_names(names_view(n@)),
        r matches Err(e) ==> names_model(entries_view(d@)) == Err::<
            Seq<(Seq<char>, u32)>,
            DecodeError,
        >(e),
{
    let ghost model = entries_view(d@);
    let mut out: Vec<(String, u32)> = Vec::new();
    let mut i: usize = 0;
    proof {
        assert(names_view(out@) =~= Seq::<(Seq<char>, u32)>::empty());
    }
    while i < d.len()
        invariant
            i <= d@.len(),
            model == entries_view(d@),
            names_upto(model, i as int) == Ok::<Seq<(Seq<char>, u32)>, DecodeError>(
                names_view(out@),
            ),
        decreases d@.len() - i,
    {
        proof {
            assert(model[i as int] == (d@[i as int].0@, d@[i as int].1@));
        }
        let raw = copy_range(d[i].0.as_slice(), 0, d[i].0.len());
        assert(raw@ =~= d@[i as int].0@);
        let name = match crate::text::string_from_utf8(raw) {
            Some(n) => n,
            None => {
                proof {
                    lemma_names_fault(model, i + 1, d@.len() as int);
                }
                return Err(DecodeError::Unexpected(Kind::Other, Kind::Bytes));
            },
        };
        let id: u64 = match u64_of(&d[i].1) {
            Ok(id) => id,
            Err(e) => {
                proof {
                    lemma_names_fault(model, i + 1, d@.len() as int);
                }
                return Err(e);
            },
        };
        if id > 0xffff_ffff {
            proof {
                lemma_names_fault(model, i + 1, d@.len() as int);
            }
            return Err(DecodeError::OverflowInteger);
        }
        if find_id(&out, name.as_str()).is_none() {
            proof {
                let before = names_view(out@);
                let e = (name@, id as u32);
                assert(names_view(out@.push((name, id as u32))) =~= before.push(e));
            }
            out.push((name, id as u32));
        }
        i += 1;
    }
    proof {
        lemma_names_distinct(model, d@.len() as int);
    }
    Ok(out)
}

impl Handshake {
    /// Reads the dictionary of a handshake.
    pub fn decode_bencode_object(d: &Vec<(Vec<u8>, Value)>) -> (r: Result<Handshake, DecodeError>)
        ensures
            r matches Ok(h) ==> handshake_model(entries_view(d@)) == Ok::<
                HandshakeModel,
                DecodeError,
            >(h@) && distinct_names(h@.inner),
            r matches Err(e) ==> handshake_model(entries_view(d@)) == Err::<
                HandshakeModel,
                DecodeError,
            >(e),
    {
        let inner: Vec<(String, u32)> = match get(d, "m".as_bytes()) {
            Some(v) => {
                let names = dict_of(v)?;
                decode_names(names)?
            },
            None => {
                let empty: Vec<(String, u32)> = Vec::new();
                assert(names_view(empty@) =~= Seq::<(Seq<char>, u32)>::empty());
                empty
            },
        };
        let port = get_bounded(d, "p", 65535)?;
        let client = get_optional_text(d, "v")?;
        let ext_ip = get_sized(d, "yourip", 4, 16)?;
        let ipv4 = get_sized(d, "ipv4", 4, 4)?;
        let ipv6 = get_sized(d, "ipv6", 16, 16)?;
        let reqq = get_bounded(d, "reqq", 0xffff_ffff)?;
        let metadata_size = get_bounded(d, "metadata_size", 0xffff_ffff)?;
        Ok(
            Handshake {
                inner,
                port: narrow16(port),
                client,
                ext_ip,
                ipv4,
                ipv6,
                reqq: narrow32(reqq),
                metadata_size: narrow32(metadata_size),
            },
        )
    }
}

impl Message {
    /// Reads the payload of an extended message.
    pub fn from_bencode(bytes: &[u8]) -> (r: Result<Message, DecodeError>)
        ensures
            r matches Ok(m) ==> message_model(bytes@) == Ok::<MessageModel, DecodeError>(m@)
                && writable(m@),
            r matches Err(e) ==> message_model(bytes@) == Err::<MessageModel, DecodeError>(e),
    {
        assert(bytes@.skip(0) =~= bytes@);
        let (v, end) = decode_value(bytes, 0, DEFAULT_DEPTH)?;
        let d = dict_of(&v)?;
        if get(d, "msg_type".as_bytes()).is_some() {
            let code: u64 = get_u64(d, "msg_type")?;
            let msg_type: MsgType = if code == 0 {
                MsgType::Request
            } else if code == 1 {
                MsgType::Data
            } else if code == 2 {
                MsgType::Reject
            } else {
                return Err(DecodeError::OverflowInteger);
            };
            let piece: u64 = get_u64(d, "piece")?;
            if piece > 0xffff_ffff {
                return Err(DecodeError::OverflowInteger);
            }
            let total_size = get_bounded(d, "total_size", 0xffff_ffff)?;
            let payload: Option<Vec<u8>> = match msg_type {
                MsgType::Data => {
                    let rest = copy_range(bytes, end, bytes.len());
                    assert(rest@ =~= bytes@.skip(end as int));
                    Some(rest)
                },
                _ => {
                    if end != bytes.len() {
                        return Err(DecodeError::TrailingBytes);
                    }
                    None
                },
            };
            Ok(
                Message::Extension(
                    Extension::Metadata {
                        msg_type,
                        piece: piece as u32,
                        total_size: narrow32(total_size),
                        payload,
                    },
                ),
            )
        } else {
            if end != bytes.len() {
                return Err(DecodeError::TrailingBytes);
            }
            let h = Handshake::decode_bencode_object(d)?;
            Ok(Message::Handshake(h))
        }
    }

    /// Reads the extended message that a peer wire message carries.
    pub fn from_request(m: &crate::pwp::Message) -> (r: Option<Message>)
        ensures
            match m@ {
                crate::pwp::MessageModel::Extended { id, payload } => match message_model(
                    payload,
                ) {
                    Ok(x) => r matches Some(y) && y@ == x && writable(y@),
                    Err(_) => r is None,
                },
                _ => r is None,
            },
    {
        match m {
            crate::pwp::Message::Extended { id, payload } => {
                match Message::from_bencode(payload.as_slice()) {
                    Ok(x) => Some(x),
                    Err(_) => None,
                }
            },
            _ => None,
        }
    }
}

// ---------------------------------------------------------------------------
// Fetching the metadata
// ---------------------------------------------------------------------------

/// Largest `info` dictionary that is fetched from peers (16 MiB).
pub const MAX_METADATA: u32 = 0x100_0000;

/// The `info` dictionary of a torrent while it is fetched from peers in
/// pieces of 16 KiB.
#[derive(Clone, Debug, PartialEq, Eq)]
pub struct Metadata {
    /// The bytes so far; zero where nothing has arrived.
    pub data: Vec<u8>,
    /// Which pieces have arrived.
    pub have: Vec<bool>,
}

impl Metadata {
    /// There is a flag for each piece of the data.
    pub open spec fn wf(&self) -> bool {
        self.have@.len() == blocks_in(self.data@.len() as int) && self.data@.len()
            <= MAX_METADATA
    }

    /// Every piece has arrived.
    pub open spec fn complete(&self) -> bool {
        forall|i: int| 0 <= i < self.have@.len() ==> #[trigger] self.have@[i]
    }

    /// Room for metadata of `total` bytes, nothing of it here yet. `None`
    /// for an empty dictionary and for one beyond `MAX_METADATA`.
    pub fn new(total: u32) -> (r: Option<Metadata>)
        ensures
            r is Some <==> 0 < total <= MAX_METADATA,
            r matches Some(m) ==> m.wf() && m.data@ == zeros(total as int) && forall|i: int|
                0 <= i < m.have@.len() ==> !#[trigger] m.have@[i],
    {
        if total == 0 || total > MAX_METADATA {
            return None;
        }
        let mut data: Vec<u8> = Vec::new();
        let mut i: usize = 0;
        while i < total as usize
            invariant
                i <= total,
                data@.len() == i,
                forall|j: int| 0 <= j < i ==> data@[j] == 0,
            decreases total - i,
        {
            data.push(0);
            i += 1;
        }
        assert(data@ =~= zeros(total as int));
        let pieces: usize = block_count(total as usize);
        let mut have: Vec<bool> = Vec::new();
        let mut k: usize = 0;
        while k < pieces
            invariant
                k <= pieces,
                have@.len() == k,
                forall|j: int| 0 <= j < k ==> !#[trigger] have@[j],
            decreases pieces - k,
        {
            have.push(false);
            k += 1;
        }
        Some(Metadata { data, have })
    }

    /// The first piece that has not arrived: the one to ask a peer for.
    pub fn next_missing(&self) -> (r: Option<u32>)
        requires
            self.wf(),
        ensures
            r is None <==> self.complete(),
            r matches Some(p) ==> p < self.have@.len() && !self.have@[p as int] && forall|i: int|
                0 <= i < p ==> #[trigger] self.have@[i],
    {
        let mut i: usize = 0;
        while i < self.have.len()
            invariant
                i <= self.have@.len(),
                self.have@.len() <= MAX_METADATA,
                forall|j: int| 0 <= j < i ==> #[trigger] self.have@[j],
            decreases self.have@.len() - i,
        {
            if !self.have[i] {
                return Some(i as u32);
            }
            i += 1;
        }
        None
    }

    /// The request for piece `piece`.
    pub fn request(piece: u32) -> (m: Message)
        ensures
            m@ == MessageModel::Extension(
                ExtensionModel::Metadata {
                    msg_type: MsgType::Request,
                    piece,
                    total_size: None,
                    payload: None,
                },
            ),
    {
        Message::Extension(
            Extension::Metadata { msg_type: MsgType::Request, piece, total_size: None, payload: None },
        )
    }

    /// Takes in the bytes of piece `piece`. A piece that the metadata has
    /// not, or bytes of another length than the piece has, are refused as an
    /// invalid piece index, and nothing changes.
    pub fn store(&mut self, piece: u32, payload: &[u8]) -> (r: Result<(), GeneralError>)
        requires
            old(self).wf(),
        ensures
            final(self).wf(),
            r is Ok <==> piece < old(self).have@.len() && payload@.len() == block_len(
                old(self).data@.len() as int,
                piece as int,
            ),
            r is Err ==> r == Err::<(), GeneralError>(GeneralError::InvalidPieceIdx) && *final(self)
                == *old(self),
            r is Ok ==> final(self).data@ == overwrite(
                old(self).data@,
                16384 * piece,
                payload@,
            ) && final(self).have@ == old(self).have@.update(piece as int, true),
    {
        let total: usize = self.data.len();
        if piece as usize >= self.have.len() {
            return Err(GeneralError::InvalidPieceIdx);
        }
        let n: usize = block_bytes(total, piece as usize);
        if payload.len() != n {
            return Err(GeneralError::InvalidPieceIdx);
        }
        let begin: usize = 16384 * (piece as usize);
        let ghost base = self.data@;
        let mut i: usize = 0;
        while i < n
            invariant
                i <= n,
                n == payload@.len(),
                begin + n <= total,
                total == base.len(),
                self.data@.len() == total,
                self.have == old(self).have,
                forall|j: int|
                    0 <= j < total ==> self.data@[j] == (if begin <= j < begin + i {
                        payload@[j - begin]
                    } else {
                        base[j]
                    }),
            decreases n - i,
        {
            self.data[begin + i] = payload[i];
            i += 1;
        }
        self.have[piece as usize] = true;
        proof {
            assert(self.data@ =~= overwrite(base, 16384 * piece, payload@));
        }
        Ok(())
    }

    /// The `info` dictionary that was fetched, once every piece is here and
    /// the SHA-1 of the bytes is the info-hash `hash`. Metadata that is not
    /// whole yet is reported as missing; bytes with another hash as an
    /// invalid piece hash; bytes that are no valid `info` dictionary as a
    /// parse failure.
    pub fn finish(&self, hash: &[u8; 20]) -> (r: Result<Info, GeneralError>)
        requires
            self.wf(),
        ensures
            !self.complete() ==> r == Err::<Info, GeneralError>(GeneralError::MissingInfo),
            self.complete() && sha1(self.data@) != hash@ ==> r == Err::<Info, GeneralError>(
                GeneralError::InvalidPieceHash,
            ),
            self.complete() && sha1(self.data@) == hash@ ==> match crate::bencode::parse(
                self.data@,
                crate::bencode::METAINFO_DEPTH as nat,
            ) {
                Err(_) => r matches Err(GeneralError::ParseFailure(_)),
                Ok(v) => match info_model(v, hash@) {
                    Err(_) => r matches Err(GeneralError::ParseFailure(_)),
                    Ok(i) => r matches Ok(x) && x@ == i && x@.valid(),
                },
            },
    {
        if self.next_missing().is_some() {
            return Err(GeneralError::MissingInfo);
        }
        let digest: [u8; 20] = sha1_digest(self.data.as_slice());
        if !same_hash(&digest, hash) {
            return Err(GeneralError::InvalidPieceHash);
        }
        let v = match crate::bencode::decoder::decode(
            self.data.as_slice(),
            crate::bencode::METAINFO_DEPTH,
        ) {
            Ok(v) => v,
            Err(_) => {
                return Err(GeneralError::ParseFailure(String::new()));
            },
        };
        match Info::decode_bencode_object(&v, *hash) {
            Ok(info) => Ok(info),
            Err(_) => Err(GeneralError::ParseFailure(String::new())),
        }
    }
}

/// Fetching the `info` dictionary of a torrent that is known by its hash
/// alone, from peers that speak the metadata extension.
#[derive(Clone, Debug, PartialEq, Eq)]
pub struct Fetch {
    /// The info-hash of the torrent.
    pub hash: [u8; 20],
    /// What has arrived; nothing before a peer has told the size.
    pub metadata: Option<Metadata>,
}

/// What is to be done after a step of the fetch.
#[derive(Clone, Debug, PartialEq, Eq)]
pub enum Step {
    /// Nothing.
    Idle,
    /// Send this request for a piece to the peer.
    Ask(crate::pwp::Message),
    /// The peer sent a piece that the metadata has no room for: close the
    /// connection.
    Drop,
    /// Every piece is here and the bytes are the torrent's `info`
    /// dictionary.
    Done(Info),
    /// Every piece is here and the bytes are not the torrent's: they are
    /// thrown away, and the fetch starts again with the next handshake.
    Restart,
}

/// Whether `step` asks for piece `piece` of the metadata under message id
/// `id`.
pub open spec fn asks(step: Step, id: u8, piece: u32) -> bool {
    step matches Step::Ask(m) && m@ == (crate::pwp::MessageModel::Extended {
        id,
        payload: message_payload(
            MessageModel::Extension(
                ExtensionModel::Metadata {
                    msg_type: MsgType::Request,
                    piece,
                    total_size: None,
                    payload: None,
                },
            ),
        ),
    })
}

/// Whether `p` is the first piece of which `have` has nothing.
pub open spec fn first_missing(have: Seq<bool>, p: int) -> bool {
    0 <= p < have.len() && !have[p] && forall|i: int| 0 <= i < p ==> #[trigger] have[i]
}

/// Whether every piece of `have` is here.
pub open spec fn all_here(have: Seq<bool>) -> bool {
    forall|i: int| 0 <= i < have.len() ==> #[trigger] have[i]
}

/// The `info` dictionary that the bytes `data` are, if they have the hash
/// `hash` and are one.
pub open spec fn fetched(data: Seq<u8>, hash: Seq<u8>) -> Option<crate::data::InfoModel> {
    if sha1(data) != hash {
        None
    } else {
        match crate::bencode::parse(data, crate::bencode::METAINFO_DEPTH as nat) {
            Err(_) => None,
            Ok(v) => match info_model(v, hash) {
                Err(_) => None,
                Ok(i) => Some(i),
            },
        }
    }
}

impl Fetch {
    /// What has arrived is well formed.
    pub open spec fn wf(&self) -> bool {
        self.metadata matches Some(m) ==> m.wf()
    }

    /// A fetch for the torrent `hash`, with nothing known of its metadata.
    pub fn new(hash: [u8; 20]) -> (f: Fetch)
        ensures
            f.wf(),
            f.hash == hash,
            f.metadata is None,
    {
        Fetch { hash, metadata: None }
    }

    /// Takes the extended handshake of a peer. A peer that speaks the
    /// metadata extension and tells the size of the metadata is asked for
    /// the first piece that is missing; the first such handshake decides how
    /// much room is made. Any other handshake changes nothing.
    pub fn greeted(&mut self, h: &Handshake) -> (r: Step)
        requires
            old(self).wf(),
        ensures
            final(self).wf(),
            final(self).hash == old(self).hash,
            match (metadata_id_of(h@), h.metadata_size, old(self).metadata) {
                (Some(id), Some(size), Some(m)) => final(self).metadata == old(self).metadata
                    && (if all_here(m.have@) {
                    r is Idle
                } else {
                    exists|p: int| first_missing(m.have@, p) && asks(r, id, p as u32)
                }),
                (Some(id), Some(size), None) => if 0 < size <= MAX_METADATA {
                    &&& final(self).metadata matches Some(m)
                    &&& m.data@ == zeros(size as int)
                    &&& m.have@ == Seq::new(blocks_in(size as int) as nat, |i: int| false)
                    &&& asks(r, id, 0)
                } else {
                    final(self).metadata is None && r is Idle
                },
                _ => r is Idle && final(self).metadata == old(self).metadata,
            },
    {
        let id: u8 = match h.metadata_id() {
            Some(id) => id,
            None => {
                return Step::Idle;
            },
        };
        let size: u32 = match h.metadata_size {
            Some(size) => size,
            None => {
                return Step::Idle;
            },
        };
        if self.metadata.is_none() {
            self.metadata = Metadata::new(size);
            proof {
                if self.metadata is Some {
                    let m = self.metadata->Some_0;
                    assert(m.have@ =~= Seq::new(blocks_in(size as int) as nat, |i: int| false));
                    assert(!m.have@[0]);
                }
            }
        }
        match &self.metadata {
            None => Step::Idle,
            Some(m) => match m.next_missing() {
                None => Step::Idle,
                Some(p) => {
                    assert(first_missing(m.have@, p as int));
                    Step::Ask(Metadata::request(p).to_request(id))
                },
            },
        }
    }

    /// Takes a message of the metadata extension from a peer that takes
    /// such messages under the id `remote`. A piece of data is stored; the
    /// peer is then asked for the next piece that is missing, or, with the
    /// last piece, the bytes are checked against the info-hash and read. A
    /// piece that does not fit has the peer dropped. Any other message, and
    /// any before the size is known, changes nothing.
    pub fn delivered(&mut self, remote: u8, message: &Message) -> (r: Step)
        requires
            old(self).wf(),
        ensures
            final(self).wf(),
            final(self).hash == old(self).hash,
            match (message@, old(self).metadata) {
                (
                    MessageModel::Extension(
                        ExtensionModel::Metadata {
                            msg_type: MsgType::Data,
                            piece,
                            payload: Some(bytes),
                            ..
                        },
                    ),
                    Some(m),
                ) => if !(piece < m.have@.len() && bytes.len() == block_len(
                    m.data@.len() as int,
                    piece as int,
                )) {
                    r is Drop && final(self).metadata == old(self).metadata
                } else {
                    let data = overwrite(m.data@, 16384 * piece, bytes);
                    let have = m.have@.update(piece as int, true);
                    if !all_here(have) {
                        &&& final(self).metadata matches Some(n)
                        &&& n.data@ == data
                        &&& n.have@ == have
                        &&& exists|p: int| first_missing(have, p) && asks(r, remote, p as u32)
                    } else {
                        match fetched(data, old(self).hash@) {
                            Some(i) => {
                                &&& r matches Step::Done(x)
                                &&& x@ == i
                                &&& final(self).metadata matches Some(n)
                                &&& n.data@ == data
                                &&& n.have@ == have
                            },
                            None => r is Restart && final(self).metadata is None,
                        }
                    }
                },
                _ => r is Idle && final(self).metadata == old(self).metadata,
            },
    {
        let (piece, bytes): (u32, &Vec<u8>) = match message {
            Message::Extension(
                Extension::Metadata { msg_type: MsgType::Data, piece, payload: Some(bytes), .. },
            ) => (*piece, bytes),
            _ => {
                return Step::Idle;
            },
        };
        let mut m: Metadata = match self.metadata.take() {
            Some(m) => m,
            None => {
                return Step::Idle;
            },
        };
        if m.store(piece, bytes.as_slice()).is_err() {
            self.metadata = Some(m);
            return Step::Drop;
        }
        match m.next_missing() {
            Some(p) => {
                assert(first_missing(m.have@, p as int));
                self.metadata = Some(m);
                Step::Ask(Metadata::request(p).to_request(remote))
            },
            None => match m.finish(&self.hash) {
                Ok(info) => {
                    self.metadata = Some(m);
                    Step::Done(info)
                },
                Err(_) => Step::Restart,
            },
        }
    }
}

} // verus!
