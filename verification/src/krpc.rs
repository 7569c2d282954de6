//! The messages that DHT nodes exchange: queries, responses and errors, as
//! bencoded dictionaries.

use vstd::prelude::*;
use vstd::slice::slice_subrange;
use vstd::string::StringSliceAdditionalSpecFns;
use vstd::utf8::encode_utf8;
use crate::bencode::{Bencode, DecodeError, Kind, Value, DEFAULT_DEPTH, canonical, entries_view, items_view, lookup, parse, serialize};
use crate::bencode::decoder::{decode, lemma_dict_view, lemma_list_view};
use crate::bencode::encoder::encode;
use crate::bencode::fields::{as_bytes, as_dict, as_int, as_list, as_text, bounded, bytes_of, dict_of, field_text, get, get_bounded, get_optional_text, get_optional_u64, get_required, get_sized, get_text, int_of, list_of, narrow16, optional_bytes, optional_text, optional_u64, owned_text_view, required, sized, text_of, to_u16};
use crate::data::{Endpoint, GeneralError};
use crate::extensions::{bytes_entry, int_entry, text_bytes, widen16};
use crate::helpers::range_to_array;
use crate::metainfo::{lemma_try_map_end, lemma_try_map_start, lemma_try_map_step, mapped_after, try_map};
use crate::udp::{endpoint_at, endpoint_bytes};
use crate::wire::{copy_range, push_bytes, push_u16, push_u32, read_u16, read_u32};

verus! {

/// The queries of the DHT.
#[derive(Clone, Copy, Debug, Default, PartialEq, Eq, Structural)]
pub enum Method {
    #[default]
    Ping,
    FindNode,
    GetPeers,
    AnnouncePeer,
}

/// Why a node refused a query.
#[derive(Clone, Copy, Debug, Default, PartialEq, Eq, Structural)]
pub enum ErrorKind {
    #[default]
    Generic,
    Server,
    Protocol,
    MethodUnknown,
}

/// A refusal: its kind and what the node says about it.
#[derive(Clone, Debug, Default, PartialEq, Eq)]
pub struct Error {
    pub description: String,
    pub kind: ErrorKind,
}

/// What a query carries.
#[derive(Clone, Debug, Default, PartialEq, Eq)]
pub struct Arguments {
    pub method: Method,
    pub id: [u8; 20],
    pub target: Option<[u8; 20]>,
    pub info_hash: Option<[u8; 20]>,
    pub port: Option<u16>,
    pub implied_port: Option<bool>,
    pub token: Option<String>,
}

/// A node or peer as 26 bytes: its id, its IPv4 address and its port.
#[derive(Clone, Copy, Debug, PartialEq, Eq)]
pub struct CompactNode {
    pub id: [u8; 20],
    pub ip: Endpoint,
}

/// What a response carries.
#[derive(Clone, Debug, Default, PartialEq, Eq)]
pub struct Values {
    pub id: [u8; 20],
    pub nodes: Option<Vec<CompactNode>>,
    pub values: Option<Vec<CompactNode>>,
    pub token: Option<String>,
}

/// What a message says: a query, the answer to one, or an error.
#[derive(Clone, Debug, PartialEq, Eq)]
pub enum Message {
    Query(Arguments),
    Response(Values),
    Error(Error),
}

/// A message with the transaction id that ties a response to its query.
#[derive(Clone, Debug, PartialEq, Eq)]
pub struct ExtMessage {
    pub inner: Message,
    pub transaction_id: String,
}

/// The arguments of a query, as plain values.
pub struct ArgumentsModel {
    pub method: Method,
    pub id: Seq<u8>,
    pub target: Option<Seq<u8>>,
    pub info_hash: Option<Seq<u8>>,
    pub port: Option<u16>,
    pub implied_port: Option<bool>,
    pub token: Option<Seq<char>>,
}

/// A node, as plain values.
pub struct NodeModel {
    pub id: Seq<u8>,
    pub ip: Endpoint,
}

/// The values of a response, as plain values.
pub struct ValuesModel {
    pub id: Seq<u8>,
    pub nodes: Option<Seq<NodeModel>>,
    pub values: Option<Seq<NodeModel>>,
    pub token: Option<Seq<char>>,
}

/// An error, as plain values.
pub struct ErrorModel {
    pub description: Seq<char>,
    pub kind: ErrorKind,
}

/// What a message says, as plain values.
pub enum MessageModel {
    Query(ArgumentsModel),
    Response(ValuesModel),
    Error(ErrorModel),
}

/// A message with its transaction id, as plain values.
pub struct ExtMessageModel {
    pub inner: MessageModel,
    pub transaction_id: Seq<char>,
}

/// The bytes of an optional hash.
pub open spec fn hash_option_view(h: Option<[u8; 20]>) -> Option<Seq<u8>> {
    match h {
        Some(x) => Some(x@),
        None => None,
    }
}

impl View for Arguments {
    type V = ArgumentsModel;

    open spec fn view(&self) -> ArgumentsModel {
        ArgumentsModel {
            method: self.method,
            id: self.id@,
            target: hash_option_view(self.target),
            info_hash: hash_option_view(self.info_hash),
            port: self.port,
            implied_port: self.implied_port,
            token: owned_text_view(self.token),
        }
    }
}

impl View for CompactNode {
    type V = NodeModel;

    open spec fn view(&self) -> NodeModel {
        NodeModel { id: self.id@, ip: self.ip }
    }
}

/// Each node as plain values.
pub open spec fn nodes_view(v: Seq<CompactNode>) -> Seq<NodeModel> {
    Seq::new(v.len(), |i: int| v[i]@)
}

/// The nodes of an optional list, as plain values.
pub open spec fn nodes_option_view(v: Option<Vec<CompactNode>>) -> Option<Seq<NodeModel>> {
    match v {
        Some(l) => Some(nodes_view(l@)),
        None => None,
    }
}

impl View for Values {
    type V = ValuesModel;

    open spec fn view(&self) -> ValuesModel {
        ValuesModel {
            id: self.id@,
            nodes: nodes_option_view(self.nodes),
            values: nodes_option_view(self.values),
            token: owned_text_view(self.token),
        }
    }
}

impl View for Error {
    type V = ErrorModel;

    open spec fn view(&self) -> ErrorModel {
        ErrorModel { description: self.description@, kind: self.kind }
    }
}

impl View for Message {
    type V = MessageModel;

    open spec fn view(&self) -> MessageModel {
        match self {
            Message::Query(a) => MessageModel::Query(a@),
            Message::Response(v) => MessageModel::Response(v@),
            Message::Error(e) => MessageModel::Error(e@),
        }
    }
}

impl View for ExtMessage {
    type V = ExtMessageModel;

    open spec fn view(&self) -> ExtMessageModel {
        ExtMessageModel { inner: self.inner@, transaction_id: self.transaction_id@ }
    }
}

impl ErrorKind {
    /// The number that stands for the kind.
    pub open spec fn code(self) -> int {
        match self {
            ErrorKind::Generic => 201,
            ErrorKind::Server => 202,
            ErrorKind::Protocol => 203,
            ErrorKind::MethodUnknown => 204,
        }
    }

    /// The kind of error that a code stands for.
    pub open spec fn of(code: int) -> Option<ErrorKind> {
        if code == 201 {
            Some(ErrorKind::Generic)
        } else if code == 202 {
            Some(ErrorKind::Server)
        } else if code == 203 {
            Some(ErrorKind::Protocol)
        } else if code == 204 {
            Some(ErrorKind::MethodUnknown)
        } else {
            None
        }
    }

    /// The kind that a number stands for.
    pub fn from(v: i64) -> (r: Option<ErrorKind>)
        ensures
            r == Self::of(v as int),
    {
        if v == 201 {
            Some(ErrorKind::Generic)
        } else if v == 202 {
            Some(ErrorKind::Server)
        } else if v == 203 {
            Some(ErrorKind::Protocol)
        } else if v == 204 {
            Some(ErrorKind::MethodUnknown)
        } else {
            None
        }
    }

    /// The code that stands for the kind of error.
    pub fn to_code(&self) -> (c: i64)
        ensures
            c == self.code(),
    {
        match self {
            ErrorKind::Generic => 201,
            ErrorKind::Server => 202,
            ErrorKind::Protocol => 203,
            ErrorKind::MethodUnknown => 204,
        }
    }
}

impl Method {
    /// The name of the query.
    pub open spec fn name(self) -> Seq<char> {
        match self {
            Method::Ping => "ping"@,
            Method::FindNode => "find_node"@,
            Method::GetPeers => "get_peers"@,
            Method::AnnouncePeer => "announce_peer"@,
        }
    }

    /// The method that a name stands for.
    pub open spec fn of(name: Seq<char>) -> Option<Method> {
        if name == "ping"@ {
            Some(Method::Ping)
        } else if name == "find_node"@ {
            Some(Method::FindNode)
        } else if name == "get_peers"@ {
            Some(Method::GetPeers)
        } else if name == "announce_peer"@ {
            Some(Method::AnnouncePeer)
        } else {
            None
        }
    }

    fn text(&self) -> (r: &'static str)
        ensures
            r@ == self.name(),
    {
        match self {
            Method::Ping => "ping",
            Method::FindNode => "find_node",
            Method::GetPeers => "get_peers",
            Method::AnnouncePeer => "announce_peer",
        }
    }

    fn parse(name: &str) -> (r: Option<Method>)
        ensures
            r == Self::of(name@),
    {
        if crate::magnet::same_text(name, "ping") {
            Some(Method::Ping)
        } else if crate::magnet::same_text(name, "find_node") {
            Some(Method::FindNode)
        } else if crate::magnet::same_text(name, "get_peers") {
            Some(Method::GetPeers)
        } else if crate::magnet::same_text(name, "announce_peer") {
            Some(Method::AnnouncePeer)
        } else {
            None
        }
    }
}

/// The 26 bytes of a node.
pub open spec fn node_bytes(n: NodeModel) -> Seq<u8> {
    n.id + endpoint_bytes(n.ip)
}

/// The node that 26 bytes stand for.
pub open spec fn node_at(s: Seq<u8>) -> NodeModel {
    NodeModel { id: s.take(20), ip: endpoint_at(s.skip(20)) }
}

/// The nodes of a list, 26 bytes each, one after the other.
pub open spec fn nodes_bytes(v: Seq<NodeModel>) -> Seq<u8>
    decreases v.len(),
{
    if v.len() == 0 {
        Seq::empty()
    } else {
        nodes_bytes(v.drop_last()) + node_bytes(v.last())
    }
}

/// The nodes that a byte string names; a last entry cut short is ignored.
pub open spec fn nodes_at(s: Seq<u8>) -> Seq<NodeModel> {
    Seq::new(s.len() / 26, |i: int| node_at(s.subrange(26 * i, 26 * i + 26)))
}

impl CompactNode {
    /// The node that 26 bytes stand for; bytes of another number are
    /// refused as a parse failure.
    pub fn try_from(v: Vec<u8>) -> (r: Result<CompactNode, GeneralError>)
        ensures
            r is Ok <==> v@.len() == 26,
            r matches Ok(n) ==> n@ == node_at(v@),
            r matches Err(e) ==> e matches GeneralError::ParseFailure(_),
    {
        if v.len() != 26 {
            return Err(GeneralError::ParseFailure(String::new()));
        }
        assert(v@.subrange(0, 26) =~= v@);
        Ok(CompactNode::read(v.as_slice(), 0))
    }

    fn read(b: &[u8], at: usize) -> (n: CompactNode)
        requires
            at + 26 <= b@.len(),
        ensures
            n@ == node_at(b@.subrange(at as int, at + 26)),
    {
        let len: usize = b.len();
        let id: [u8; 20] = range_to_array::<20>(slice_subrange(b, at, at + 20));
        let ip: u32 = read_u32(b, at + 20);
        let port: u16 = read_u16(b, at + 24);
        proof {
            let s = b@.subrange(at as int, at + 26);
            assert(id@ =~= s.take(20));
            assert(b@.skip(at + 20).take(4) =~= s.skip(20).take(4));
            crate::wire::lemma_from_be32_prefix(b@.skip(at + 20), s.skip(20));
            assert(b@.skip(at + 24).take(2) =~= s.skip(20).skip(4).take(2));
            crate::wire::lemma_from_be16_prefix(b@.skip(at + 24), s.skip(20).skip(4));
        }
        CompactNode { id, ip: Endpoint { ip, port } }
    }

    /// The 26 bytes of the node.
    pub fn to_bytes(&self) -> (r: Vec<u8>)
        ensures
            r@ == node_bytes(self@),
    {
        let mut out: Vec<u8> = Vec::new();
        push_bytes(&mut out, self.id.as_slice());
        push_u32(&mut out, self.ip.ip);
        push_u16(&mut out, self.ip.port);
        assert(out@ =~= node_bytes(self@));
        out
    }
}

// ---------------------------------------------------------------------------
// Writing
// ---------------------------------------------------------------------------

/// One entry that holds a flag as `0` or `1`, or none.
pub open spec fn flag_entry(key: Seq<u8>, v: Option<bool>) -> Seq<(Seq<u8>, Bencode)> {
    match v {
        Some(b) => seq![(key, Bencode::Int(if b {
            1int
        } else {
            0int
        }))],
        None => Seq::empty(),
    }
}

/// The dictionary `a` of a query: the fields that are there.
pub open spec fn arguments_value(a: ArgumentsModel) -> Bencode {
    Bencode::Dict(
        seq![("id".spec_bytes(), Bencode::Bytes(a.id))] + bytes_entry(
            "target".spec_bytes(),
            a.target,
        ) + bytes_entry("info_hash".spec_bytes(), a.info_hash) + flag_entry(
            "implied_port".spec_bytes(),
            a.implied_port,
        ) + int_entry("port".spec_bytes(), widen16(a.port)) + bytes_entry(
            "token".spec_bytes(),
            text_bytes(a.token),
        ),
    )
}

/// Each node as a byte string of 26 bytes.
pub open spec fn node_values(v: Seq<NodeModel>) -> Seq<Bencode> {
    Seq::new(v.len(), |i: int| Bencode::Bytes(node_bytes(v[i])))
}

/// One entry that holds nodes as one byte string, or none.
pub open spec fn nodes_entry(key: Seq<u8>, v: Option<Seq<NodeModel>>) -> Seq<(Seq<u8>, Bencode)> {
    match v {
        Some(n) => seq![(key, Bencode::Bytes(nodes_bytes(n)))],
        None => Seq::empty(),
    }
}

/// One entry that holds nodes as a list of byte strings, or none.
pub open spec fn values_entry(key: Seq<u8>, v: Option<Seq<NodeModel>>) -> Seq<(Seq<u8>, Bencode)> {
    match v {
        Some(n) => seq![(key, Bencode::List(node_values(n)))],
        None => Seq::empty(),
    }
}

/// The dictionary `r` of a response.
pub open spec fn values_value(v: ValuesModel) -> Bencode {
    Bencode::Dict(
        seq![("id".spec_bytes(), Bencode::Bytes(v.id))] + nodes_entry(
            "nodes".spec_bytes(),
            v.nodes,
        ) + values_entry("values".spec_bytes(), v.values) + bytes_entry(
            "token".spec_bytes(),
            text_bytes(v.token),
        ),
    )
}

/// The list `e` of an error: its code and its description.
pub open spec fn error_value(e: ErrorModel) -> Bencode {
    Bencode::List(seq![Bencode::Int(e.kind.code()), Bencode::Bytes(encode_utf8(e.description))])
}

/// The dictionary that a message is written as, before its keys are sorted.
pub open spec fn message_value(m: ExtMessageModel) -> Bencode {
    let t = ("t".spec_bytes(), Bencode::Bytes(encode_utf8(m.transaction_id)));
    match m.inner {
        MessageModel::Query(a) => Bencode::Dict(
            seq![
                t,
                ("y".spec_bytes(), Bencode::Bytes("q".spec_bytes())),
                ("q".spec_bytes(), Bencode::Bytes(encode_utf8(a.method.name()))),
                ("a".spec_bytes(), arguments_value(a)),
            ],
        ),
        MessageModel::Response(v) => Bencode::Dict(
            seq![
                t,
                ("y".spec_bytes(), Bencode::Bytes("r".spec_bytes())),
                ("r".spec_bytes(), values_value(v)),
            ],
        ),
        MessageModel::Error(e) => Bencode::Dict(
            seq![
                t,
                ("y".spec_bytes(), Bencode::Bytes("e".spec_bytes())),
                ("e".spec_bytes(), error_value(e)),
            ],
        ),
    }
}

fn key_of(key: &str) -> (k: Vec<u8>)
    ensures
        k@ == key.spec_bytes(),
{
    let k = copy_range(key.as_bytes(), 0, key.as_bytes().len());
    assert(k@ =~= key.spec_bytes());
    k
}

fn text_value(text: &str) -> (v: Value)
    ensures
        v@ == Bencode::Bytes(encode_utf8(text@)),
{
    let b = copy_range(text.as_bytes(), 0, text.as_bytes().len());
    assert(b@ =~= encode_utf8(text@));
    Value::Bytes(b)
}

fn push_entry(entries: &mut Vec<(Vec<u8>, Value)>, key: &str, v: Value)
    ensures
        entries_view(final(entries)@) == entries_view(old(entries)@).push((key.spec_bytes(), v@)),
{
    let ghost before = entries_view(entries@);
    let k = key_of(key);
    entries.push((k, v));
    assert(entries_view(entries@) =~= before.push((key.spec_bytes(), v@)));
}

fn push_hash(entries: &mut Vec<(Vec<u8>, Value)>, key: &str, v: &Option<[u8; 20]>)
    ensures
        entries_view(final(entries)@) == entries_view(old(entries)@) + bytes_entry(
            key.spec_bytes(),
            hash_option_view(*v),
        ),
{
    let ghost before = entries_view(entries@);
    match v {
        Some(h) => {
            let b = copy_range(h.as_slice(), 0, 20);
            assert(b@ =~= h@);
            push_entry(entries, key, Value::Bytes(b));
            assert(before.push((key.spec_bytes(), Bencode::Bytes(h@))) =~= before + seq![
                (key.spec_bytes(), Bencode::Bytes(h@)),
            ]);
        },
        None => {
            assert(before + Seq::<(Seq<u8>, Bencode)>::empty() =~= before);
        },
    }
}

fn push_token(entries: &mut Vec<(Vec<u8>, Value)>, key: &str, v: &Option<String>)
    ensures
        entries_view(final(entries)@) == entries_view(old(entries)@) + bytes_entry(
            key.spec_bytes(),
            text_bytes(owned_text_view(*v)),
        ),
{
    let ghost before = entries_view(entries@);
    match v {
        Some(t) => {
            push_entry(entries, key, text_value(t.as_str()));
            assert(before.push((key.spec_bytes(), Bencode::Bytes(encode_utf8(t@)))) =~= before
                + seq![(key.spec_bytes(), Bencode::Bytes(encode_utf8(t@)))]);
        },
        None => {
            assert(before + Seq::<(Seq<u8>, Bencode)>::empty() =~= before);
        },
    }
}

fn pack_nodes(nodes: &Vec<CompactNode>) -> (r: Vec<u8>)
    ensures
        r@ == nodes_bytes(nodes_view(nodes@)),
{
    let ghost model = nodes_view(nodes@);
    let mut out: Vec<u8> = Vec::new();
    let mut i: usize = 0;
    assert(nodes_bytes(model.take(0)) =~= Seq::<u8>::empty());
    while i < nodes.len()
        invariant
            i <= nodes@.len(),
            model == nodes_view(nodes@),
            out@ == nodes_bytes(model.take(i as int)),
        decreases nodes@.len() - i,
    {
        let b = nodes[i].to_bytes();
        push_bytes(&mut out, b.as_slice());
        proof {
            assert(model.take(i + 1).drop_last() =~= model.take(i as int));
            assert(model.take(i + 1).last() == nodes@[i as int]@);
        }
        i += 1;
    }
    proof {
        assert(model.take(nodes@.len() as int) =~= model);
    }
    out
}

fn list_nodes(nodes: &Vec<CompactNode>) -> (r: Vec<Value>)
    ensures
        items_view(r@) == node_values(nodes_view(nodes@)),
{
    let mut out: Vec<Value> = Vec::new();
    let mut i: usize = 0;
    while i < nodes.len()
        invariant
            i <= nodes@.len(),
            out@.len() == i,
            forall|j: int|
                0 <= j < i ==> (#[trigger] out@[j])@ == Bencode::Bytes(node_bytes(nodes@[j]@)),
        decreases nodes@.len() - i,
    {
        out.push(Value::Bytes(nodes[i].to_bytes()));
        i += 1;
    }
    proof {
        assert(items_view(out@) =~= node_values(nodes_view(nodes@)));
    }
    out
}

impl Arguments {
    /// The dictionary `a` of the query.
    pub fn to_value(&self) -> (v: Value)
        ensures
            v@ == arguments_value(self@),
    {
        let mut entries: Vec<(Vec<u8>, Value)> = Vec::new();
        let id = copy_range(self.id.as_slice(), 0, 20);
        assert(id@ =~= self.id@);
        push_entry(&mut entries, "id", Value::Bytes(id));
        assert(entries_view(entries@) =~= seq![("id".spec_bytes(), Bencode::Bytes(self.id@))]);
        push_hash(&mut entries, "target", &self.target);
        push_hash(&mut entries, "info_hash", &self.info_hash);
        let ghost before = entries_view(entries@);
        match self.implied_port {
            Some(b) => {
                let n: i64 = if b {
                    1
                } else {
                    0
                };
                push_entry(&mut entries, "implied_port", Value::Int(n));
                assert(entries_view(entries@) =~= before + flag_entry(
                    "implied_port".spec_bytes(),
                    self.implied_port,
                ));
            },
            None => {
                assert(before + flag_entry("implied_port".spec_bytes(), self.implied_port)
                    =~= before);
            },
        }
        let ghost before = entries_view(entries@);
        match self.port {
            Some(p) => {
                push_entry(&mut entries, "port", Value::Int(p as i64));
                assert(entries_view(entries@) =~= before + int_entry(
                    "port".spec_bytes(),
                    widen16(self.port),
                ));
            },
            None => {
                assert(before + int_entry("port".spec_bytes(), widen16(self.port)) =~= before);
            },
        }
        push_token(&mut entries, "token", &self.token);
        proof {
            lemma_dict_view(entries);
        }
        Value::Dict(entries)
    }
}

impl Values {
    /// The dictionary `r` of the response.
    pub fn to_value(&self) -> (v: Value)
        ensures
            v@ == values_value(self@),
    {
        let mut entries: Vec<(Vec<u8>, Value)> = Vec::new();
        let id = copy_range(self.id.as_slice(), 0, 20);
        assert(id@ =~= self.id@);
        push_entry(&mut entries, "id", Value::Bytes(id));
        assert(entries_view(entries@) =~= seq![("id".spec_bytes(), Bencode::Bytes(self.id@))]);
        let ghost before = entries_view(entries@);
        match &self.nodes {
            Some(n) => {
                push_entry(&mut entries, "nodes", Value::Bytes(pack_nodes(n)));
                assert(entries_view(entries@) =~= before + nodes_entry(
                    "nodes".spec_bytes(),
                    self@.nodes,
                ));
            },
            None => {
                assert(before + nodes_entry("nodes".spec_bytes(), self@.nodes) =~= before);
            },
        }
        let ghost before = entries_view(entries@);
        match &self.values {
            Some(n) => {
                let items = list_nodes(n);
                proof {
                    lemma_list_view(items);
                }
                push_entry(&mut entries, "values", Value::List(items));
                assert(entries_view(entries@) =~= before + values_entry(
                    "values".spec_bytes(),
                    self@.values,
                ));
            },
            None => {
                assert(before + values_entry("values".spec_bytes(), self@.values) =~= before);
            },
        }
        push_token(&mut entries, "token", &self.token);
        proof {
            lemma_dict_view(entries);
        }
        Value::Dict(entries)
    }
}

impl Error {
    /// The list `e` of the error.
    pub fn to_value(&self) -> (v: Value)
        ensures
            v@ == error_value(self@),
    {
        let mut items: Vec<Value> = Vec::new();
        items.push(Value::Int(self.kind.to_code()));
        items.push(text_value(self.description.as_str()));
        proof {
            lemma_list_view(items);
            assert(items_view(items@) =~= error_value(self@)->List_0);
        }
        Value::List(items)
    }
}

impl ExtMessage {
    /// The message under a fresh transaction id of two random letters or
    /// digits.
    pub fn from(inner: Message) -> (m: ExtMessage)
        ensures
            m.inner == inner,
            m.transaction_id@.len() == 2,
            forall|i: int|
                0 <= i < 2 ==> crate::entropy::is_alphanumeric(
                    #[trigger] m.transaction_id@[i] as u8,
                ),
    {
        let mut transaction_id = String::new();
        let a: u8 = crate::entropy::random_alphanumeric();
        let b: u8 = crate::entropy::random_alphanumeric();
        crate::text::push_char(&mut transaction_id, a as char);
        crate::text::push_char(&mut transaction_id, b as char);
        ExtMessage { inner, transaction_id }
    }

    /// The message under transaction id `transaction_id`.
    pub fn new(inner: Message, transaction_id: String) -> (m: ExtMessage)
        ensures
            m.inner == inner,
            m.transaction_id == transaction_id,
    {
        ExtMessage { inner, transaction_id }
    }

    /// The message as it goes to a node: its dictionary with sorted keys.
    pub fn to_bencode(&self) -> (r: Vec<u8>)
        ensures
            r@ == serialize(canonical(message_value(self@))),
    {
        let mut entries: Vec<(Vec<u8>, Value)> = Vec::new();
        push_entry(&mut entries, "t", text_value(self.transaction_id.as_str()));
        match &self.inner {
            Message::Query(a) => {
                push_entry(&mut entries, "y", text_value("q"));
                push_entry(&mut entries, "q", text_value(a.method.text()));
                push_entry(&mut entries, "a", a.to_value());
            },
            Message::Response(v) => {
                push_entry(&mut entries, "y", text_value("r"));
                push_entry(&mut entries, "r", v.to_value());
            },
            Message::Error(e) => {
                push_entry(&mut entries, "y", text_value("e"));
                push_entry(&mut entries, "e", e.to_value());
            },
        }
        proof {
            lemma_dict_view(entries);
            assert(entries_view(entries@) =~= message_value(self@)->Dict_0);
        }
        encode(&Value::Dict(entries))
    }
}

// ---------------------------------------------------------------------------
// Reading
// ---------------------------------------------------------------------------

/// A hash that must be there: a byte string of 20 bytes.
pub open spec fn id_field(d: Seq<(Seq<u8>, Bencode)>, key: Seq<u8>) -> Result<Seq<u8>, DecodeError> {
    match sized(d, key, 20, 20) {
        Err(e) => Err(e),
        Ok(None) => Err(DecodeError::Unexpected(Kind::End, Kind::Bytes)),
        Ok(Some(b)) => Ok(b),
    }
}

/// An optional number as a flag: zero is false.
pub open spec fn as_flag(n: Option<u64>) -> Option<bool> {
    match n {
        Some(x) => Some(x != 0),
        None => None,
    }
}

/// What the dictionary `a` of a query says. Keys it does not know are
/// passed over.
pub open spec fn arguments_model(d: Seq<(Seq<u8>, Bencode)>, method: Method) -> Result<
    ArgumentsModel,
    DecodeError,
> {
    match id_field(d, "id".spec_bytes()) {
        Err(e) => Err(e),
        Ok(id) => match sized(d, "target".spec_bytes(), 20, 20) {
            Err(e) => Err(e),
            Ok(target) => match sized(d, "info_hash".spec_bytes(), 20, 20) {
                Err(e) => Err(e),
                Ok(info_hash) => match optional_u64(d, "implied_port".spec_bytes()) {
                    Err(e) => Err(e),
                    Ok(implied) => match bounded(d, "port".spec_bytes(), 65535) {
                        Err(e) => Err(e),
                        Ok(port) => match optional_text(d, "token".spec_bytes()) {
                            Err(e) => Err(e),
                            Ok(token) => Ok(
                                ArgumentsModel {
                                    method,
                                    id,
                                    target,
                                    info_hash,
                                    port: to_u16(port),
                                    implied_port: as_flag(implied),
                                    token,
                                },
                            ),
                        },
                    },
                },
            },
        },
    }
}

/// One entry of `values`: a byte string of 26 bytes.
pub open spec fn value_model(v: Bencode) -> Result<NodeModel, DecodeError> {
    match as_bytes(v) {
        Err(e) => Err(e),
        Ok(b) => if b.len() < 26 {
            Err(DecodeError::Truncated)
        } else if b.len() > 26 {
            Err(DecodeError::TrailingBytes)
        } else {
            Ok(node_at(b))
        },
    }
}

/// The nodes that an optional byte string names.
pub open spec fn some_nodes(b: Option<Seq<u8>>) -> Option<Seq<NodeModel>> {
    match b {
        Some(x) => Some(nodes_at(x)),
        None => None,
    }
}

/// What the dictionary `r` of a response says.
pub open spec fn values_model(d: Seq<(Seq<u8>, Bencode)>) -> Result<ValuesModel, DecodeError> {
    match id_field(d, "id".spec_bytes()) {
        Err(e) => Err(e),
        Ok(id) => match optional_bytes(d, "nodes".spec_bytes()) {
            Err(e) => Err(e),
            Ok(nodes) => match listed_values(lookup(d, "values".spec_bytes())) {
                Err(e) => Err(e),
                Ok(values) => match optional_text(d, "token".spec_bytes()) {
                    Err(e) => Err(e),
                    Ok(token) => Ok(ValuesModel { id, nodes: some_nodes(nodes), values, token }),
                },
            },
        },
    }
}

/// The nodes that an optional list of byte strings names.
pub open spec fn listed_values(v: Option<Bencode>) -> Result<Option<Seq<NodeModel>>, DecodeError> {
    match v {
        None => Ok(None),
        Some(x) => match as_list(x) {
            Err(e) => Err(e),
            Ok(l) => match try_map(l, |i: Bencode| value_model(i)) {
                Err(e) => Err(e),
                Ok(n) => Ok(Some(n)),
            },
        },
    }
}

/// What the list `e` of an error says: a code that stands for a kind, then
/// a description. A code that stands for none is reported as an overflow.
pub open spec fn error_model(l: Seq<Bencode>) -> Result<ErrorModel, DecodeError> {
    if l.len() < 1 {
        Err(DecodeError::Unexpected(Kind::End, Kind::Int))
    } else {
        match as_int(l[0]) {
            Err(e) => Err(e),
            Ok(code) => match ErrorKind::of(code) {
                None => Err(DecodeError::OverflowInteger),
                Some(kind) => if l.len() < 2 {
                    Err(DecodeError::Unexpected(Kind::End, Kind::Bytes))
                } else {
                    match as_text(l[1]) {
                        Err(e) => Err(e),
                        Ok(description) => Ok(ErrorModel { description, kind }),
                    }
                },
            },
        }
    }
}

/// The text, or the empty text where there is none.
pub open spec fn text_or_empty(t: Option<Seq<char>>) -> Seq<char> {
    match t {
        Some(x) => x,
        None => Seq::empty(),
    }
}

/// What a message says. `y` tells its kind; a kind or a query that is not
/// known is reported as something other than the byte string expected.
pub open spec fn message_model(bytes: Seq<u8>) -> Result<ExtMessageModel, DecodeError> {
    match parse(bytes, DEFAULT_DEPTH as nat) {
        Err(e) => Err(e),
        Ok(v) => match as_dict(v) {
            Err(e) => Err(e),
            Ok(d) => match optional_text(d, "t".spec_bytes()) {
                Err(e) => Err(e),
                Ok(t) => match field_text(d, "y".spec_bytes()) {
                    Err(e) => Err(e),
                    Ok(y) => match inner_model(d, y) {
                        Err(e) => Err(e),
                        Ok(inner) => Ok(
                            ExtMessageModel { inner, transaction_id: text_or_empty(t) },
                        ),
                    },
                },
            },
        },
    }
}

/// What the dictionary `d` of a message of type `y` says.
pub open spec fn inner_model(d: Seq<(Seq<u8>, Bencode)>, y: Seq<char>) -> Result<
    MessageModel,
    DecodeError,
> {
    if y == "q"@ {
        match field_text(d, "q".spec_bytes()) {
            Err(e) => Err(e),
            Ok(name) => match Method::of(name) {
                None => Err(DecodeError::Unexpected(Kind::Other, Kind::Bytes)),
                Some(method) => match required(d, "a".spec_bytes(), Kind::Dict) {
                    Err(e) => Err(e),
                    Ok(av) => match as_dict(av) {
                        Err(e) => Err(e),
                        Ok(a) => match arguments_model(a, method) {
                            Err(e) => Err(e),
                            Ok(x) => Ok(MessageModel::Query(x)),
                        },
                    },
                },
            },
        }
    } else if y == "r"@ {
        match required(d, "r".spec_bytes(), Kind::Dict) {
            Err(e) => Err(e),
            Ok(rv) => match as_dict(rv) {
                Err(e) => Err(e),
                Ok(r) => match values_model(r) {
                    Err(e) => Err(e),
                    Ok(x) => Ok(MessageModel::Response(x)),
                },
            },
        }
    } else if y == "e"@ {
        match required(d, "e".spec_bytes(), Kind::List) {
            Err(e) => Err(e),
            Ok(ev) => match as_list(ev) {
                Err(e) => Err(e),
                Ok(l) => match error_model(l) {
                    Err(e) => Err(e),
                    Ok(x) => Ok(MessageModel::Error(x)),
                },
            },
        }
    } else {
        Err(DecodeError::Unexpected(Kind::Other, Kind::Bytes))
    }
}

fn get_hash(d: &Vec<(Vec<u8>, Value)>, key: &str) -> (r: Result<Option<[u8; 20]>, DecodeError>)
    ensures
        r matches Ok(h) ==> sized(entries_view(d@), key.spec_bytes(), 20, 20) == Ok::<
            Option<Seq<u8>>,
            DecodeError,
        >(hash_option_view(h)),
        r matches Err(e) ==> sized(entries_view(d@), key.spec_bytes(), 20, 20) == Err::<
            Option<Seq<u8>>,
            DecodeError,
        >(e),
{
    match get_sized(d, key, 20, 20)? {
        None => Ok(None),
        Some(b) => {
            let h: [u8; 20] = range_to_array::<20>(b.as_slice());
            assert(h@ =~= b@);
            Ok(Some(h))
        },
    }
}

fn get_id(d: &Vec<(Vec<u8>, Value)>, key: &str) -> (r: Result<[u8; 20], DecodeError>)
    ensures
        r matches Ok(h) ==> id_field(entries_view(d@), key.spec_bytes()) == Ok::<
            Seq<u8>,
            DecodeError,
        >(h@),
        r matches Err(e) ==> id_field(entries_view(d@), key.spec_bytes()) == Err::<
            Seq<u8>,
            DecodeError,
        >(e),
{
    match get_hash(d, key)? {
        Some(h) => Ok(h),
        None => Err(DecodeError::Unexpected(Kind::End, Kind::Bytes)),
    }
}

fn unpack_nodes(b: &[u8]) -> (r: Vec<CompactNode>)
    ensures
        nodes_view(r@) == nodes_at(b@),
{
    let len: usize = b.len();
    let count: usize = len / 26;
    let mut out: Vec<CompactNode> = Vec::new();
    let mut i: usize = 0;
    while i < count
        invariant
            i <= count,
            len == b@.len(),
            count == len / 26,
            out@.len() == i,
            forall|j: int|
                0 <= j < i ==> (#[trigger] out@[j])@ == node_at(b@.subrange(26 * j, 26 * j + 26)),
        decreases count - i,
    {
        out.push(CompactNode::read(b, 26 * i));
        i += 1;
    }
    proof {
        assert(nodes_view(out@) =~= nodes_at(b@));
    }
    out
}

fn decode_values(l: &Vec<Value>) -> (r: Result<Vec<CompactNode>, DecodeError>)
    ensures
        r matches Ok(n) ==> try_map(items_view(l@), |i: Bencode| value_model(i)) == Ok::<
            Seq<NodeModel>,
            DecodeError,
        >(nodes_view(n@)),
        r matches Err(e) ==> try_map(items_view(l@), |i: Bencode| value_model(i)) == Err::<
            Seq<NodeModel>,
            DecodeError,
        >(e),
{
    let ghost model = items_view(l@);
    let ghost f = |i: Bencode| value_model(i);
    let mut out: Vec<CompactNode> = Vec::new();
    let mut i: usize = 0;
    proof {
        lemma_try_map_start(model, f);
        assert(nodes_view(out@) =~= Seq::<NodeModel>::empty());
    }
    while i < l.len()
        invariant
            i <= l@.len(),
            model == items_view(l@),
            f == (|i: Bencode| value_model(i)),
            try_map(model, f) == mapped_after(nodes_view(out@), try_map(model.skip(i as int), f)),
        decreases l@.len() - i,
    {
        proof {
            lemma_try_map_step(model, f, i as int, nodes_view(out@));
            assert(model[i as int] == l@[i as int]@);
        }
        let b = bytes_of(&l[i])?;
        if b.len() < 26 {
            return Err(DecodeError::Truncated);
        }
        if b.len() > 26 {
            return Err(DecodeError::TrailingBytes);
        }
        let node = CompactNode::read(b.as_slice(), 0);
        proof {
            assert(b@.subrange(0, 26) =~= b@);
            assert(nodes_view(out@.push(node)) =~= nodes_view(out@).push(node@));
        }
        out.push(node);
        i += 1;
    }
    proof {
        lemma_try_map_end(model, f, nodes_view(out@));
    }
    Ok(out)
}

impl Arguments {
    /// Reads the dictionary `a` of a query of kind `method`.
    pub fn decode_bencode_object(d: &Vec<(Vec<u8>, Value)>, method: Method) -> (r: Result<
        Arguments,
        DecodeError,
    >)
        ensures
            r matches Ok(a) ==> arguments_model(entries_view(d@), method) == Ok::<
                ArgumentsModel,
                DecodeError,
            >(a@),
            r matches Err(e) ==> arguments_model(entries_view(d@), method) == Err::<
                ArgumentsModel,
                DecodeError,
            >(e),
    {
        let id = get_id(d, "id")?;
        let target = get_hash(d, "target")?;
        let info_hash = get_hash(d, "info_hash")?;
        let implied = get_optional_u64(d, "implied_port")?;
        let port = get_bounded(d, "port", 65535)?;
        let token = get_optional_text(d, "token")?;
        Ok(
            Arguments {
                method,
                id,
                target,
                info_hash,
                port: narrow16(port),
                implied_port: match implied {
                    Some(x) => Some(x != 0),
                    None => None,
                },
                token,
            },
        )
    }
}

impl Values {
    /// Reads the dictionary `r` of a response.
    pub fn decode_bencode_object(d: &Vec<(Vec<u8>, Value)>) -> (r: Result<Values, DecodeError>)
        ensures
            r matches Ok(v) ==> values_model(entries_view(d@)) == Ok::<ValuesModel, DecodeError>(
                v@,
            ),
            r matches Err(e) ==> values_model(entries_view(d@)) == Err::<
                ValuesModel,
                DecodeError,
            >(e),
    {
        let id = get_id(d, "id")?;
        let nodes: Option<Vec<CompactNode>> = match get(d, "nodes".as_bytes()) {
            None => None,
            Some(v) => {
                let b = bytes_of(v)?;
                Some(unpack_nodes(b.as_slice()))
            },
        };
        let values: Option<Vec<CompactNode>> = match get(d, "values".as_bytes()) {
            None => None,
            Some(v) => {
                let l = list_of(v)?;
                Some(decode_values(l)?)
            },
        };
        let token = get_optional_text(d, "token")?;
        Ok(Values { id, nodes, values, token })
    }
}

impl Error {
    /// Reads the list `e` of an error.
    pub fn decode_bencode_object(l: &Vec<Value>) -> (r: Result<Error, DecodeError>)
        ensures
            r matches Ok(x) ==> error_model(items_view(l@)) == Ok::<ErrorModel, DecodeError>(x@),
            r matches Err(e) ==> error_model(items_view(l@)) == Err::<ErrorModel, DecodeError>(e),
    {
        if l.len() < 1 {
            return Err(DecodeError::Unexpected(Kind::End, Kind::Int));
        }
        assert(items_view(l@)[0] == l@[0]@);
        let code: i64 = int_of(&l[0])?;
        let kind = match ErrorKind::from(code) {
            Some(k) => k,
            None => {
                return Err(DecodeError::OverflowInteger);
            },
        };
        if l.len() < 2 {
            return Err(DecodeError::Unexpected(Kind::End, Kind::Bytes));
        }
        assert(items_view(l@)[1] == l@[1]@);
        let description = text_of(&l[1])?;
        Ok(Error { description, kind })
    }
}

impl ExtMessage {
    /// Reads a message.
    pub fn from_bencode(bytes: &[u8]) -> (r: Result<ExtMessage, DecodeError>)
        ensures
            r matches Ok(m) ==> message_model(bytes@) == Ok::<ExtMessageModel, DecodeError>(m@),
            r matches Err(e) ==> message_model(bytes@) == Err::<ExtMessageModel, DecodeError>(e),
    {
        let v = decode(bytes, DEFAULT_DEPTH)?;
        let d = dict_of(&v)?;
        let t = get_optional_text(d, "t")?;
        let y = get_text(d, "y")?;
        let inner: Message = if crate::magnet::same_text(y.as_str(), "q") {
            let name = get_text(d, "q")?;
            let method = match Method::parse(name.as_str()) {
                Some(m) => m,
                None => {
                    return Err(DecodeError::Unexpected(Kind::Other, Kind::Bytes));
                },
            };
            let av = get_required(d, "a", Kind::Dict)?;
            let a = dict_of(av)?;
            Message::Query(Arguments::decode_bencode_object(a, method)?)
        } else if crate::magnet::same_text(y.as_str(), "r") {
            let rv = get_required(d, "r", Kind::Dict)?;
            let r = dict_of(rv)?;
            Message::Response(Values::decode_bencode_object(r)?)
        } else if crate::magnet::same_text(y.as_str(), "e") {
            let ev = get_required(d, "e", Kind::List)?;
            let l = list_of(ev)?;
            Message::Error(Error::decode_bencode_object(l)?)
        } else {
            return Err(DecodeError::Unexpected(Kind::Other, Kind::Bytes));
        };
        Ok(
            ExtMessage {
                inner,
                transaction_id: match t {
                    Some(x) => x,
                    None => String::new(),
                },
            },
        )
    }
}

} // verus!
