//! The bencode wire format: integers, byte strings, lists and dictionaries.
//!
//! `Value` is the decoded tree and `Bencode` its mathematical model.
//! `serialize` and `parse_value` say what the format is; `encode` and `decode`
//! are the executable codec, proved against them.

pub mod decoder;
pub mod encoder;
pub mod fields;
pub mod laws;

use vstd::prelude::*;

verus! {

/// A decoded bencode value. Dictionary entries keep the order in which they
/// were decoded or built; `encode` writes them sorted by key.
#[derive(Debug, PartialEq, Eq)]
pub enum Value {
    Int(i64),
    Bytes(Vec<u8>),
    List(Vec<Value>),
    Dict(Vec<(Vec<u8>, Value)>),
}

/// The mathematical model of a bencode value.
pub enum Bencode {
    Int(int),
    Bytes(Seq<u8>),
    List(Seq<Bencode>),
    Dict(Seq<(Seq<u8>, Bencode)>),
}

/// What a byte of the input, or a decoded value, is taken for.
#[derive(Clone, Copy, Debug, PartialEq, Eq, Structural)]
pub enum Kind {
    Int,
    Bytes,
    List,
    Dict,
    End,
    Digit,
    Colon,
    Sign,
    Value,
    Other,
}

/// Why decoding stopped.
#[derive(Clone, Copy, Debug, PartialEq, Eq, Structural)]
pub enum DecodeError {
    /// Something of the first kind stands where the second was expected.
    Unexpected(Kind, Kind),
    /// An integer does not fit in 64 bits.
    OverflowInteger,
    /// Lists and dictionaries are nested deeper than the limit.
    DepthExceeded,
    /// Bytes follow the value.
    TrailingBytes,
    /// The input ends inside a value.
    Truncated,
}

/// Nesting limit for tracker responses and extension messages.
pub const DEFAULT_DEPTH: usize = 5;

/// Nesting limit for metainfo files.
pub const METAINFO_DEPTH: usize = 16;

/// The models of the items of a list.
pub open spec fn items_view(l: Seq<Value>) -> Seq<Bencode>
    decreases l,
{
    Seq::new(
        l.len(),
        |i: int|
            if 0 <= i < l.len() {
                l[i]@
            } else {
                Bencode::Int(0)
            },
    )
}

/// The models of the entries of a dictionary.
pub open spec fn entries_view(d: Seq<(Vec<u8>, Value)>) -> Seq<(Seq<u8>, Bencode)>
    decreases d,
{
    Seq::new(
        d.len(),
        |i: int|
            if 0 <= i < d.len() {
                (d[i].0@, d[i].1@)
            } else {
                (Seq::empty(), Bencode::Int(0))
            },
    )
}

impl View for Value {
    type V = Bencode;

    open spec fn view(&self) -> Bencode
        decreases self,
    {
        match self {
            Value::Int(i) => Bencode::Int(*i as int),
            Value::Bytes(b) => Bencode::Bytes(b@),
            Value::List(l) => Bencode::List(items_view(l@)),
            Value::Dict(d) => Bencode::Dict(entries_view(d@)),
        }
    }
}

// ---------------------------------------------------------------------------
// Decimal numbers
// ---------------------------------------------------------------------------

/// Whether `b` is an ASCII digit.
pub open spec fn is_digit(b: u8) -> bool {
    48 <= b <= 57
}

/// The decimal spelling of `n`, without leading zeros.
pub open spec fn digits(n: nat) -> Seq<u8>
    decreases n,
{
    if n < 10 {
        seq![(48 + n) as u8]
    } else {
        digits(n / 10).push((48 + n % 10) as u8)
    }
}

/// The number that a run of decimal digits spells.
pub open spec fn digits_value(s: Seq<u8>) -> nat
    decreases s.len(),
{
    if s.len() == 0 {
        0
    } else {
        (digits_value(s.drop_last()) * 10 + (s.last() - 48)) as nat
    }
}

/// How many digits `s` starts with.
pub open spec fn digit_run(s: Seq<u8>) -> nat
    decreases s.len(),
{
    if s.len() > 0 && is_digit(s[0]) {
        1 + digit_run(s.drop_first())
    } else {
        0
    }
}

/// The decimal spelling of a signed number.
pub open spec fn int_text(i: int) -> Seq<u8> {
    if i < 0 {
        seq![45u8] + digits((-i) as nat)
    } else {
        digits(i as nat)
    }
}

// ---------------------------------------------------------------------------
// The format, written
// ---------------------------------------------------------------------------

/// The encoding of a byte string: its length, a colon, the bytes.
pub open spec fn serialize_bytes(b: Seq<u8>) -> Seq<u8> {
    digits(b.len()) + seq![58u8] + b
}

/// The encoding of `v` with dictionary entries in the order they are held.
pub open spec fn serialize(v: Bencode) -> Seq<u8>
    decreases v,
{
    match v {
        Bencode::Int(i) => seq![105u8] + int_text(i) + seq![101u8],
        Bencode::Bytes(b) => serialize_bytes(b),
        Bencode::List(l) => seq![108u8] + serialize_items(l) + seq![101u8],
        Bencode::Dict(d) => seq![100u8] + serialize_entries(d) + seq![101u8],
    }
}

/// The encodings of the items of a list, one after the other.
pub open spec fn serialize_items(l: Seq<Bencode>) -> Seq<u8>
    decreases l,
{
    if l.len() == 0 {
        Seq::empty()
    } else {
        serialize(l[0]) + serialize_items(l.drop_first())
    }
}

/// The encodings of the entries of a dictionary, key then value, one after
/// the other.
pub open spec fn serialize_entries(d: Seq<(Seq<u8>, Bencode)>) -> Seq<u8>
    decreases d,
{
    if d.len() == 0 {
        Seq::empty()
    } else {
        serialize_bytes(d[0].0) + serialize(d[0].1) + serialize_entries(d.drop_first())
    }
}

/// How deep lists and dictionaries are nested in `v`.
pub open spec fn depth_of(v: Bencode) -> nat
    decreases v,
{
    match v {
        Bencode::Int(_) => 0,
        Bencode::Bytes(_) => 0,
        Bencode::List(l) => 1 + items_depth(l),
        Bencode::Dict(d) => 1 + entries_depth(d),
    }
}

/// The deepest nesting among the items of a list.
pub open spec fn items_depth(l: Seq<Bencode>) -> nat
    decreases l,
{
    if l.len() == 0 {
        0
    } else {
        let a = depth_of(l[0]);
        let b = items_depth(l.drop_first());
        if a > b {
            a
        } else {
            b
        }
    }
}

/// The deepest nesting among the values of a dictionary.
pub open spec fn entries_depth(d: Seq<(Seq<u8>, Bencode)>) -> nat
    decreases d,
{
    if d.len() == 0 {
        0
    } else {
        let a = depth_of(d[0].1);
        let b = entries_depth(d.drop_first());
        if a > b {
            a
        } else {
            b
        }
    }
}

/// Every integer in `v` fits in 64 bits, so that `v` is the model of some
/// `Value`.
pub open spec fn representable(v: Bencode) -> bool
    decreases v,
{
    match v {
        Bencode::Int(i) => i64::MIN <= i <= i64::MAX,
        Bencode::Bytes(_) => true,
        Bencode::List(l) => items_representable(l),
        Bencode::Dict(d) => entries_representable(d),
    }
}

/// Every item of the list is representable.
pub open spec fn items_representable(l: Seq<Bencode>) -> bool
    decreases l,
{
    l.len() == 0 || (representable(l[0]) && items_representable(l.drop_first()))
}

/// Every value of the dictionary is representable.
pub open spec fn entries_representable(d: Seq<(Seq<u8>, Bencode)>) -> bool
    decreases d,
{
    d.len() == 0 || (representable(d[0].1) && entries_representable(d.drop_first()))
}

// ---------------------------------------------------------------------------
// Key order
// ---------------------------------------------------------------------------

/// Lexicographic order on byte strings: `a` comes no later than `b`.
pub open spec fn lex_le(a: Seq<u8>, b: Seq<u8>) -> bool
    decreases a.len(),
{
    if a.len() == 0 {
        true
    } else if b.len() == 0 {
        false
    } else if a[0] != b[0] {
        a[0] < b[0]
    } else {
        lex_le(a.drop_first(), b.drop_first())
    }
}

/// Where a stable insertion puts key number `k` into `order`, which lists
/// key indices by ascending key: behind the last key that is no greater.
pub open spec fn insert_at(order: Seq<int>, keys: Seq<Seq<u8>>, k: int) -> int
    decreases order.len(),
{
    if order.len() == 0 {
        0
    } else if lex_le(keys[order.last()], keys[k]) {
        order.len() as int
    } else {
        insert_at(order.drop_last(), keys, k)
    }
}

/// The indices of the first `n` keys, ordered by ascending key; keys that are
/// equal stay in the order they have.
pub open spec fn sorted_order(keys: Seq<Seq<u8>>, n: nat) -> Seq<int>
    decreases n,
{
    if n == 0 {
        Seq::empty()
    } else {
        let before = sorted_order(keys, (n - 1) as nat);
        before.insert(insert_at(before, keys, n - 1), n - 1)
    }
}

/// The keys of a dictionary, in the order they are held.
pub open spec fn keys_of(d: Seq<(Seq<u8>, Bencode)>) -> Seq<Seq<u8>> {
    Seq::new(d.len(), |i: int| d[i].0)
}

/// Whether the keys of `d` ascend (equal neighbours allowed).
pub open spec fn keys_sorted(d: Seq<(Seq<u8>, Bencode)>) -> bool {
    forall|i: int| 0 <= i < d.len() - 1 ==> lex_le(#[trigger] d[i].0, d[i + 1].0)
}

/// `v` with the entries of every dictionary sorted by key.
pub open spec fn canonical(v: Bencode) -> Bencode
    decreases v,
{
    match v {
        Bencode::Int(_) => v,
        Bencode::Bytes(_) => v,
        Bencode::List(l) => Bencode::List(
            Seq::new(
                l.len(),
                |i: int|
                    if 0 <= i < l.len() {
                        canonical(l[i])
                    } else {
                        Bencode::Int(0)
                    },
            ),
        ),
        Bencode::Dict(d) => {
            let order = sorted_order(keys_of(d), d.len());
            Bencode::Dict(
                Seq::new(
                    d.len(),
                    |j: int|
                        if 0 <= j < d.len() && 0 <= order[j] < d.len() {
                            (d[order[j]].0, canonical(d[order[j]].1))
                        } else {
                            (Seq::empty(), Bencode::Int(0))
                        },
                ),
            )
        },
    }
}

/// Whether every dictionary in `v` already has its keys in ascending order.
pub open spec fn is_canonical(v: Bencode) -> bool
    decreases v,
{
    match v {
        Bencode::Int(_) => true,
        Bencode::Bytes(_) => true,
        Bencode::List(l) => forall|i: int| 0 <= i < l.len() ==> is_canonical(#[trigger] l[i]),
        Bencode::Dict(d) => keys_sorted(d) && forall|i: int|
            0 <= i < d.len() ==> is_canonical((#[trigger] d[i]).1),
    }
}

// ---------------------------------------------------------------------------
// The format, read
// ---------------------------------------------------------------------------

/// What a byte of the input is taken for.
pub open spec fn token_kind(b: u8) -> Kind {
    if b == 105 {
        Kind::Int
    } else if b == 108 {
        Kind::List
    } else if b == 100 {
        Kind::Dict
    } else if b == 101 {
        Kind::End
    } else if is_digit(b) {
        Kind::Digit
    } else if b == 58 {
        Kind::Colon
    } else if b == 45 {
        Kind::Sign
    } else {
        Kind::Other
    }
}

/// A parsed value and the number of bytes it took, or the reason for failure.
pub type Parsed<T> = Result<(T, int), DecodeError>;

/// How many digits a number at the start of `s` has: one if it starts with a
/// zero (nothing may follow a leading zero), the whole run otherwise.
pub open spec fn number_len(s: Seq<u8>) -> nat {
    if s.len() > 0 && s[0] == 48 {
        1
    } else {
        digit_run(s)
    }
}

/// Reads `i<digits>e` at the start of `s`, where `s[0]` is known to be `i`.
pub open spec fn parse_int(s: Seq<u8>) -> Parsed<Bencode> {
    let neg = s.len() > 1 && s[1] == 45;
    let start: int = if neg {
        2
    } else {
        1
    };
    let k: int = number_len(s.skip(start)) as int;
    if s.len() <= start {
        Err(DecodeError::Truncated)
    } else if k == 0 {
        Err(DecodeError::Unexpected(token_kind(s[start]), Kind::Digit))
    } else if neg && s[start] == 48 {
        Err(DecodeError::Unexpected(Kind::Sign, Kind::Digit))
    } else if s.len() <= start + k {
        Err(DecodeError::Truncated)
    } else if s[start + k] != 101 {
        Err(DecodeError::Unexpected(token_kind(s[start + k]), Kind::End))
    } else {
        let magnitude: int = digits_value(s.subrange(start, start + k)) as int;
        let i: int = if neg {
            -magnitude
        } else {
            magnitude
        };
        if i64::MIN <= i <= i64::MAX {
            Ok((Bencode::Int(i), start + k + 1))
        } else {
            Err(DecodeError::OverflowInteger)
        }
    }
}

/// Reads `<length>:<bytes>` at the start of `s`, where `s[0]` is known to be
/// a digit.
pub open spec fn parse_bytes(s: Seq<u8>) -> Parsed<Seq<u8>> {
    let k: int = number_len(s) as int;
    if s.len() <= k {
        Err(DecodeError::Truncated)
    } else if s[k] != 58 {
        Err(DecodeError::Unexpected(token_kind(s[k]), Kind::Colon))
    } else {
        let n: int = digits_value(s.take(k)) as int;
        if s.len() - k - 1 < n {
            Err(DecodeError::Truncated)
        } else {
            Ok((s.subrange(k + 1, k + 1 + n), k + 1 + n))
        }
    }
}

/// Reads one value at the start of `s`; lists and dictionaries may nest
/// `depth` deep.
pub open spec fn parse_value(s: Seq<u8>, depth: nat) -> Parsed<Bencode>
    decreases s.len(), 0nat,
{
    if s.len() == 0 {
        Err(DecodeError::Truncated)
    } else if s[0] == 105 {
        parse_int(s)
    } else if is_digit(s[0]) {
        match parse_bytes(s) {
            Ok((b, n)) => Ok((Bencode::Bytes(b), n)),
            Err(e) => Err(e),
        }
    } else if s[0] == 108 {
        if depth == 0 {
            Err(DecodeError::DepthExceeded)
        } else {
            match parse_items(s.skip(1), (depth - 1) as nat) {
                Ok((l, n)) => Ok((Bencode::List(l), n + 1)),
                Err(e) => Err(e),
            }
        }
    } else if s[0] == 100 {
        if depth == 0 {
            Err(DecodeError::DepthExceeded)
        } else {
            match parse_entries(s.skip(1), (depth - 1) as nat) {
                Ok((d, n)) => Ok((Bencode::Dict(d), n + 1)),
                Err(e) => Err(e),
            }
        }
    } else {
        Err(DecodeError::Unexpected(token_kind(s[0]), Kind::Value))
    }
}

/// Reads the items of a list up to and including its closing `e`.
pub open spec fn parse_items(s: Seq<u8>, depth: nat) -> Parsed<Seq<Bencode>>
    decreases s.len(), 1nat,
{
    if s.len() == 0 {
        Err(DecodeError::Truncated)
    } else if s[0] == 101 {
        Ok((Seq::empty(), 1))
    } else {
        match parse_value(s, depth) {
            Err(e) => Err(e),
            Ok((v, n)) => {
                if n <= 0 || n > s.len() {
                    Err(DecodeError::Truncated)
                } else {
                    match parse_items(s.skip(n), depth) {
                        Err(e) => Err(e),
                        Ok((rest, m)) => Ok((seq![v] + rest, n + m)),
                    }
                }
            },
        }
    }
}

/// Reads the entries of a dictionary up to and including its closing `e`.
/// Keys may come in any order and may repeat.
pub open spec fn parse_entries(s: Seq<u8>, depth: nat) -> Parsed<Seq<(Seq<u8>, Bencode)>>
    decreases s.len(), 1nat,
{
    if s.len() == 0 {
        Err(DecodeError::Truncated)
    } else if s[0] == 101 {
        Ok((Seq::empty(), 1))
    } else if !is_digit(s[0]) {
        Err(DecodeError::Unexpected(token_kind(s[0]), Kind::Bytes))
    } else {
        match parse_bytes(s) {
            Err(e) => Err(e),
            Ok((key, n)) => {
                if n <= 0 || n > s.len() {
                    Err(DecodeError::Truncated)
                } else {
                    match parse_value(s.skip(n), depth) {
                        Err(e) => Err(e),
                        Ok((v, m)) => {
                            if m <= 0 || n + m > s.len() {
                                Err(DecodeError::Truncated)
                            } else {
                                match parse_entries(s.skip(n + m), depth) {
                                    Err(e) => Err(e),
                                    Ok((rest, r)) => Ok((seq![(key, v)] + rest, n + m + r)),
                                }
                            }
                        },
                    }
                }
            },
        }
    }
}

/// Reads exactly one value from the whole of `s`.
pub open spec fn parse(s: Seq<u8>, depth: nat) -> Result<Bencode, DecodeError> {
    match parse_value(s, depth) {
        Err(e) => Err(e),
        Ok((v, n)) => if n == s.len() {
            Ok(v)
        } else {
            Err(DecodeError::TrailingBytes)
        },
    }
}

/// The value of the first entry of `d` under `key`.
pub open spec fn lookup(d: Seq<(Seq<u8>, Bencode)>, key: Seq<u8>) -> Option<Bencode>
    decreases d.len(),
{
    if d.len() == 0 {
        None
    } else if d[0].0 == key {
        Some(d[0].1)
    } else {
        lookup(d.drop_first(), key)
    }
}

/// Where, in the entries of a dictionary that start at `s[0]`, the value
/// under the first `key` stands: its offset in `s` and its length.
pub open spec fn find_entry(s: Seq<u8>, key: Seq<u8>, depth: nat) -> Option<(int, int)>
    decreases s.len(),
{
    if s.len() == 0 || !is_digit(s[0]) {
        None
    } else {
        match parse_bytes(s) {
            Err(_) => None,
            Ok((k, n)) => {
                if n <= 0 || n > s.len() {
                    None
                } else {
                    match parse_value(s.skip(n), depth) {
                        Err(_) => None,
                        Ok((_, m)) => {
                            if m <= 0 || n + m > s.len() {
                                None
                            } else if k == key {
                                Some((n, m))
                            } else {
                                match find_entry(s.skip(n + m), key, depth) {
                                    None => None,
                                    Some((a, b)) => Some((n + m + a, b)),
                                }
                            }
                        },
                    }
                }
            },
        }
    }
}

} // verus!
