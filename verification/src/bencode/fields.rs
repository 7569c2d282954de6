//! Reading typed fields out of decoded dictionaries.

use vstd::prelude::*;
use vstd::string::StringSliceAdditionalSpecFns;
use vstd::utf8::{decode_utf8, valid_utf8};
use crate::bencode::{Bencode, DecodeError, Kind, Value, entries_view, items_view, lookup};
use crate::text::string_from_utf8;
use crate::wire::copy_range;

verus! {

/// The kind of a value.
pub open spec fn kind_of(v: Bencode) -> Kind {
    match v {
        Bencode::Int(_) => Kind::Int,
        Bencode::Bytes(_) => Kind::Bytes,
        Bencode::List(_) => Kind::List,
        Bencode::Dict(_) => Kind::Dict,
    }
}

/// The integer that the value is; anything else is unexpected.
pub open spec fn as_int(v: Bencode) -> Result<int, DecodeError> {
    match v {
        Bencode::Int(i) => Ok(i),
        _ => Err(DecodeError::Unexpected(kind_of(v), Kind::Int)),
    }
}

/// The integer as an unsigned number; a negative one counts as overflow.
pub open spec fn as_u64(v: Bencode) -> Result<u64, DecodeError> {
    match v {
        Bencode::Int(i) => if 0 <= i <= u64::MAX {
            Ok(i as u64)
        } else {
            Err(DecodeError::OverflowInteger)
        },
        _ => Err(DecodeError::Unexpected(kind_of(v), Kind::Int)),
    }
}

/// The byte string that the value is; anything else is unexpected.
pub open spec fn as_bytes(v: Bencode) -> Result<Seq<u8>, DecodeError> {
    match v {
        Bencode::Bytes(b) => Ok(b),
        _ => Err(DecodeError::Unexpected(kind_of(v), Kind::Bytes)),
    }
}

/// The byte string as text; bytes that are not UTF-8 are reported as
/// something other than the byte string expected.
pub open spec fn as_text(v: Bencode) -> Result<Seq<char>, DecodeError> {
    match v {
        Bencode::Bytes(b) => if valid_utf8(b) {
            Ok(decode_utf8(b))
        } else {
            Err(DecodeError::Unexpected(Kind::Other, Kind::Bytes))
        },
        _ => Err(DecodeError::Unexpected(kind_of(v), Kind::Bytes)),
    }
}

/// The list that the value is; anything else is unexpected.
pub open spec fn as_list(v: Bencode) -> Result<Seq<Bencode>, DecodeError> {
    match v {
        Bencode::List(l) => Ok(l),
        _ => Err(DecodeError::Unexpected(kind_of(v), Kind::List)),
    }
}

/// The dictionary that the value is; anything else is unexpected.
pub open spec fn as_dict(v: Bencode) -> Result<Seq<(Seq<u8>, Bencode)>, DecodeError> {
    match v {
        Bencode::Dict(d) => Ok(d),
        _ => Err(DecodeError::Unexpected(kind_of(v), Kind::Dict)),
    }
}

/// The value under `key`; a missing key is reported as the end of the
/// dictionary standing where `expected` should.
pub open spec fn required(d: Seq<(Seq<u8>, Bencode)>, key: Seq<u8>, expected: Kind) -> Result<
    Bencode,
    DecodeError,
> {
    match lookup(d, key) {
        Some(v) => Ok(v),
        None => Err(DecodeError::Unexpected(Kind::End, expected)),
    }
}

/// The unsigned number under `key`, which must be there.
pub open spec fn field_u64(d: Seq<(Seq<u8>, Bencode)>, key: Seq<u8>) -> Result<u64, DecodeError> {
    match required(d, key, Kind::Int) {
        Ok(v) => as_u64(v),
        Err(e) => Err(e),
    }
}

/// The byte string under `key`, which must be there.
pub open spec fn field_bytes(d: Seq<(Seq<u8>, Bencode)>, key: Seq<u8>) -> Result<
    Seq<u8>,
    DecodeError,
> {
    match required(d, key, Kind::Bytes) {
        Ok(v) => as_bytes(v),
        Err(e) => Err(e),
    }
}

/// The text under `key`, which must be there.
pub open spec fn field_text(d: Seq<(Seq<u8>, Bencode)>, key: Seq<u8>) -> Result<
    Seq<char>,
    DecodeError,
> {
    match required(d, key, Kind::Bytes) {
        Ok(v) => as_text(v),
        Err(e) => Err(e),
    }
}

/// The unsigned number under `key`, if the key is there.
pub open spec fn optional_u64(d: Seq<(Seq<u8>, Bencode)>, key: Seq<u8>) -> Result<
    Option<u64>,
    DecodeError,
> {
    match lookup(d, key) {
        None => Ok(None),
        Some(v) => match as_u64(v) {
            Ok(n) => Ok(Some(n)),
            Err(e) => Err(e),
        },
    }
}

/// The byte string under `key`, if the key is there.
pub open spec fn optional_bytes(d: Seq<(Seq<u8>, Bencode)>, key: Seq<u8>) -> Result<
    Option<Seq<u8>>,
    DecodeError,
> {
    match lookup(d, key) {
        None => Ok(None),
        Some(v) => match as_bytes(v) {
            Ok(b) => Ok(Some(b)),
            Err(e) => Err(e),
        },
    }
}

/// The text under `key`, if the key is there.
pub open spec fn optional_text(d: Seq<(Seq<u8>, Bencode)>, key: Seq<u8>) -> Result<
    Option<Seq<char>>,
    DecodeError,
> {
    match lookup(d, key) {
        None => Ok(None),
        Some(v) => match as_text(v) {
            Ok(t) => Ok(Some(t)),
            Err(e) => Err(e),
        },
    }
}

/// Whether two byte strings are the same.
pub fn same_bytes(a: &[u8], b: &[u8]) -> (r: bool)
    ensures
        r == (a@ == b@),
{
    if a.len() != b.len() {
        return false;
    }
    let mut i: usize = 0;
    while i < a.len()
        invariant
            i <= a@.len(),
            a@.len() == b@.len(),
            forall|j: int| 0 <= j < i ==> a@[j] == b@[j],
        decreases a@.len() - i,
    {
        if a[i] != b[i] {
            return false;
        }
        i += 1;
    }
    proof {
        assert(a@ =~= b@);
    }
    true
}

/// The kind of a value.
pub fn kind(v: &Value) -> (k: Kind)
    ensures
        k == kind_of(v@),
{
    match v {
        Value::Int(_) => Kind::Int,
        Value::Bytes(_) => Kind::Bytes,
        Value::List(_) => Kind::List,
        Value::Dict(_) => Kind::Dict,
    }
}

/// The value of the first entry under `key`.
pub fn get<'a>(d: &'a Vec<(Vec<u8>, Value)>, key: &[u8]) -> (r: Option<&'a Value>)
    ensures
        match lookup(entries_view(d@), key@) {
            Some(v) => r matches Some(x) && x@ == v,
            None => r is None,
        },
{
    let ghost model = entries_view(d@);
    let mut i: usize = 0;
    assert(model.skip(0) =~= model);
    while i < d.len()
        invariant
            i <= d@.len(),
            model == entries_view(d@),
            lookup(model, key@) == lookup(model.skip(i as int), key@),
        decreases d@.len() - i,
    {
        proof {
            assert(model.skip(i as int)[0] == model[i as int]);
            assert(model.skip(i as int).drop_first() =~= model.skip(i + 1));
        }
        if same_bytes(d[i].0.as_slice(), key) {
            return Some(&d[i].1);
        }
        i += 1;
    }
    None
}

/// The integer that the value is.
pub fn int_of(v: &Value) -> (r: Result<i64, DecodeError>)
    ensures
        r matches Ok(i) ==> as_int(v@) == Ok::<int, DecodeError>(i as int),
        r matches Err(e) ==> as_int(v@) == Err::<int, DecodeError>(e),
{
    match v {
        Value::Int(i) => Ok(*i),
        _ => Err(DecodeError::Unexpected(kind(v), Kind::Int)),
    }
}

/// The value as an unsigned number.
pub fn u64_of(v: &Value) -> (r: Result<u64, DecodeError>)
    ensures
        r == as_u64(v@),
{
    match v {
        Value::Int(i) => {
            if *i < 0 {
                Err(DecodeError::OverflowInteger)
            } else {
                Ok(*i as u64)
            }
        },
        _ => Err(DecodeError::Unexpected(kind(v), Kind::Int)),
    }
}

/// The byte string that the value is.
pub fn bytes_of<'a>(v: &'a Value) -> (r: Result<&'a Vec<u8>, DecodeError>)
    ensures
        r matches Ok(b) ==> as_bytes(v@) == Ok::<Seq<u8>, DecodeError>(b@),
        r matches Err(e) ==> as_bytes(v@) == Err::<Seq<u8>, DecodeError>(e),
{
    match v {
        Value::Bytes(b) => Ok(b),
        _ => Err(DecodeError::Unexpected(kind(v), Kind::Bytes)),
    }
}

/// The value as text.
pub fn text_of(v: &Value) -> (r: Result<String, DecodeError>)
    ensures
        r matches Ok(t) ==> as_text(v@) == Ok::<Seq<char>, DecodeError>(t@),
        r matches Err(e) ==> as_text(v@) == Err::<Seq<char>, DecodeError>(e),
{
    match v {
        Value::Bytes(b) => {
            let copy = copy_range(b.as_slice(), 0, b.len());
            assert(copy@ =~= b@);
            match string_from_utf8(copy) {
                Some(t) => Ok(t),
                None => Err(DecodeError::Unexpected(Kind::Other, Kind::Bytes)),
            }
        },
        _ => Err(DecodeError::Unexpected(kind(v), Kind::Bytes)),
    }
}

/// The list that the value is.
pub fn list_of<'a>(v: &'a Value) -> (r: Result<&'a Vec<Value>, DecodeError>)
    ensures
        r matches Ok(l) ==> as_list(v@) == Ok::<Seq<Bencode>, DecodeError>(items_view(l@)),
        r matches Err(e) ==> as_list(v@) == Err::<Seq<Bencode>, DecodeError>(e),
{
    match v {
        Value::List(l) => Ok(l),
        _ => Err(DecodeError::Unexpected(kind(v), Kind::List)),
    }
}

/// The dictionary that the value is.
pub fn dict_of<'a>(v: &'a Value) -> (r: Result<&'a Vec<(Vec<u8>, Value)>, DecodeError>)
    ensures
        r matches Ok(d) ==> as_dict(v@) == Ok::<Seq<(Seq<u8>, Bencode)>, DecodeError>(
            entries_view(d@),
        ),
        r matches Err(e) ==> as_dict(v@) == Err::<Seq<(Seq<u8>, Bencode)>, DecodeError>(e),
{
    match v {
        Value::Dict(d) => Ok(d),
        _ => Err(DecodeError::Unexpected(kind(v), Kind::Dict)),
    }
}

/// The value under `key`, which must be there.
pub fn get_required<'a>(d: &'a Vec<(Vec<u8>, Value)>, key: &str, expected: Kind) -> (r: Result<
    &'a Value,
    DecodeError,
>)
    ensures
        r matches Ok(v) ==> required(entries_view(d@), key.spec_bytes(), expected) == Ok::<
            Bencode,
            DecodeError,
        >(v@),
        r matches Err(e) ==> required(entries_view(d@), key.spec_bytes(), expected) == Err::<
            Bencode,
            DecodeError,
        >(e),
{
    match get(d, key.as_bytes()) {
        Some(v) => Ok(v),
        None => Err(DecodeError::Unexpected(Kind::End, expected)),
    }
}

/// The unsigned number under `key`, which must be there.
pub fn get_u64(d: &Vec<(Vec<u8>, Value)>, key: &str) -> (r: Result<u64, DecodeError>)
    ensures
        r == field_u64(entries_view(d@), key.spec_bytes()),
{
    let v = get_required(d, key, Kind::Int)?;
    u64_of(v)
}

/// The byte string under `key`, which must be there.
pub fn get_bytes<'a>(d: &'a Vec<(Vec<u8>, Value)>, key: &str) -> (r: Result<
    &'a Vec<u8>,
    DecodeError,
>)
    ensures
        r matches Ok(b) ==> field_bytes(entries_view(d@), key.spec_bytes()) == Ok::<
            Seq<u8>,
            DecodeError,
        >(b@),
        r matches Err(e) ==> field_bytes(entries_view(d@), key.spec_bytes()) == Err::<
            Seq<u8>,
            DecodeError,
        >(e),
{
    let v = get_required(d, key, Kind::Bytes)?;
    bytes_of(v)
}

/// The text under `key`, which must be there.
pub fn get_text(d: &Vec<(Vec<u8>, Value)>, key: &str) -> (r: Result<String, DecodeError>)
    ensures
        r matches Ok(t) ==> field_text(entries_view(d@), key.spec_bytes()) == Ok::<
            Seq<char>,
            DecodeError,
        >(t@),
        r matches Err(e) ==> field_text(entries_view(d@), key.spec_bytes()) == Err::<
            Seq<char>,
            DecodeError,
        >(e),
{
    let v = get_required(d, key, Kind::Bytes)?;
    text_of(v)
}

/// The unsigned number under `key`, if the key is there.
pub fn get_optional_u64(d: &Vec<(Vec<u8>, Value)>, key: &str) -> (r: Result<
    Option<u64>,
    DecodeError,
>)
    ensures
        r == optional_u64(entries_view(d@), key.spec_bytes()),
{
    match get(d, key.as_bytes()) {
        None => Ok(None),
        Some(v) => match u64_of(v) {
            Ok(n) => Ok(Some(n)),
            Err(e) => Err(e),
        },
    }
}

/// The bytes of an optional byte string.
pub open spec fn copied_option_view(b: Option<Vec<u8>>) -> Option<Seq<u8>> {
    match b {
        Some(v) => Some(v@),
        None => None,
    }
}

/// The characters of an optional text.
pub open spec fn owned_text_view(t: Option<String>) -> Option<Seq<char>> {
    match t {
        Some(s) => Some(s@),
        None => None,
    }
}

/// A copy of the byte string under `key`, if the key is there.
pub fn get_optional_bytes(d: &Vec<(Vec<u8>, Value)>, key: &str) -> (r: Result<
    Option<Vec<u8>>,
    DecodeError,
>)
    ensures
        r matches Ok(b) ==> optional_bytes(entries_view(d@), key.spec_bytes()) == Ok::<
            Option<Seq<u8>>,
            DecodeError,
        >(copied_option_view(b)),
        r matches Err(e) ==> optional_bytes(entries_view(d@), key.spec_bytes()) == Err::<
            Option<Seq<u8>>,
            DecodeError,
        >(e),
{
    match get(d, key.as_bytes()) {
        None => Ok(None),
        Some(v) => match bytes_of(v) {
            Ok(b) => {
                let copy = copy_range(b.as_slice(), 0, b.len());
                assert(copy@ =~= b@);
                Ok(Some(copy))
            },
            Err(e) => Err(e),
        },
    }
}

/// The text under `key`, if the key is there.
pub fn get_optional_text(d: &Vec<(Vec<u8>, Value)>, key: &str) -> (r: Result<
    Option<String>,
    DecodeError,
>)
    ensures
        r matches Ok(t) ==> optional_text(entries_view(d@), key.spec_bytes()) == Ok::<
            Option<Seq<char>>,
            DecodeError,
        >(owned_text_view(t)),
        r matches Err(e) ==> optional_text(entries_view(d@), key.spec_bytes()) == Err::<
            Option<Seq<char>>,
            DecodeError,
        >(e),
{
    match get(d, key.as_bytes()) {
        None => Ok(None),
        Some(v) => match text_of(v) {
            Ok(t) => Ok(Some(t)),
            Err(e) => Err(e),
        },
    }
}

/// An optional number that may be at most `max`; a greater one is an overflow.
pub open spec fn narrow(n: Option<u64>, max: int) -> Result<Option<u64>, DecodeError> {
    match n {
        Some(x) => if x > max {
            Err(DecodeError::OverflowInteger)
        } else {
            Ok(Some(x))
        },
        None => Ok(None),
    }
}

/// An optional number of at most `max`.
pub open spec fn bounded(d: Seq<(Seq<u8>, Bencode)>, key: Seq<u8>, max: int) -> Result<
    Option<u64>,
    DecodeError,
> {
    match optional_u64(d, key) {
        Err(e) => Err(e),
        Ok(n) => narrow(n, max),
    }
}

/// An optional byte string of `len` bytes, or of `alt` bytes; a shorter one
/// is cut short, any other has too much.
pub open spec fn sized(d: Seq<(Seq<u8>, Bencode)>, key: Seq<u8>, len: int, alt: int) -> Result<
    Option<Seq<u8>>,
    DecodeError,
> {
    match optional_bytes(d, key) {
        Err(e) => Err(e),
        Ok(None) => Ok(None),
        Ok(Some(b)) => if b.len() == len || b.len() == alt {
            Ok(Some(b))
        } else if b.len() < len {
            Err(DecodeError::Truncated)
        } else {
            Err(DecodeError::TrailingBytes)
        },
    }
}

/// An optional number in 16 bits.
pub open spec fn to_u16(n: Option<u64>) -> Option<u16> {
    match n {
        Some(x) => Some(x as u16),
        None => None,
    }
}

/// An optional number in 32 bits.
pub open spec fn to_u32(n: Option<u64>) -> Option<u32> {
    match n {
        Some(x) => Some(x as u32),
        None => None,
    }
}

/// The number of at most `max` under `key`, if the key is there.
pub fn get_bounded(d: &Vec<(Vec<u8>, Value)>, key: &str, max: u64) -> (r: Result<
    Option<u64>,
    DecodeError,
>)
    ensures
        r == bounded(entries_view(d@), key.spec_bytes(), max as int),
{
    match get_optional_u64(d, key)? {
        Some(x) => {
            if x > max {
                Err(DecodeError::OverflowInteger)
            } else {
                Ok(Some(x))
            }
        },
        None => Ok(None),
    }
}

/// The byte string of `len` or `alt` bytes under `key`, if the key is there.
pub fn get_sized(d: &Vec<(Vec<u8>, Value)>, key: &str, len: usize, alt: usize) -> (r: Result<
    Option<Vec<u8>>,
    DecodeError,
>)
    ensures
        r matches Ok(b) ==> sized(entries_view(d@), key.spec_bytes(), len as int, alt as int)
            == Ok::<Option<Seq<u8>>, DecodeError>(copied_option_view(b)),
        r matches Err(e) ==> sized(entries_view(d@), key.spec_bytes(), len as int, alt as int)
            == Err::<Option<Seq<u8>>, DecodeError>(e),
{
    match get_optional_bytes(d, key)? {
        None => Ok(None),
        Some(b) => {
            if b.len() == len || b.len() == alt {
                Ok(Some(b))
            } else if b.len() < len {
                Err(DecodeError::Truncated)
            } else {
                Err(DecodeError::TrailingBytes)
            }
        },
    }
}

/// An optional number that fits, in 16 bits.
pub fn narrow16(n: Option<u64>) -> (r: Option<u16>)
    requires
        n matches Some(x) ==> x <= 65535,
    ensures
        r == to_u16(n),
{
    match n {
        Some(x) => Some(x as u16),
        None => None,
    }
}

/// An optional number that fits, in 32 bits.
pub fn narrow32(n: Option<u64>) -> (r: Option<u32>)
    requires
        n matches Some(x) ==> x <= u32::MAX,
    ensures
        r == to_u32(n),
{
    match n {
        Some(x) => Some(x as u32),
        None => None,
    }
}


} // verus!
