use bendy::decoding::FromBencode;
use bendy::encoding::ToBencode;
use everlasting::bencode::decoder::decode;
use everlasting::bencode::encoder::{encode, encode_in_order};
use everlasting::bencode::{DecodeError, Kind, Value};

fn bytes(s: &str) -> Value {
    Value::Bytes(s.as_bytes().to_vec())
}

#[test]
fn decodes_integers() {
    assert_eq!(decode(b"i0e", 5), Ok(Value::Int(0)));
    assert_eq!(decode(b"i42e", 5), Ok(Value::Int(42)));
    assert_eq!(decode(b"i-7e", 5), Ok(Value::Int(-7)));
    assert_eq!(decode(b"i9223372036854775807e", 5), Ok(Value::Int(i64::MAX)));
    assert_eq!(decode(b"i-9223372036854775808e", 5), Ok(Value::Int(i64::MIN)));
}

#[test]
fn rejects_malformed_integers() {
    assert_eq!(decode(b"i9223372036854775808e", 5), Err(DecodeError::OverflowInteger));
    assert_eq!(decode(b"i-9223372036854775809e", 5), Err(DecodeError::OverflowInteger));
    assert_eq!(decode(b"i03e", 5), Err(DecodeError::Unexpected(Kind::Digit, Kind::End)));
    assert_eq!(decode(b"i-0e", 5), Err(DecodeError::Unexpected(Kind::Sign, Kind::Digit)));
    assert_eq!(decode(b"ie", 5), Err(DecodeError::Unexpected(Kind::End, Kind::Digit)));
    assert_eq!(decode(b"i12", 5), Err(DecodeError::Truncated));
    assert_eq!(decode(b"i", 5), Err(DecodeError::Truncated));
}

#[test]
fn decodes_byte_strings() {
    assert_eq!(decode(b"0:", 5), Ok(bytes("")));
    assert_eq!(decode(b"4:spam", 5), Ok(bytes("spam")));
    assert_eq!(decode(b"4:spa", 5), Err(DecodeError::Truncated));
    assert_eq!(decode(b"4spam", 5), Err(DecodeError::Unexpected(Kind::Other, Kind::Colon)));
    assert_eq!(decode(b"99999999999999999999999:x", 5), Err(DecodeError::Truncated));
}

#[test]
fn decodes_lists_and_dictionaries() {
    assert_eq!(
        decode(b"l4:spami3ee", 5),
        Ok(Value::List(vec![bytes("spam"), Value::Int(3)]))
    );
    assert_eq!(
        decode(b"d1:bi1e1:ai2ee", 5),
        Ok(Value::Dict(vec![
            (b"b".to_vec(), Value::Int(1)),
            (b"a".to_vec(), Value::Int(2)),
        ]))
    );
    assert_eq!(decode(b"di1ei2ee", 5), Err(DecodeError::Unexpected(Kind::Int, Kind::Bytes)));
    assert_eq!(decode(b"l", 5), Err(DecodeError::Truncated));
    assert_eq!(decode(b"x", 5), Err(DecodeError::Unexpected(Kind::Other, Kind::Value)));
    assert_eq!(decode(b"", 5), Err(DecodeError::Truncated));
}

#[test]
fn reports_trailing_bytes() {
    assert_eq!(decode(b"i1ei2e", 5), Err(DecodeError::TrailingBytes));
    assert_eq!(decode(b"lee", 5), Err(DecodeError::TrailingBytes));
}

#[test]
fn bounds_the_nesting() {
    assert_eq!(decode(b"llleee", 3), Ok(Value::List(vec![Value::List(vec![Value::List(vec![])])])));
    assert_eq!(decode(b"llleee", 2), Err(DecodeError::DepthExceeded));
    assert_eq!(decode(b"le", 0), Err(DecodeError::DepthExceeded));
    assert_eq!(decode(b"i1e", 0), Ok(Value::Int(1)));
}

#[test]
fn encodes_with_sorted_keys() {
    let v = Value::Dict(vec![
        (b"spam".to_vec(), Value::List(vec![bytes("a"), Value::Int(-3)])),
        (b"cow".to_vec(), bytes("moo")),
        (b"co".to_vec(), Value::Int(0)),
    ]);
    assert_eq!(encode(&v), b"d2:coi0e3:cow3:moo4:spaml1:ai-3eee".to_vec());
}

#[test]
fn decode_inverts_encode_on_sorted_values() {
    let v = Value::Dict(vec![
        (b"a".to_vec(), Value::Int(i64::MIN)),
        (b"b".to_vec(), Value::List(vec![Value::Dict(vec![]), bytes("")])),
        (b"c".to_vec(), Value::Bytes(vec![0, 255, 101, 58])),
    ]);
    assert_eq!(decode(&encode(&v), 5), Ok(v));
}

#[test]
fn encode_in_order_gives_back_what_was_decoded() {
    let raw: &[u8] = b"d4:name3:foo12:piece lengthi16384e6:lengthi7ee";
    let v = decode(raw, 5).unwrap();
    assert_eq!(encode_in_order(&v), raw.to_vec());
    // The sorting encoder puts `length` first.
    assert_eq!(encode(&v), b"d6:lengthi7e4:name3:foo12:piece lengthi16384ee".to_vec());
}

#[test]
fn agrees_with_bendy_on_sorted_values() {
    let v = Value::Dict(vec![
        (b"a".to_vec(), Value::Int(-12)),
        (b"b".to_vec(), Value::List(vec![bytes("x"), Value::Int(3)])),
        (b"zz".to_vec(), bytes("tail")),
    ]);
    let mine = encode(&v);
    let theirs = bendy::value::Value::from_bencode(&mine).unwrap();
    assert_eq!(theirs.to_bencode().unwrap(), mine);
}

#[test]
fn equal_keys_keep_their_order() {
    let v = Value::Dict(vec![
        (b"k".to_vec(), Value::Int(1)),
        (b"a".to_vec(), Value::Int(0)),
        (b"k".to_vec(), Value::Int(2)),
    ]);
    assert_eq!(encode(&v), b"d1:ai0e1:ki1e1:ki2ee".to_vec());
}
