//! The executable decoder.

use vstd::prelude::*;
use crate::bencode::{Bencode, DecodeError, Kind, Parsed, Value, digit_run, digits_value, entries_view, is_digit, items_view, number_len, parse, parse_bytes, parse_entries, parse_int, parse_items, parse_value, token_kind};
use crate::wire::copy_range;

verus! {

/// A run of `k` digits that ends at the end of `s` or before a byte that is
/// no digit is the whole digit run of `s`.
pub proof fn lemma_digit_run(s: Seq<u8>, k: int)
    requires
        0 <= k <= s.len(),
        forall|j: int| 0 <= j < k ==> is_digit(#[trigger] s[j]),
        k == s.len() || !is_digit(s[k]),
    ensures
        digit_run(s) == k,
    decreases k,
{
    if k > 0 {
        let t = s.drop_first();
        assert forall|j: int| 0 <= j < k - 1 implies is_digit(#[trigger] t[j]) by {
            assert(is_digit(s[j + 1]));
        }
        lemma_digit_run(t, k - 1);
    }
}

/// Appending a digit to a run multiplies its value by ten and adds the digit.
pub proof fn lemma_digits_value_push(s: Seq<u8>, b: u8)
    requires
        is_digit(b),
    ensures
        digits_value(s.push(b)) == digits_value(s) * 10 + (b - 48),
{
    assert(s.push(b).drop_last() == s);
}

fn kind_of_byte(b: u8) -> (k: Kind)
    ensures
        k == token_kind(b),
{
    if b == 105 {
        Kind::Int
    } else if b == 108 {
        Kind::List
    } else if b == 100 {
        Kind::Dict
    } else if b == 101 {
        Kind::End
    } else if 48 <= b && b <= 57 {
        Kind::Digit
    } else if b == 58 {
        Kind::Colon
    } else if b == 45 {
        Kind::Sign
    } else {
        Kind::Other
    }
}

/// Scans the number at `bytes[pos..]`: how many digits it has, its value,
/// and whether the value is too large for 64 bits (the value returned is
/// then meaningless).
fn scan_number(bytes: &[u8], pos: usize) -> (r: (usize, u64, bool))
    requires
        pos <= bytes@.len(),
    ensures
        r.0 == number_len(bytes@.skip(pos as int)),
        pos + r.0 <= bytes@.len(),
        !r.2 ==> r.1 == digits_value(bytes@.subrange(pos as int, pos + r.0)),
        r.2 ==> digits_value(bytes@.subrange(pos as int, pos + r.0)) > u64::MAX,
{
    let len: usize = bytes.len();
    let ghost s = bytes@.skip(pos as int);
    if pos < len && bytes[pos] == 48 {
        proof {
            let one = bytes@.subrange(pos as int, pos + 1);
            assert(one.drop_last().len() == 0);
            assert(digits_value(one.drop_last()) == 0);
            assert(digits_value(one) == 0);
        }
        return (1, 0, false);
    }
    let mut i: usize = pos;
    let mut acc: u64 = 0;
    let mut over: bool = false;
    while i < len && 48 <= bytes[i] && bytes[i] <= 57
        invariant
            pos <= i <= len,
            len == bytes@.len(),
            forall|j: int| pos <= j < i ==> is_digit(#[trigger] bytes@[j]),
            !over ==> acc == digits_value(bytes@.subrange(pos as int, i as int)),
            over ==> digits_value(bytes@.subrange(pos as int, i as int)) > u64::MAX,
        decreases len - i,
    {
        let d: u64 = (bytes[i] - 48) as u64;
        proof {
            let before = bytes@.subrange(pos as int, i as int);
            assert(bytes@.subrange(pos as int, i + 1) =~= before.push(bytes@[i as int]));
            lemma_digits_value_push(before, bytes@[i as int]);
        }
        if over || acc > (u64::MAX - d) / 10 {
            over = true;
        } else {
            acc = acc * 10 + d;
        }
        i += 1;
    }
    proof {
        let k = i - pos;
        assert forall|j: int| 0 <= j < k implies is_digit(#[trigger] s[j]) by {
            assert(is_digit(bytes@[pos + j]));
        }
        lemma_digit_run(s, k);
    }
    (i - pos, acc, over)
}

/// Decodes the integer whose `i` stands at `bytes[pos]`.
fn decode_int(bytes: &[u8], pos: usize) -> (r: Result<(Value, usize), DecodeError>)
    requires
        pos < bytes@.len(),
        bytes@[pos as int] == 105,
    ensures
        match parse_int(bytes@.skip(pos as int)) {
            Ok((v, n)) => r matches Ok((val, end)) && val@ == v && end == pos + n && pos < end
                <= bytes@.len(),
            Err(e) => r == Err::<(Value, usize), DecodeError>(e),
        },
{
    let len: usize = bytes.len();
    let ghost s = bytes@.skip(pos as int);
    let neg: bool = pos + 1 < len && bytes[pos + 1] == 45;
    let start: usize = if neg {
        pos + 2
    } else {
        pos + 1
    };
    if len <= start {
        return Err(DecodeError::Truncated);
    }
    let (k, mag, over) = scan_number(bytes, start);
    proof {
        assert(s.skip(start - pos) =~= bytes@.skip(start as int));
        assert(s.subrange(start - pos, start - pos + k) =~= bytes@.subrange(
            start as int,
            start + k,
        ));
    }
    if k == 0 {
        return Err(DecodeError::Unexpected(kind_of_byte(bytes[start]), Kind::Digit));
    }
    if neg && bytes[start] == 48 {
        return Err(DecodeError::Unexpected(Kind::Sign, Kind::Digit));
    }
    if len <= start + k {
        return Err(DecodeError::Truncated);
    }
    if bytes[start + k] != 101 {
        return Err(DecodeError::Unexpected(kind_of_byte(bytes[start + k]), Kind::End));
    }
    if over {
        return Err(DecodeError::OverflowInteger);
    }
    if neg {
        if mag > 0x8000_0000_0000_0000 {
            Err(DecodeError::OverflowInteger)
        } else if mag == 0x8000_0000_0000_0000 {
            Ok((Value::Int(i64::MIN), start + k + 1))
        } else {
            Ok((Value::Int(-(mag as i64)), start + k + 1))
        }
    } else {
        if mag > 0x7fff_ffff_ffff_ffff {
            Err(DecodeError::OverflowInteger)
        } else {
            Ok((Value::Int(mag as i64), start + k + 1))
        }
    }
}

/// Decodes the byte string whose length starts at `bytes[pos]`.
pub(crate) fn decode_bytes(bytes: &[u8], pos: usize) -> (r: Result<(Vec<u8>, usize), DecodeError>)
    requires
        pos < bytes@.len(),
        is_digit(bytes@[pos as int]),
    ensures
        match parse_bytes(bytes@.skip(pos as int)) {
            Ok((b, n)) => r matches Ok((data, end)) && data@ == b && end == pos + n && pos + 2
                <= end <= bytes@.len(),
            Err(e) => r == Err::<(Vec<u8>, usize), DecodeError>(e),
        },
{
    let len: usize = bytes.len();
    let ghost s = bytes@.skip(pos as int);
    let (k, n, over) = scan_number(bytes, pos);
    proof {
        assert(s.take(k as int) =~= bytes@.subrange(pos as int, pos + k));
        assert(s[0] == bytes@[pos as int]);
        assert(k >= 1) by {
            if s[0] != 48 {
                assert(digit_run(s) == 1 + digit_run(s.drop_first()));
            }
        }
    }
    if len <= pos + k {
        return Err(DecodeError::Truncated);
    }
    if bytes[pos + k] != 58 {
        return Err(DecodeError::Unexpected(kind_of_byte(bytes[pos + k]), Kind::Colon));
    }
    if over {
        return Err(DecodeError::Truncated);
    }
    let avail: usize = len - pos - k - 1;
    if (avail as u64) < n {
        return Err(DecodeError::Truncated);
    }
    let begin: usize = pos + k + 1;
    let end: usize = begin + (n as usize);
    let data = copy_range(bytes, begin, end);
    proof {
        assert(s.subrange(k + 1, k + 1 + n) =~= bytes@.subrange(begin as int, end as int));
    }
    Ok((data, end))
}

/// Joins what a loop has read so far with what reading on gives.
pub open spec fn items_after(acc: Seq<Bencode>, used: int, r: Parsed<Seq<Bencode>>) -> Parsed<
    Seq<Bencode>,
> {
    match r {
        Ok((rest, m)) => Ok((acc + rest, used + m)),
        Err(e) => Err(e),
    }
}

/// Joins the entries that a loop has read so far with what reading on gives.
pub open spec fn entries_after(
    acc: Seq<(Seq<u8>, Bencode)>,
    used: int,
    r: Parsed<Seq<(Seq<u8>, Bencode)>>,
) -> Parsed<Seq<(Seq<u8>, Bencode)>> {
    match r {
        Ok((rest, m)) => Ok((acc + rest, used + m)),
        Err(e) => Err(e),
    }
}

/// The model of a list is the list of its items' models.
pub proof fn lemma_list_view(items: Vec<Value>)
    ensures
        Value::List(items)@ == Bencode::List(items_view(items@)),
{
}

/// The model of a dictionary is the list of its entries' models.
pub proof fn lemma_dict_view(entries: Vec<(Vec<u8>, Value)>)
    ensures
        Value::Dict(entries)@ == Bencode::Dict(entries_view(entries@)),
{
}

proof fn lemma_items_step(acc: Seq<Bencode>, v: Bencode, n: int, used: int, tail: Parsed<Seq<Bencode>>)
    ensures
        items_after(acc, used, items_after(seq![v], n, tail)) == items_after(
            acc + seq![v],
            used + n,
            tail,
        ),
{
    if let Ok((rest, m)) = tail {
        assert(acc + (seq![v] + rest) =~= (acc + seq![v]) + rest);
    }
}

proof fn lemma_entries_step(
    acc: Seq<(Seq<u8>, Bencode)>,
    e: (Seq<u8>, Bencode),
    n: int,
    used: int,
    tail: Parsed<Seq<(Seq<u8>, Bencode)>>,
)
    ensures
        entries_after(acc, used, entries_after(seq![e], n, tail)) == entries_after(
            acc + seq![e],
            used + n,
            tail,
        ),
{
    if let Ok((rest, m)) = tail {
        assert(acc + (seq![e] + rest) =~= (acc + seq![e]) + rest);
    }
}

/// Decodes the value that starts at `bytes[pos]`. On success the value comes
/// with the position just behind it.
pub fn decode_value(bytes: &[u8], pos: usize, depth: usize) -> (r: Result<
    (Value, usize),
    DecodeError,
>)
    requires
        pos <= bytes@.len(),
    ensures
        match parse_value(bytes@.skip(pos as int), depth as nat) {
            Ok((v, n)) => r matches Ok((val, end)) && val@ == v && end == pos + n && pos < end
                <= bytes@.len(),
            Err(e) => r == Err::<(Value, usize), DecodeError>(e),
        },
    decreases bytes@.len() - pos, 0nat,
{
    let len: usize = bytes.len();
    let ghost s = bytes@.skip(pos as int);
    if pos >= len {
        return Err(DecodeError::Truncated);
    }
    let b: u8 = bytes[pos];
    assert(s[0] == b);
    if b == 105 {
        decode_int(bytes, pos)
    } else if 48 <= b && b <= 57 {
        match decode_bytes(bytes, pos) {
            Ok((data, end)) => Ok((Value::Bytes(data), end)),
            Err(e) => Err(e),
        }
    } else if b == 108 {
        if depth == 0 {
            return Err(DecodeError::DepthExceeded);
        }
        assert(bytes@.skip(pos + 1) =~= s.skip(1));
        match decode_items(bytes, pos + 1, depth - 1) {
            Ok((items, end)) => {
                proof {
                    lemma_list_view(items);
                }
                Ok((Value::List(items), end))
            },
            Err(e) => Err(e),
        }
    } else if b == 100 {
        if depth == 0 {
            return Err(DecodeError::DepthExceeded);
        }
        assert(bytes@.skip(pos + 1) =~= s.skip(1));
        match decode_entries(bytes, pos + 1, depth - 1) {
            Ok((entries, end)) => {
                proof {
                    lemma_dict_view(entries);
                }
                Ok((Value::Dict(entries), end))
            },
            Err(e) => Err(e),
        }
    } else {
        Err(DecodeError::Unexpected(kind_of_byte(b), Kind::Value))
    }
}

/// Decodes the items of a list whose first item, or closing `e`, stands at
/// `bytes[pos]`.
#[verifier::loop_isolation(false)]
fn decode_items(bytes: &[u8], pos: usize, depth: usize) -> (r: Result<
    (Vec<Value>, usize),
    DecodeError,
>)
    requires
        pos <= bytes@.len(),
    ensures
        match parse_items(bytes@.skip(pos as int), depth as nat) {
            Ok((l, n)) => r matches Ok((items, end)) && items_view(items@) == l && end == pos + n
                && pos < end <= bytes@.len(),
            Err(e) => r == Err::<(Vec<Value>, usize), DecodeError>(e),
        },
    decreases bytes@.len() - pos, 1nat,
{
    let len: usize = bytes.len();
    let ghost body = bytes@.skip(pos as int);
    let ghost inner = depth as nat;
    let mut items: Vec<Value> = Vec::new();
    let mut cur: usize = pos;
    assert(items_view(items@) =~= Seq::<Bencode>::empty());
    proof {
        let r0 = parse_items(body, inner);
        if let Ok((rest, m)) = r0 {
            assert(Seq::<Bencode>::empty() + rest =~= rest);
        }
    }
    loop
        invariant
            pos <= cur <= len,
            parse_items(body, inner) == items_after(
                items_view(items@),
                cur - pos,
                parse_items(bytes@.skip(cur as int), inner),
            ),
        decreases len - cur,
    {
        let ghost t = bytes@.skip(cur as int);
        if cur >= len {
            return Err(DecodeError::Truncated);
        }
        assert(t[0] == bytes@[cur as int]);
        if bytes[cur] == 101 {
            proof {
                assert(items_view(items@) + Seq::<Bencode>::empty() =~= items_view(items@));
            }
            return Ok((items, cur + 1));
        }
        match decode_value(bytes, cur, depth) {
            Err(e) => {
                return Err(e);
            },
            Ok((v, end)) => {
                proof {
                    assert(t.skip(end - cur) =~= bytes@.skip(end as int));
                    assert(items_view(items@.push(v)) =~= items_view(items@) + seq![v@]);
                    lemma_items_step(
                        items_view(items@),
                        v@,
                        end - cur,
                        cur - pos,
                        parse_items(bytes@.skip(end as int), inner),
                    );
                }
                items.push(v);
                cur = end;
            },
        }
    }
}

/// Decodes the entries of a dictionary whose first key, or closing `e`,
/// stands at `bytes[pos]`.
#[verifier::loop_isolation(false)]
fn decode_entries(bytes: &[u8], pos: usize, depth: usize) -> (r: Result<
    (Vec<(Vec<u8>, Value)>, usize),
    DecodeError,
>)
    requires
        pos <= bytes@.len(),
    ensures
        match parse_entries(bytes@.skip(pos as int), depth as nat) {
            Ok((d, n)) => r matches Ok((entries, end)) && entries_view(entries@) == d && end
                == pos + n && pos < end <= bytes@.len(),
            Err(e) => r == Err::<(Vec<(Vec<u8>, Value)>, usize), DecodeError>(e),
        },
    decreases bytes@.len() - pos, 1nat,
{
    let len: usize = bytes.len();
    let ghost body = bytes@.skip(pos as int);
    let ghost inner = depth as nat;
    let mut entries: Vec<(Vec<u8>, Value)> = Vec::new();
    let mut cur: usize = pos;
    assert(entries_view(entries@) =~= Seq::<(Seq<u8>, Bencode)>::empty());
    proof {
        let r0 = parse_entries(body, inner);
        if let Ok((rest, m)) = r0 {
            assert(Seq::<(Seq<u8>, Bencode)>::empty() + rest =~= rest);
        }
    }
    loop
        invariant
            pos <= cur <= len,
            parse_entries(body, inner) == entries_after(
                entries_view(entries@),
                cur - pos,
                parse_entries(bytes@.skip(cur as int), inner),
            ),
        decreases len - cur,
    {
        let ghost t = bytes@.skip(cur as int);
        if cur >= len {
            return Err(DecodeError::Truncated);
        }
        assert(t[0] == bytes@[cur as int]);
        let c: u8 = bytes[cur];
        if c == 101 {
            proof {
                assert(entries_view(entries@) + Seq::<(Seq<u8>, Bencode)>::empty()
                    =~= entries_view(entries@));
            }
            return Ok((entries, cur + 1));
        }
        if !(48 <= c && c <= 57) {
            return Err(DecodeError::Unexpected(kind_of_byte(c), Kind::Bytes));
        }
        match decode_bytes(bytes, cur) {
            Err(e) => {
                return Err(e);
            },
            Ok((key, mid)) => {
                proof {
                    assert(t.skip(mid - cur) =~= bytes@.skip(mid as int));
                }
                match decode_value(bytes, mid, depth) {
                    Err(e) => {
                        return Err(e);
                    },
                    Ok((v, end)) => {
                        proof {
                            assert(t.skip(end - cur) =~= bytes@.skip(end as int));
                            assert(entries_view(entries@.push((key, v))) =~= entries_view(
                                entries@,
                            ) + seq![(key@, v@)]);
                            lemma_entries_step(
                                entries_view(entries@),
                                (key@, v@),
                                end - cur,
                                cur - pos,
                                parse_entries(bytes@.skip(end as int), inner),
                            );
                        }
                        entries.push((key, v));
                        cur = end;
                    },
                }
            },
        }
    }
}

/// Decodes the one value that `bytes` holds, with lists and dictionaries
/// nested at most `max_depth` deep.
pub fn decode(bytes: &[u8], max_depth: usize) -> (r: Result<Value, DecodeError>)
    ensures
        match parse(bytes@, max_depth as nat) {
            Ok(v) => r matches Ok(val) && val@ == v,
            Err(e) => r == Err::<Value, DecodeError>(e),
        },
{
    assert(bytes@.skip(0) =~= bytes@);
    match decode_value(bytes, 0, max_depth) {
        Err(e) => Err(e),
        Ok((v, end)) => {
            if end == bytes.len() {
                Ok(v)
            } else {
                Err(DecodeError::TrailingBytes)
            }
        },
    }
}

} // verus!
