//! What holds between writing and reading.

use vstd::prelude::*;
use crate::bencode::{Bencode, DecodeError, canonical, depth_of, digit_run, digits, digits_value, entries_depth, entries_representable, find_entry, insert_at, is_canonical, is_digit, items_depth, items_representable, keys_of, lex_le, lookup, number_len, parse, parse_bytes, parse_entries, parse_int, parse_items, parse_value, representable, serialize, serialize_bytes, serialize_entries, serialize_items, sorted_order};
use crate::bencode::decoder::lemma_digit_run;

verus! {

/// The decimal spelling of a number is a non-empty run of digits that spells
/// the number and has no leading zero.
pub proof fn lemma_digits(n: nat)
    ensures
        digits(n).len() >= 1,
        forall|j: int| 0 <= j < digits(n).len() ==> is_digit(#[trigger] digits(n)[j]),
        digits_value(digits(n)) == n,
        n >= 1 ==> digits(n)[0] != 48,
        n == 0 ==> digits(n) == seq![48u8],
    decreases n,
{
    if n < 10 {
        let s = digits(n);
        assert(s.drop_last().len() == 0);
        assert(digits_value(s.drop_last()) == 0);
    } else {
        lemma_digits(n / 10);
        let s = digits(n);
        assert(s.drop_last() =~= digits(n / 10));
        assert(s[0] == digits(n / 10)[0]);
    }
}

/// A spelled number followed by something that is no digit is read back
/// whole.
pub proof fn lemma_number_len(n: nat, rest: Seq<u8>)
    requires
        rest.len() == 0 || !is_digit(rest[0]),
    ensures
        number_len(digits(n) + rest) == digits(n).len(),
{
    lemma_digits(n);
    let s = digits(n) + rest;
    let k = digits(n).len() as int;
    assert(s[0] == digits(n)[0]);
    if n == 0 {
    } else {
        assert forall|j: int| 0 <= j < k implies is_digit(#[trigger] s[j]) by {
            assert(s[j] == digits(n)[j]);
        }
        if rest.len() > 0 {
            assert(s[k] == rest[0]);
        }
        lemma_digit_run(s, k);
    }
}

/// The first byte of an encoding tells what kind of value follows, and is
/// never the `e` that closes a list.
pub proof fn lemma_first_byte(v: Bencode)
    ensures
        serialize(v).len() >= 2,
        match v {
            Bencode::Int(_) => serialize(v)[0] == 105,
            Bencode::Bytes(_) => is_digit(serialize(v)[0]),
            Bencode::List(_) => serialize(v)[0] == 108,
            Bencode::Dict(_) => serialize(v)[0] == 100,
        },
{
    match v {
        Bencode::Int(i) => {
            if i < 0 {
                lemma_digits((-i) as nat);
            } else {
                lemma_digits(i as nat);
            }
        },
        Bencode::Bytes(b) => {
            lemma_digits(b.len());
            assert(serialize(v)[0] == digits(b.len())[0]);
        },
        Bencode::List(l) => {},
        Bencode::Dict(d) => {},
    }
}

/// An integer that was written is read back, whatever follows it.
pub proof fn lemma_parse_int(i: int, rest: Seq<u8>)
    requires
        i64::MIN <= i <= i64::MAX,
    ensures
        parse_int(serialize(Bencode::Int(i)) + rest) == Ok::<(Bencode, int), DecodeError>(
            (Bencode::Int(i), serialize(Bencode::Int(i)).len() as int),
        ),
{
    let s = serialize(Bencode::Int(i)) + rest;
    let m: nat = if i < 0 {
        (-i) as nat
    } else {
        i as nat
    };
    lemma_digits(m);
    let d = digits(m);
    let k = d.len() as int;
    let tail = seq![101u8] + rest;
    let neg = i < 0;
    let start: int = if neg {
        2
    } else {
        1
    };
    if neg {
        assert(s =~= seq![105u8, 45u8] + d + tail);
        assert(s[1] == 45);
    } else {
        assert(s =~= seq![105u8] + d + tail);
        assert(s[1] == d[0]);
    }
    assert(s.skip(start) =~= d + tail);
    lemma_number_len(m, tail);
    assert(s[start] == d[0]);
    assert(s[start + k] == 101);
    assert(s.subrange(start, start + k) =~= d);
}

/// A byte string that was written is read back, whatever follows it.
pub proof fn lemma_parse_bytes(b: Seq<u8>, rest: Seq<u8>)
    ensures
        parse_bytes(serialize_bytes(b) + rest) == Ok::<(Seq<u8>, int), DecodeError>(
            (b, serialize_bytes(b).len() as int),
        ),
        is_digit((serialize_bytes(b) + rest)[0]),
        serialize_bytes(b).len() >= 2,
{
    let s = serialize_bytes(b) + rest;
    lemma_digits(b.len());
    let d = digits(b.len());
    let k = d.len() as int;
    let tail = seq![58u8] + b + rest;
    assert(s =~= d + tail);
    lemma_number_len(b.len(), tail);
    assert(s[k] == 58);
    assert(s.take(k) =~= d);
    assert(s.subrange(k + 1, k + 1 + b.len()) =~= b);
    assert(s[0] == d[0]);
}

/// A value that was written is read back, whatever follows it, if the depth
/// limit admits it.
pub proof fn lemma_parse_value(v: Bencode, rest: Seq<u8>, depth: nat)
    requires
        representable(v),
        depth_of(v) <= depth,
    ensures
        parse_value(serialize(v) + rest, depth) == Ok::<(Bencode, int), DecodeError>(
            (v, serialize(v).len() as int),
        ),
    decreases v,
{
    let s = serialize(v) + rest;
    lemma_first_byte(v);
    assert(s[0] == serialize(v)[0]);
    match v {
        Bencode::Int(i) => {
            lemma_parse_int(i, rest);
        },
        Bencode::Bytes(b) => {
            lemma_parse_bytes(b, rest);
        },
        Bencode::List(l) => {
            let inner = (depth - 1) as nat;
            lemma_parse_items(l, rest, inner);
            assert(s.skip(1) =~= serialize_items(l) + seq![101u8] + rest);
            assert(serialize(v).len() == serialize_items(l).len() + 2);
        },
        Bencode::Dict(d) => {
            let inner = (depth - 1) as nat;
            lemma_parse_entries(d, rest, inner);
            assert(s.skip(1) =~= serialize_entries(d) + seq![101u8] + rest);
            assert(serialize(v).len() == serialize_entries(d).len() + 2);
        },
    }
}

/// The items of a list that were written are read back, up to and including
/// the closing `e`.
pub proof fn lemma_parse_items(l: Seq<Bencode>, rest: Seq<u8>, depth: nat)
    requires
        items_representable(l),
        items_depth(l) <= depth,
    ensures
        parse_items(serialize_items(l) + seq![101u8] + rest, depth) == Ok::<
            (Seq<Bencode>, int),
            DecodeError,
        >((l, (serialize_items(l).len() + 1) as int)),
    decreases l,
{
    let s = serialize_items(l) + seq![101u8] + rest;
    if l.len() == 0 {
        assert(s[0] == 101);
        assert(l =~= Seq::<Bencode>::empty());
    } else {
        let head = l[0];
        let others = l.drop_first();
        let after = serialize_items(others) + seq![101u8] + rest;
        assert(s =~= serialize(head) + after);
        lemma_first_byte(head);
        assert(s[0] == serialize(head)[0]);
        lemma_parse_value(head, after, depth);
        let n = serialize(head).len() as int;
        assert(s.skip(n) =~= after);
        lemma_parse_items(others, rest, depth);
        assert(seq![head] + others =~= l);
    }
}

/// The entries of a dictionary that were written are read back, up to and
/// including the closing `e`.
pub proof fn lemma_parse_entries(d: Seq<(Seq<u8>, Bencode)>, rest: Seq<u8>, depth: nat)
    requires
        entries_representable(d),
        entries_depth(d) <= depth,
    ensures
        parse_entries(serialize_entries(d) + seq![101u8] + rest, depth) == Ok::<
            (Seq<(Seq<u8>, Bencode)>, int),
            DecodeError,
        >((d, (serialize_entries(d).len() + 1) as int)),
    decreases d,
{
    let s = serialize_entries(d) + seq![101u8] + rest;
    if d.len() == 0 {
        assert(s[0] == 101);
        assert(d =~= Seq::<(Seq<u8>, Bencode)>::empty());
    } else {
        let key = d[0].0;
        let value = d[0].1;
        let others = d.drop_first();
        let after = serialize_entries(others) + seq![101u8] + rest;
        let after_key = serialize(value) + after;
        assert(s =~= serialize_bytes(key) + after_key);
        lemma_parse_bytes(key, after_key);
        let n = serialize_bytes(key).len() as int;
        assert(s.skip(n) =~= after_key);
        lemma_first_byte(value);
        lemma_parse_value(value, after, depth);
        let m = serialize(value).len() as int;
        assert(s.skip(n + m) =~= after);
        lemma_parse_entries(others, rest, depth);
        assert(seq![(key, value)] + others =~= d);
    }
}

/// Keys that already ascend are left in place by the sort.
pub proof fn lemma_sorted_order_identity(keys: Seq<Seq<u8>>, n: nat)
    requires
        n <= keys.len(),
        forall|i: int| 0 <= i < n - 1 ==> lex_le(#[trigger] keys[i], keys[i + 1]),
    ensures
        sorted_order(keys, n) == Seq::new(n, |i: int| i),
    decreases n,
{
    if n == 0 {
        assert(sorted_order(keys, n) =~= Seq::new(n, |i: int| i));
    } else {
        let before = sorted_order(keys, (n - 1) as nat);
        lemma_sorted_order_identity(keys, (n - 1) as nat);
        if n >= 2 {
            assert(before.last() == n - 2);
            assert(lex_le(keys[n - 2], keys[n - 2 + 1]));
            assert(insert_at(before, keys, n - 1) == n - 1);
        } else {
            assert(insert_at(before, keys, n - 1) == 0);
        }
        assert(before.insert(n - 1, n - 1) =~= Seq::new(n, |i: int| i));
    }
}

/// A value whose dictionaries are sorted is its own canonical form.
pub proof fn lemma_canonical_identity(v: Bencode)
    requires
        is_canonical(v),
    ensures
        canonical(v) == v,
    decreases v,
{
    match v {
        Bencode::Int(_) => {},
        Bencode::Bytes(_) => {},
        Bencode::List(l) => {
            let c = canonical(v)->List_0;
            assert forall|i: int| 0 <= i < l.len() implies c[i] == l[i] by {
                lemma_canonical_identity(l[i]);
            }
            assert(c =~= l);
        },
        Bencode::Dict(d) => {
            let keys = keys_of(d);
            assert forall|i: int| 0 <= i < d.len() - 1 implies lex_le(
                #[trigger] keys[i],
                keys[i + 1],
            ) by {
                assert(lex_le(d[i].0, d[i + 1].0));
            }
            lemma_sorted_order_identity(keys, d.len());
            let c = canonical(v)->Dict_0;
            assert forall|i: int| 0 <= i < d.len() implies c[i] == d[i] by {
                lemma_canonical_identity(d[i].1);
            }
            assert(c =~= d);
        },
    }
}

/// Decoding what was encoded gives the value back: for every value whose
/// integers fit in 64 bits, whose dictionaries are sorted by key and whose
/// nesting the depth limit admits.
pub proof fn lemma_decode_encode(v: Bencode, max_depth: nat)
    requires
        representable(v),
        is_canonical(v),
        depth_of(v) <= max_depth,
    ensures
        parse(serialize(canonical(v)), max_depth) == Ok::<Bencode, DecodeError>(v),
{
    lemma_canonical_identity(v);
    lemma_parse_value(v, Seq::empty(), max_depth);
    assert(serialize(v) + Seq::<u8>::empty() =~= serialize(v));
}

/// The number that starts `s` has no more digits than `s` has bytes.
pub proof fn lemma_number_len_bound(s: Seq<u8>)
    ensures
        number_len(s) <= s.len(),
{
    lemma_digit_run_bound(s);
}

/// A sequence starts with no more digits than it has bytes.
pub proof fn lemma_digit_run_bound(s: Seq<u8>)
    ensures
        digit_run(s) <= s.len(),
    decreases s.len(),
{
    if s.len() > 0 && is_digit(s[0]) {
        lemma_digit_run_bound(s.drop_first());
    }
}

/// Whatever is read takes at least one byte and no more than there are.
pub proof fn lemma_parse_value_bounds(s: Seq<u8>, depth: nat)
    ensures
        parse_value(s, depth) matches Ok((_, n)) ==> 0 < n <= s.len(),
    decreases s.len(), 0nat,
{
    if s.len() > 0 {
        if s[0] == 105 {
            let neg = s.len() > 1 && s[1] == 45;
            let start: int = if neg {
                2
            } else {
                1
            };
            if s.len() > start {
                lemma_number_len_bound(s.skip(start));
            }
        } else if is_digit(s[0]) {
            lemma_number_len_bound(s);
        } else if s[0] == 108 {
            if depth > 0 {
                lemma_parse_items_bounds(s.skip(1), (depth - 1) as nat);
            }
        } else if s[0] == 100 {
            if depth > 0 {
                lemma_parse_entries_bounds(s.skip(1), (depth - 1) as nat);
            }
        }
    }
}

/// Reading the items of a list takes at least one byte and no more than
/// there are.
pub proof fn lemma_parse_items_bounds(s: Seq<u8>, depth: nat)
    ensures
        parse_items(s, depth) matches Ok((_, n)) ==> 0 < n <= s.len(),
    decreases s.len(), 1nat,
{
    if s.len() > 0 && s[0] != 101 {
        lemma_parse_value_bounds(s, depth);
        if let Ok((v, n)) = parse_value(s, depth) {
            lemma_parse_items_bounds(s.skip(n), depth);
        }
    }
}

/// Reading the entries of a dictionary takes at least one byte and no more
/// than there are.
pub proof fn lemma_parse_entries_bounds(s: Seq<u8>, depth: nat)
    ensures
        parse_entries(s, depth) matches Ok((_, n)) ==> 0 < n <= s.len(),
    decreases s.len(), 1nat,
{
    if s.len() > 0 && s[0] != 101 && is_digit(s[0]) {
        lemma_number_len_bound(s);
        if let Ok((key, n)) = parse_bytes(s) {
            lemma_parse_value_bounds(s.skip(n), depth);
            if let Ok((v, m)) = parse_value(s.skip(n), depth) {
                lemma_parse_entries_bounds(s.skip(n + m), depth);
            }
        }
    }
}

/// In a dictionary that decodes, the bytes found for a key decode, on their
/// own, to the value that the dictionary holds under that key; and a key is
/// found exactly if the dictionary holds it.
pub proof fn lemma_find_entry(s: Seq<u8>, key: Seq<u8>, depth: nat)
    requires
        parse_entries(s, depth) is Ok,
    ensures
        ({
            let d = parse_entries(s, depth)->Ok_0.0;
            let n = parse_entries(s, depth)->Ok_0.1;
            match find_entry(s, key, depth) {
                Some((a, m)) => 0 < a && 0 < m && a + m < n && lookup(d, key) is Some
                    && parse_value(s.skip(a), depth) == Ok::<(Bencode, int), DecodeError>(
                    (lookup(d, key)->Some_0, m),
                ),
                None => lookup(d, key) is None,
            }
        }),
    decreases s.len(),
{
    if s.len() == 0 {
    } else if s[0] == 101 {
        let d = parse_entries(s, depth)->Ok_0.0;
        assert(d.len() == 0);
    } else {
        let (k, n) = parse_bytes(s)->Ok_0;
        let (v, m) = parse_value(s.skip(n), depth)->Ok_0;
        let (rest, r) = parse_entries(s.skip(n + m), depth)->Ok_0;
        lemma_parse_entries_bounds(s.skip(n + m), depth);
        let d = seq![(k, v)] + rest;
        assert(d[0] == (k, v));
        assert(d.drop_first() =~= rest);
        if k == key {
        } else {
            lemma_find_entry(s.skip(n + m), key, depth);
            match find_entry(s.skip(n + m), key, depth) {
                Some((a, b)) => {
                    assert(s.skip(n + m).skip(a) =~= s.skip(n + m + a));
                },
                None => {},
            }
        }
    }
}

/// A run of digits without a leading zero is the spelling of its value.
pub proof fn lemma_digits_of_value(t: Seq<u8>)
    requires
        t.len() >= 1,
        forall|j: int| 0 <= j < t.len() ==> is_digit(#[trigger] t[j]),
        t.len() > 1 ==> t[0] != 48,
    ensures
        digits(digits_value(t)) == t,
        t.len() > 1 ==> digits_value(t) >= 10,
        t[0] != 48 ==> digits_value(t) >= 1,
    decreases t.len(),
{
    let head = t.drop_last();
    let d = (t.last() - 48) as int;
    if t.len() == 1 {
        assert(head.len() == 0);
        assert(digits_value(head) == 0);
        assert(digits_value(t) == d);
        assert(digits(d as nat) =~= t);
    } else {
        assert forall|j: int| 0 <= j < head.len() implies is_digit(#[trigger] head[j]) by {
            assert(head[j] == t[j]);
        }
        assert(head[0] == t[0]);
        lemma_digits_of_value(head);
        let hv = digits_value(head);
        assert(hv >= 1);
        let v = digits_value(t);
        assert(v == hv * 10 + d);
        assert(v / 10 == hv);
        assert(v % 10 == d);
        assert(digits(v) =~= digits(hv).push((48 + d) as u8));
        assert(digits(v) =~= t);
    }
}

/// The digits that start `s` are digits, each of them.
pub proof fn lemma_digit_run_digits(s: Seq<u8>)
    ensures
        digit_run(s) <= s.len(),
        forall|j: int| 0 <= j < digit_run(s) ==> is_digit(#[trigger] s[j]),
    decreases s.len(),
{
    if s.len() > 0 && is_digit(s[0]) {
        let t = s.drop_first();
        lemma_digit_run_digits(t);
        assert forall|j: int| 0 <= j < digit_run(s) implies is_digit(#[trigger] s[j]) by {
            if j > 0 {
                assert(s[j] == t[j - 1]);
            }
        }
    }
}

/// The number that starts `s`, taken by `number_len`, is the spelling of its
/// value.
pub proof fn lemma_number_spelling(s: Seq<u8>)
    requires
        number_len(s) >= 1,
    ensures
        number_len(s) <= s.len(),
        digits(digits_value(s.take(number_len(s) as int))) == s.take(number_len(s) as int),
        s[0] != 48 ==> digits_value(s.take(number_len(s) as int)) >= 1,
{
    let k = number_len(s) as int;
    lemma_digit_run_digits(s);
    let t = s.take(k);
    if s[0] == 48 {
        assert(t.len() == 1);
    } else {
        assert forall|j: int| 0 <= j < t.len() implies is_digit(#[trigger] t[j]) by {
            assert(t[j] == s[j]);
        }
    }
    assert(t[0] == s[0]);
    lemma_digits_of_value(t);
}

/// What was read is written back as it stood: the bytes that a value was
/// decoded from are its encoding in held order.
pub proof fn lemma_serialize_parsed(s: Seq<u8>, depth: nat)
    requires
        parse_value(s, depth) is Ok,
    ensures
        serialize(parse_value(s, depth)->Ok_0.0) == s.take(parse_value(s, depth)->Ok_0.1),
    decreases s.len(), 0nat,
{
    lemma_parse_value_bounds(s, depth);
    let (v, n) = parse_value(s, depth)->Ok_0;
    if s[0] == 105 {
        let neg = s.len() > 1 && s[1] == 45;
        let start: int = if neg {
            2
        } else {
            1
        };
        let body = s.skip(start);
        let k = number_len(body) as int;
        lemma_number_spelling(body);
        let t = s.subrange(start, start + k);
        assert(t =~= body.take(k));
        assert(body[0] == s[start]);
        let m = digits_value(t);
        if neg {
            assert(m >= 1);
            assert(serialize(v) =~= seq![105u8] + (seq![45u8] + digits(m)) + seq![101u8]);
        } else {
            assert(serialize(v) =~= seq![105u8] + digits(m) + seq![101u8]);
        }
        assert(serialize(v) =~= s.take(n));
    } else if is_digit(s[0]) {
        lemma_serialize_parsed_bytes(s);
    } else if s[0] == 108 {
        let inner = (depth - 1) as nat;
        lemma_serialize_parsed_items(s.skip(1), inner);
        let (l, m) = parse_items(s.skip(1), inner)->Ok_0;
        lemma_parse_items_bounds(s.skip(1), inner);
        assert(v == Bencode::List(l) && n == m + 1);
        assert(s.skip(1).take(m) =~= s.subrange(1, 1 + m));
        assert(s.take(n) =~= seq![108u8] + s.subrange(1, 1 + m));
        assert(serialize(v) =~= seq![108u8] + (serialize_items(l) + seq![101u8]));
    } else {
        let inner = (depth - 1) as nat;
        lemma_serialize_parsed_entries(s.skip(1), inner);
        let (d, m) = parse_entries(s.skip(1), inner)->Ok_0;
        lemma_parse_entries_bounds(s.skip(1), inner);
        assert(v == Bencode::Dict(d) && n == m + 1);
        assert(s.skip(1).take(m) =~= s.subrange(1, 1 + m));
        assert(s.take(n) =~= seq![100u8] + s.subrange(1, 1 + m));
        assert(serialize(v) =~= seq![100u8] + (serialize_entries(d) + seq![101u8]));
    }
}

/// A byte string that was read is written back as it stood.
pub proof fn lemma_serialize_parsed_bytes(s: Seq<u8>)
    requires
        s.len() > 0,
        is_digit(s[0]),
        parse_bytes(s) is Ok,
    ensures
        serialize_bytes(parse_bytes(s)->Ok_0.0) == s.take(parse_bytes(s)->Ok_0.1),
{
    let k = number_len(s) as int;
    assert(k >= 1) by {
        if s[0] != 48 {
            assert(digit_run(s) == 1 + digit_run(s.drop_first()));
        }
    }
    lemma_number_spelling(s);
    let (b, n) = parse_bytes(s)->Ok_0;
    assert(serialize_bytes(b) =~= s.take(n));
}

/// The items of a list that were read are written back as they stood.
pub proof fn lemma_serialize_parsed_items(s: Seq<u8>, depth: nat)
    requires
        parse_items(s, depth) is Ok,
    ensures
        serialize_items(parse_items(s, depth)->Ok_0.0) + seq![101u8] == s.take(
            parse_items(s, depth)->Ok_0.1,
        ),
    decreases s.len(), 1nat,
{
    let (l, total) = parse_items(s, depth)->Ok_0;
    if s[0] == 101 {
        assert(serialize_items(l) + seq![101u8] =~= s.take(1));
    } else {
        let (v, n) = parse_value(s, depth)->Ok_0;
        lemma_parse_value_bounds(s, depth);
        lemma_serialize_parsed(s, depth);
        let (rest, m) = parse_items(s.skip(n), depth)->Ok_0;
        lemma_parse_items_bounds(s.skip(n), depth);
        lemma_serialize_parsed_items(s.skip(n), depth);
        assert(l[0] == v);
        assert(l.drop_first() =~= rest);
        assert(s.skip(n).take(m) =~= s.subrange(n, n + m));
        assert(serialize_items(l) + seq![101u8] =~= s.take(n) + s.subrange(n, n + m));
        assert(s.take(n) + s.subrange(n, n + m) =~= s.take(n + m));
    }
}

/// The entries of a dictionary that were read are written back as they
/// stood.
pub proof fn lemma_serialize_parsed_entries(s: Seq<u8>, depth: nat)
    requires
        parse_entries(s, depth) is Ok,
    ensures
        serialize_entries(parse_entries(s, depth)->Ok_0.0) + seq![101u8] == s.take(
            parse_entries(s, depth)->Ok_0.1,
        ),
    decreases s.len(), 1nat,
{
    let (d, total) = parse_entries(s, depth)->Ok_0;
    if s[0] == 101 {
        assert(serialize_entries(d) + seq![101u8] =~= s.take(1));
    } else {
        let (key, n) = parse_bytes(s)->Ok_0;
        lemma_serialize_parsed_bytes(s);
        let (v, m) = parse_value(s.skip(n), depth)->Ok_0;
        lemma_parse_value_bounds(s.skip(n), depth);
        lemma_serialize_parsed(s.skip(n), depth);
        let (rest, r) = parse_entries(s.skip(n + m), depth)->Ok_0;
        lemma_parse_entries_bounds(s.skip(n + m), depth);
        lemma_serialize_parsed_entries(s.skip(n + m), depth);
        assert(d[0] == (key, v));
        assert(d.drop_first() =~= rest);
        assert(s.skip(n).take(m) =~= s.subrange(n, n + m));
        assert(s.skip(n + m).take(r) =~= s.subrange(n + m, n + m + r));
        assert(serialize_entries(d) + seq![101u8] =~= s.take(n) + s.subrange(n, n + m)
            + s.subrange(n + m, n + m + r));
        assert(s.take(n) + s.subrange(n, n + m) + s.subrange(n + m, n + m + r) =~= s.take(
            n + m + r,
        ));
    }
}

/// Encoding in held order what was decoded gives the bytes back.
pub proof fn lemma_encode_decoded(s: Seq<u8>, depth: nat)
    requires
        parse(s, depth) is Ok,
    ensures
        serialize(parse(s, depth)->Ok_0) == s,
{
    lemma_serialize_parsed(s, depth);
    assert(s.take(s.len() as int) =~= s);
}

} // verus!
