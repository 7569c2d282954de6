//! The executable encoder.

use vstd::prelude::*;
use crate::bencode::{Bencode, Value, canonical, digits, entries_view, insert_at, int_text, items_view, keys_of, lex_le, serialize, serialize_bytes, serialize_entries, serialize_items, sorted_order};
use crate::wire::push_bytes;

verus! {

/// Writing one more item behind a list writes its encoding behind theirs.
pub proof fn lemma_serialize_items_push(l: Seq<Bencode>, v: Bencode)
    ensures
        serialize_items(l.push(v)) == serialize_items(l) + serialize(v),
    decreases l.len(),
{
    if l.len() == 0 {
        assert(l.push(v).drop_first() =~= Seq::<Bencode>::empty());
        assert(serialize_items(l.push(v).drop_first()) =~= Seq::<u8>::empty());
        assert(serialize_items(l) =~= Seq::<u8>::empty());
        assert(l.push(v)[0] == v);
        assert(serialize_items(l.push(v)) =~= serialize_items(l) + serialize(v));
    } else {
        assert(l.push(v).drop_first() =~= l.drop_first().push(v));
        lemma_serialize_items_push(l.drop_first(), v);
        assert(serialize_items(l.push(v)) =~= serialize_items(l) + serialize(v));
    }
}

/// Writing one more entry behind a dictionary writes its key and value
/// behind theirs.
pub proof fn lemma_serialize_entries_push(d: Seq<(Seq<u8>, Bencode)>, e: (Seq<u8>, Bencode))
    ensures
        serialize_entries(d.push(e)) == serialize_entries(d) + serialize_bytes(e.0) + serialize(
            e.1,
        ),
    decreases d.len(),
{
    if d.len() == 0 {
        assert(d.push(e).drop_first() =~= Seq::<(Seq<u8>, Bencode)>::empty());
        assert(serialize_entries(d.push(e).drop_first()) =~= Seq::<u8>::empty());
        assert(serialize_entries(d) =~= Seq::<u8>::empty());
        assert(d.push(e)[0] == e);
        assert(serialize_entries(d.push(e)) =~= serialize_entries(d) + serialize_bytes(e.0)
            + serialize(e.1));
    } else {
        assert(d.push(e).drop_first() =~= d.drop_first().push(e));
        lemma_serialize_entries_push(d.drop_first(), e);
        assert(serialize_entries(d.push(e)) =~= serialize_entries(d) + serialize_bytes(e.0)
            + serialize(e.1));
    }
}

/// Appends the decimal spelling of `n`.
pub fn push_number(out: &mut Vec<u8>, n: u64)
    ensures
        final(out)@ == old(out)@ + digits(n as nat),
    decreases n,
{
    if n < 10 {
        out.push(48 + n as u8);
        proof {
            assert(out@ =~= old(out)@ + digits(n as nat));
        }
    } else {
        push_number(out, n / 10);
        out.push(48 + (n % 10) as u8);
        proof {
            assert(out@ =~= old(out)@ + digits(n as nat));
        }
    }
}

/// Appends the decimal spelling of a signed number.
pub fn push_int(out: &mut Vec<u8>, i: i64)
    ensures
        final(out)@ == old(out)@ + int_text(i as int),
{
    if i < 0 {
        out.push(45);
        let magnitude: u64 = if i == i64::MIN {
            0x8000_0000_0000_0000
        } else {
            (-i) as u64
        };
        push_number(out, magnitude);
        proof {
            assert(out@ =~= old(out)@ + int_text(i as int));
        }
    } else {
        push_number(out, i as u64);
    }
}

/// Whether `a` comes no later than `b` in lexicographic order.
pub fn bytes_le(a: &[u8], b: &[u8]) -> (r: bool)
    ensures
        r == lex_le(a@, b@),
{
    let mut i: usize = 0;
    assert(a@.skip(0) =~= a@ && b@.skip(0) =~= b@);
    loop
        invariant
            i <= a@.len(),
            i <= b@.len(),
            lex_le(a@, b@) == lex_le(a@.skip(i as int), b@.skip(i as int)),
        decreases a@.len() - i,
    {
        if i >= a.len() {
            return true;
        }
        if i >= b.len() {
            return false;
        }
        proof {
            assert(a@.skip(i as int)[0] == a@[i as int]);
            assert(b@.skip(i as int)[0] == b@[i as int]);
            assert(a@.skip(i as int).drop_first() =~= a@.skip(i + 1));
            assert(b@.skip(i as int).drop_first() =~= b@.skip(i + 1));
        }
        if a[i] != b[i] {
            return a[i] < b[i];
        }
        i += 1;
    }
}

/// An order of indices as mathematical integers.
pub open spec fn order_view(order: Seq<usize>) -> Seq<int> {
    Seq::new(order.len(), |i: int| order[i] as int)
}

/// The indices of `entries` in ascending order of their keys.
fn key_order(entries: &Vec<(Vec<u8>, Value)>) -> (order: Vec<usize>)
    ensures
        order_view(order@) == sorted_order(keys_of(entries_view(entries@)), entries@.len()),
        order@.len() == entries@.len(),
        forall|j: int| 0 <= j < order@.len() ==> #[trigger] order@[j] < entries@.len(),
{
    let n: usize = entries.len();
    let ghost keys = keys_of(entries_view(entries@));
    let mut order: Vec<usize> = Vec::new();
    let mut k: usize = 0;
    assert(order_view(order@) =~= sorted_order(keys, 0));
    while k < n
        invariant
            k <= n,
            n == entries@.len(),
            keys == keys_of(entries_view(entries@)),
            order@.len() == k,
            order_view(order@) == sorted_order(keys, k as nat),
            forall|j: int| 0 <= j < order@.len() ==> #[trigger] order@[j] < k,
        decreases n - k,
    {
        let mut p: usize = order.len();
        let ghost ov = order_view(order@);
        assert(ov.take(p as int) =~= ov);
        while p > 0 && !bytes_le(entries[order[p - 1]].0.as_slice(), entries[k].0.as_slice())
            invariant
                p <= order@.len(),
                k < n,
                n == entries@.len(),
                keys == keys_of(entries_view(entries@)),
                ov == order_view(order@),
                forall|j: int| 0 <= j < order@.len() ==> #[trigger] order@[j] < k,
                insert_at(ov, keys, k as int) == insert_at(ov.take(p as int), keys, k as int),
            decreases p,
        {
            proof {
                let t = ov.take(p as int);
                assert(t.last() == order@[p - 1] as int);
                assert(keys[t.last()] == entries@[order@[p - 1] as int].0@);
                assert(keys[k as int] == entries@[k as int].0@);
                assert(t.drop_last() =~= ov.take(p - 1));
            }
            p -= 1;
        }
        proof {
            let t = ov.take(p as int);
            if p > 0 {
                assert(t.last() == order@[p - 1] as int);
                assert(keys[t.last()] == entries@[order@[p - 1] as int].0@);
                assert(keys[k as int] == entries@[k as int].0@);
            }
            assert(insert_at(ov, keys, k as int) == p);
        }
        order.insert(p, k);
        proof {
            assert(order_view(order@) =~= ov.insert(p as int, k as int));
        }
        k += 1;
    }
    order
}

/// Appends the encoding of `v`, dictionaries sorted by key.
#[verifier::loop_isolation(false)]
pub fn encode_into(v: &Value, out: &mut Vec<u8>)
    ensures
        final(out)@ == old(out)@ + serialize(canonical(v@)),
    decreases v,
{
    match v {
        Value::Int(i) => {
            out.push(105);
            push_int(out, *i);
            out.push(101);
            proof {
                assert(out@ =~= old(out)@ + serialize(canonical(v@)));
            }
        },
        Value::Bytes(b) => {
            push_number(out, b.len() as u64);
            out.push(58);
            push_bytes(out, b.as_slice());
            proof {
                assert(out@ =~= old(out)@ + serialize(canonical(v@)));
            }
        },
        Value::List(l) => {
            let ghost target = canonical(v@)->List_0;
            out.push(108);
            let mut i: usize = 0;
            assert(serialize_items(target.take(0)) =~= Seq::<u8>::empty());
            while i < l.len()
                invariant
                    i <= l@.len(),
                    target.len() == l@.len(),
                    out@ == old(out)@ + seq![108u8] + serialize_items(target.take(i as int)),
                decreases l@.len() - i,
            {
                let ghost before = out@;
                encode_into(&l[i], out);
                proof {
                    assert(target[i as int] == canonical(l@[i as int]@));
                    assert(target.take(i + 1) =~= target.take(i as int).push(target[i as int]));
                    lemma_serialize_items_push(target.take(i as int), target[i as int]);
                    assert(out@ =~= old(out)@ + seq![108u8] + serialize_items(
                        target.take(i + 1),
                    ));
                }
                i += 1;
            }
            out.push(101);
            proof {
                assert(target.take(l@.len() as int) =~= target);
                assert(out@ =~= old(out)@ + serialize(canonical(v@)));
            }
        },
        Value::Dict(d) => {
            let ghost target = canonical(v@)->Dict_0;
            let ghost model = entries_view(d@);
            let ghost sorted = sorted_order(keys_of(model), model.len());
            out.push(100);
            let order = key_order(d);
            let mut j: usize = 0;
            assert(serialize_entries(target.take(0)) =~= Seq::<u8>::empty());
            while j < order.len()
                invariant
                    j <= order@.len(),
                    order@.len() == d@.len(),
                    target.len() == d@.len(),
                    order_view(order@) == sorted,
                    forall|t: int| 0 <= t < order@.len() ==> #[trigger] order@[t] < d@.len(),
                    out@ == old(out)@ + seq![100u8] + serialize_entries(target.take(j as int)),
                decreases order@.len() - j,
            {
                let idx: usize = order[j];
                let entry = &d[idx];
                push_number(out, entry.0.len() as u64);
                out.push(58);
                push_bytes(out, entry.0.as_slice());
                let ghost mid = out@;
                encode_into(&entry.1, out);
                proof {
                    assert(sorted[j as int] == idx as int);
                    assert(target[j as int] == (model[idx as int].0, canonical(model[idx as int].1)));
                    assert(model[idx as int].0 == entry.0@);
                    assert(model[idx as int].1 == entry.1@);
                    assert(target.take(j + 1) =~= target.take(j as int).push(target[j as int]));
                    lemma_serialize_entries_push(target.take(j as int), target[j as int]);
                    assert(mid =~= old(out)@ + seq![100u8] + serialize_entries(
                        target.take(j as int),
                    ) + serialize_bytes(entry.0@));
                    assert(out@ =~= old(out)@ + seq![100u8] + serialize_entries(
                        target.take(j + 1),
                    ));
                }
                j += 1;
            }
            out.push(101);
            proof {
                assert(target.take(d@.len() as int) =~= target);
                assert(out@ =~= old(out)@ + serialize(canonical(v@)));
            }
        },
    }
}

/// The encoding of `v`, dictionaries sorted by key.
pub fn encode(v: &Value) -> (r: Vec<u8>)
    ensures
        r@ == serialize(canonical(v@)),
{
    let mut out: Vec<u8> = Vec::new();
    encode_into(v, &mut out);
    proof {
        assert(Seq::<u8>::empty() + serialize(canonical(v@)) =~= serialize(canonical(v@)));
    }
    out
}

/// Appends the encoding of `v` with the entries of every dictionary in the
/// order they are held.
#[verifier::loop_isolation(false)]
pub fn write_into(v: &Value, out: &mut Vec<u8>)
    ensures
        final(out)@ == old(out)@ + serialize(v@),
    decreases v,
{
    match v {
        Value::Int(i) => {
            out.push(105);
            push_int(out, *i);
            out.push(101);
            proof {
                assert(out@ =~= old(out)@ + serialize(v@));
            }
        },
        Value::Bytes(b) => {
            push_number(out, b.len() as u64);
            out.push(58);
            push_bytes(out, b.as_slice());
            proof {
                assert(out@ =~= old(out)@ + serialize(v@));
            }
        },
        Value::List(l) => {
            let ghost target = items_view(l@);
            out.push(108);
            let mut i: usize = 0;
            assert(serialize_items(target.take(0)) =~= Seq::<u8>::empty());
            while i < l.len()
                invariant
                    i <= l@.len(),
                    target == items_view(l@),
                    out@ == old(out)@ + seq![108u8] + serialize_items(target.take(i as int)),
                decreases l@.len() - i,
            {
                write_into(&l[i], out);
                proof {
                    assert(target.take(i + 1) =~= target.take(i as int).push(target[i as int]));
                    lemma_serialize_items_push(target.take(i as int), target[i as int]);
                    assert(out@ =~= old(out)@ + seq![108u8] + serialize_items(
                        target.take(i + 1),
                    ));
                }
                i += 1;
            }
            out.push(101);
            proof {
                assert(target.take(l@.len() as int) =~= target);
                assert(out@ =~= old(out)@ + serialize(v@));
            }
        },
        Value::Dict(d) => {
            let ghost target = entries_view(d@);
            out.push(100);
            let mut j: usize = 0;
            assert(serialize_entries(target.take(0)) =~= Seq::<u8>::empty());
            while j < d.len()
                invariant
                    j <= d@.len(),
                    target == entries_view(d@),
                    out@ == old(out)@ + seq![100u8] + serialize_entries(target.take(j as int)),
                decreases d@.len() - j,
            {
                let entry = &d[j];
                push_number(out, entry.0.len() as u64);
                out.push(58);
                push_bytes(out, entry.0.as_slice());
                let ghost mid = out@;
                write_into(&entry.1, out);
                proof {
                    assert(target.take(j + 1) =~= target.take(j as int).push(target[j as int]));
                    lemma_serialize_entries_push(target.take(j as int), target[j as int]);
                    assert(mid =~= old(out)@ + seq![100u8] + serialize_entries(
                        target.take(j as int),
                    ) + serialize_bytes(entry.0@));
                    assert(out@ =~= old(out)@ + seq![100u8] + serialize_entries(
                        target.take(j + 1),
                    ));
                }
                j += 1;
            }
            out.push(101);
            proof {
                assert(target.take(d@.len() as int) =~= target);
                assert(out@ =~= old(out)@ + serialize(v@));
            }
        },
    }
}

/// The encoding of `v` with the entries of every dictionary in the order
/// they are held: for a value that was decoded, the bytes it was decoded
/// from.
pub fn encode_in_order(v: &Value) -> (r: Vec<u8>)
    ensures
        r@ == serialize(v@),
{
    let mut out: Vec<u8> = Vec::new();
    write_into(v, &mut out);
    proof {
        assert(Seq::<u8>::empty() + serialize(v@) =~= serialize(v@));
    }
    out
}

} // verus!
