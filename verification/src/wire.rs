//! Big-endian integers as they travel in tracker packets and peer frames.

use vstd::prelude::*;

verus! {

/// Byte `k` of `x`, counted from the least significant.
pub closed spec fn byte_of(x: u64, k: nat) -> u8 {
    if k == 0 {
        (x % 0x100) as u8
    } else if k == 1 {
        (x / 0x100 % 0x100) as u8
    } else if k == 2 {
        (x / 0x1_0000 % 0x100) as u8
    } else {
        (x / 0x100_0000 % 0x100) as u8
    }
}

/// The upper 32 bits of `x`.
pub closed spec fn upper32(x: u64) -> u32 {
    (x / 0x1_0000_0000) as u32
}

/// The lower 32 bits of `x`.
pub closed spec fn lower32(x: u64) -> u32 {
    (x % 0x1_0000_0000) as u32
}

/// The two bytes of `x`, most significant first.
pub open spec fn be16(x: u16) -> Seq<u8> {
    seq![byte_of(x as u64, 1), byte_of(x as u64, 0)]
}

/// The four bytes of `x`, most significant first.
pub open spec fn be32(x: u32) -> Seq<u8> {
    seq![byte_of(x as u64, 3), byte_of(x as u64, 2), byte_of(x as u64, 1), byte_of(x as u64, 0)]
}

/// The eight bytes of `x`, most significant first.
pub open spec fn be64(x: u64) -> Seq<u8> {
    be32(upper32(x)) + be32(lower32(x))
}

/// The unsigned number that the first two bytes of `s` spell.
pub closed spec fn from_be16(s: Seq<u8>) -> u16 {
    (s[0] * 0x100 + s[1]) as u16
}

/// The unsigned number that the first four bytes of `s` spell.
pub closed spec fn from_be32(s: Seq<u8>) -> u32 {
    (s[0] * 0x100_0000 + s[1] * 0x1_0000 + s[2] * 0x100 + s[3]) as u32
}

/// The unsigned number that the first eight bytes of `s` spell.
pub closed spec fn from_be64(s: Seq<u8>) -> u64 {
    (from_be32(s) * 0x1_0000_0000 + from_be32(s.skip(4))) as u64
}

/// Two's complement of a 32-bit signed number.
pub closed spec fn twos32(x: i32) -> u32 {
    if x < 0 {
        (x + 0x1_0000_0000) as u32
    } else {
        x as u32
    }
}

/// The signed number whose two's complement is `u`.
pub closed spec fn signed32(u: u32) -> i32 {
    if u >= 0x8000_0000 {
        (u - 0x1_0000_0000) as i32
    } else {
        u as i32
    }
}

/// Two's complement of a 64-bit signed number.
pub closed spec fn twos64(x: i64) -> u64 {
    if x < 0 {
        (x + 0x1_0000_0000_0000_0000) as u64
    } else {
        x as u64
    }
}

/// The signed number whose two's complement is `u`.
pub closed spec fn signed64(u: u64) -> i64 {
    if u >= 0x8000_0000_0000_0000 {
        (u - 0x1_0000_0000_0000_0000) as i64
    } else {
        u as i64
    }
}

/// The four bytes of a signed number in two's complement.
pub open spec fn be_i32(x: i32) -> Seq<u8> {
    be32(twos32(x))
}

/// The eight bytes of a signed number in two's complement.
pub open spec fn be_i64(x: i64) -> Seq<u8> {
    be64(twos64(x))
}

/// The signed number that the first four bytes of `s` spell.
pub open spec fn from_be_i32(s: Seq<u8>) -> i32 {
    signed32(from_be32(s))
}

/// The signed number that the first eight bytes of `s` spell.
pub open spec fn from_be_i64(s: Seq<u8>) -> i64 {
    signed64(from_be64(s))
}

/// The bytes of a number are its digits to the base 256.
pub proof fn lemma_byte_of(x: u64, k: nat)
    ensures
        byte_of(x, k) == (if k == 0 {
            x % 0x100
        } else if k == 1 {
            x / 0x100 % 0x100
        } else if k == 2 {
            x / 0x1_0000 % 0x100
        } else {
            x / 0x100_0000 % 0x100
        }),
{
}

/// A number of 64 bits is written as its upper half and then its lower
/// half.
pub proof fn lemma_halves(x: u64)
    ensures
        upper32(x) == x / 0x1_0000_0000,
        lower32(x) == x % 0x1_0000_0000,
{
}

/// The two bytes of a number, most significant first.
pub proof fn lemma_be16_bytes(x: u16)
    ensures
        be16(x) =~= seq![(x / 0x100) as u8, (x % 0x100) as u8],
{
}

/// The four bytes of a number, most significant first.
pub proof fn lemma_be32_bytes(x: u32)
    ensures
        be32(x) =~= seq![
            (x / 0x100_0000) as u8,
            (x / 0x1_0000 % 0x100) as u8,
            (x / 0x100 % 0x100) as u8,
            (x % 0x100) as u8,
        ],
{
}

/// The eight bytes of a number: the four of its upper half, then the four
/// of its lower half.
pub proof fn lemma_be64_bytes(x: u64)
    ensures
        be64(x) == be32((x / 0x1_0000_0000) as u32) + be32((x % 0x1_0000_0000) as u32),
{
}

/// The number that two bytes spell, most significant first.
pub proof fn lemma_from_be16_value(s: Seq<u8>)
    ensures
        from_be16(s) == s[0] * 0x100 + s[1],
{
}

/// The number that four bytes spell, most significant first.
pub proof fn lemma_from_be32_value(s: Seq<u8>)
    ensures
        from_be32(s) == s[0] * 0x100_0000 + s[1] * 0x1_0000 + s[2] * 0x100 + s[3],
{
}

/// The number that eight bytes spell: the first four are its upper half,
/// the last four its lower half.
pub proof fn lemma_from_be64_value(s: Seq<u8>)
    ensures
        from_be64(s) == from_be32(s) * 0x1_0000_0000 + from_be32(s.skip(4)),
{
}

/// Signed numbers travel in two's complement.
pub proof fn lemma_twos_complement(x: i32, y: i64, u: u32, v: u64)
    ensures
        twos32(x) == (if x < 0 {
            x + 0x1_0000_0000
        } else {
            x as int
        }),
        twos64(y) == (if y < 0 {
            y + 0x1_0000_0000_0000_0000
        } else {
            y as int
        }),
        signed32(u) == (if u >= 0x8000_0000 {
            u - 0x1_0000_0000
        } else {
            u as int
        }),
        signed64(v) == (if v >= 0x8000_0000_0000_0000 {
            v - 0x1_0000_0000_0000_0000
        } else {
            v as int
        }),
{
}

/// A number read at the start of a sequence depends on its first bytes only.
pub proof fn lemma_from_be16_prefix(a: Seq<u8>, b: Seq<u8>)
    requires
        a.len() >= 2,
        b.len() >= 2,
        a.take(2) == b.take(2),
    ensures
        from_be16(a) == from_be16(b),
{
    assert(a[0] == a.take(2)[0] && a[1] == a.take(2)[1]);
    assert(b[0] == b.take(2)[0] && b[1] == b.take(2)[1]);
}

/// A number read at the start of a sequence depends on its first bytes only.
pub proof fn lemma_from_be32_prefix(a: Seq<u8>, b: Seq<u8>)
    requires
        a.len() >= 4,
        b.len() >= 4,
        a.take(4) == b.take(4),
    ensures
        from_be32(a) == from_be32(b),
{
    assert(a[0] == a.take(4)[0] && a[1] == a.take(4)[1] && a[2] == a.take(4)[2] && a[3]
        == a.take(4)[3]);
    assert(b[0] == b.take(4)[0] && b[1] == b.take(4)[1] && b[2] == b.take(4)[2] && b[3]
        == b.take(4)[3]);
}

/// Reading back what was written gives the number again, whatever follows.
pub proof fn lemma_be16_round_trip(x: u16, rest: Seq<u8>)
    ensures
        be16(x).len() == 2,
        from_be16(be16(x) + rest) == x,
{
    let s = be16(x) + rest;
    assert(s[0] == be16(x)[0]);
    assert(s[1] == be16(x)[1]);
}

/// Reading back what was written gives the number again, whatever follows.
pub proof fn lemma_be32_round_trip(x: u32, rest: Seq<u8>)
    ensures
        be32(x).len() == 4,
        from_be32(be32(x) + rest) == x,
{
    let s = be32(x) + rest;
    assert(s[0] == be32(x)[0]);
    assert(s[1] == be32(x)[1]);
    assert(s[2] == be32(x)[2]);
    assert(s[3] == be32(x)[3]);
}

/// Reading back what was written gives the number again, whatever follows.
pub proof fn lemma_be64_round_trip(x: u64, rest: Seq<u8>)
    ensures
        be64(x).len() == 8,
        from_be64(be64(x) + rest) == x,
{
    let hi = upper32(x);
    let lo = lower32(x);
    let s = be64(x) + rest;
    assert(s =~= be32(hi) + (be32(lo) + rest));
    assert(s.skip(4) =~= be32(lo) + rest);
    lemma_be32_round_trip(hi, be32(lo) + rest);
    lemma_be32_round_trip(lo, rest);
}

/// Reading back what was written gives the number again, whatever follows.
pub proof fn lemma_be_i32_round_trip(x: i32, rest: Seq<u8>)
    ensures
        be_i32(x).len() == 4,
        from_be_i32(be_i32(x) + rest) == x,
{
    lemma_be32_round_trip(twos32(x), rest);
}

/// Reading back what was written gives the number again, whatever follows.
pub proof fn lemma_be_i64_round_trip(x: i64, rest: Seq<u8>)
    ensures
        be_i64(x).len() == 8,
        from_be_i64(be_i64(x) + rest) == x,
{
    lemma_be64_round_trip(twos64(x), rest);
}

/// Appends the two bytes of `x`.
pub fn push_u16(out: &mut Vec<u8>, x: u16)
    ensures
        final(out)@ == old(out)@ + be16(x),
{
    out.push((x / 0x100) as u8);
    out.push((x % 0x100) as u8);
    assert((x as u64) / 0x100 % 0x100 == x / 0x100);
    proof {
        assert(out@ =~= old(out)@ + be16(x));
    }
}

/// Appends the four bytes of `x`.
pub fn push_u32(out: &mut Vec<u8>, x: u32)
    ensures
        final(out)@ == old(out)@ + be32(x),
{
    assert((x as u64) / 0x100_0000 % 0x100 == x / 0x100_0000);
    out.push((x / 0x100_0000) as u8);
    out.push((x / 0x1_0000 % 0x100) as u8);
    out.push((x / 0x100 % 0x100) as u8);
    out.push((x % 0x100) as u8);
    proof {
        assert(out@ =~= old(out)@ + be32(x));
    }
}

/// Appends the eight bytes of `x`.
pub fn push_u64(out: &mut Vec<u8>, x: u64)
    ensures
        final(out)@ == old(out)@ + be64(x),
{
    push_u32(out, (x / 0x1_0000_0000) as u32);
    push_u32(out, (x % 0x1_0000_0000) as u32);
    proof {
        assert(out@ =~= old(out)@ + be64(x));
    }
}

/// Appends the four bytes of `x` in two's complement.
pub fn push_i32(out: &mut Vec<u8>, x: i32)
    ensures
        final(out)@ == old(out)@ + be_i32(x),
{
    let u: u32 = if x < 0 {
        (x as i64 + 0x1_0000_0000) as u32
    } else {
        x as u32
    };
    push_u32(out, u);
}

/// Appends the eight bytes of `x` in two's complement.
pub fn push_i64(out: &mut Vec<u8>, x: i64)
    ensures
        final(out)@ == old(out)@ + be_i64(x),
{
    let u: u64 = if x < 0 {
        (x as i128 + 0x1_0000_0000_0000_0000) as u64
    } else {
        x as u64
    };
    push_u64(out, u);
}

/// Appends `data`.
pub fn push_bytes(out: &mut Vec<u8>, data: &[u8])
    ensures
        final(out)@ == old(out)@ + data@,
{
    let mut i: usize = 0;
    while i < data.len()
        invariant
            i <= data@.len(),
            out@ == old(out)@ + data@.take(i as int),
        decreases data@.len() - i,
    {
        out.push(data[i]);
        proof {
            assert(data@.take(i + 1) =~= data@.take(i as int).push(data@[i as int]));
            assert(out@ =~= old(out)@ + data@.take(i + 1));
        }
        i += 1;
    }
    proof {
        assert(data@.take(data@.len() as int) == data@);
    }
}

/// The number that the two bytes from `b[pos]` on spell.
pub fn read_u16(b: &[u8], pos: usize) -> (r: u16)
    requires
        pos + 2 <= b@.len(),
    ensures
        r == from_be16(b@.skip(pos as int)),
{
    (b[pos] as u16) * 0x100 + (b[pos + 1] as u16)
}

/// The number that the four bytes from `b[pos]` on spell.
pub fn read_u32(b: &[u8], pos: usize) -> (r: u32)
    requires
        pos + 4 <= b@.len(),
    ensures
        r == from_be32(b@.skip(pos as int)),
{
    (b[pos] as u32) * 0x100_0000 + (b[pos + 1] as u32) * 0x1_0000 + (b[pos + 2] as u32) * 0x100 + (
    b[pos + 3] as u32)
}

/// The number that the eight bytes from `b[pos]` on spell.
pub fn read_u64(b: &[u8], pos: usize) -> (r: u64)
    requires
        pos + 8 <= b@.len(),
    ensures
        r == from_be64(b@.skip(pos as int)),
{
    let n: usize = b.len();
    let hi: u32 = read_u32(b, pos);
    let lo: u32 = read_u32(b, pos + 4);
    proof {
        assert(b@.skip(pos as int).skip(4) =~= b@.skip(pos + 4));
    }
    (hi as u64) * 0x1_0000_0000 + (lo as u64)
}

/// The signed number that the four bytes from `b[pos]` on spell.
pub fn read_i32(b: &[u8], pos: usize) -> (r: i32)
    requires
        pos + 4 <= b@.len(),
    ensures
        r == from_be_i32(b@.skip(pos as int)),
{
    let u: u32 = read_u32(b, pos);
    if u >= 0x8000_0000 {
        (u as i64 - 0x1_0000_0000) as i32
    } else {
        u as i32
    }
}

/// The signed number that the eight bytes from `b[pos]` on spell.
pub fn read_i64(b: &[u8], pos: usize) -> (r: i64)
    requires
        pos + 8 <= b@.len(),
    ensures
        r == from_be_i64(b@.skip(pos as int)),
{
    let u: u64 = read_u64(b, pos);
    if u >= 0x8000_0000_0000_0000 {
        (u as i128 - 0x1_0000_0000_0000_0000) as i64
    } else {
        u as i64
    }
}

/// A copy of `b[from..to]`.
pub fn copy_range(b: &[u8], from: usize, to: usize) -> (r: Vec<u8>)
    requires
        from <= to <= b@.len(),
    ensures
        r@ == b@.subrange(from as int, to as int),
{
    let mut out: Vec<u8> = Vec::new();
    let mut i: usize = from;
    while i < to
        invariant
            from <= i <= to <= b@.len(),
            out@ == b@.subrange(from as int, i as int),
        decreases to - i,
    {
        out.push(b[i]);
        proof {
            assert(out@ =~= b@.subrange(from as int, i + 1));
        }
        i += 1;
    }
    out
}

} // verus!
