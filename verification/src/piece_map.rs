//! Bitfields as they arrive on the wire: packed bits, the most significant
//! bit of the first byte standing for piece 0.

use vstd::prelude::*;
use crate::framing::ParseError;

verus! {

/// Whether bit `k` of `x` is set, counted from the most significant.
pub open spec fn byte_bit(x: u8, k: int) -> bool {
    (x >> ((7 - k) as u8)) & 1 == 1
}

/// Whether the payload has the bit for piece `i` set.
pub open spec fn wire_bit(payload: Seq<u8>, i: int) -> bool {
    byte_bit(payload[i / 8], i % 8)
}

/// A bitfield payload for `n` pieces has `ceil(n / 8)` bytes, and no bit set
/// behind the last piece.
pub open spec fn valid_bitfield(payload: Seq<u8>, n: int) -> bool {
    &&& payload.len() == (n + 7) / 8
    &&& forall|i: int| n <= i < 8 * payload.len() ==> !#[trigger] wire_bit(payload, i)
}

/// The pieces that a payload claims, one flag for each of `n` pieces.
pub open spec fn wire_bits(payload: Seq<u8>, n: int) -> Seq<bool> {
    Seq::new(n as nat, |i: int| wire_bit(payload, i))
}

/// Setting bit `k` of a byte, counted from the high end, sets that bit and
/// leaves the others.
pub proof fn lemma_byte_set_bit(x: u8, k: u8, j: u8)
    requires
        k < 8,
        j < 8,
    ensures
        byte_bit(x | (1u8 << (7 - k) as u8), j as int) == (j == k || byte_bit(x, j as int)),
{
    let a: u8 = (7 - k) as u8;
    let b: u8 = (7 - j) as u8;
    assert(((x | (1u8 << a)) >> b) & 1 == (if a == b {
        1u8
    } else {
        (x >> b) & 1
    })) by (bit_vector)
        requires
            a < 8,
            b < 8,
    ;
    assert((x >> b) & 1 == 0 || (x >> b) & 1 == 1) by (bit_vector);
}

/// No bit of zero is set.
pub proof fn lemma_byte_zero(j: u8)
    requires
        j < 8,
    ensures
        !byte_bit(0, j as int),
{
    let b: u8 = (7 - j) as u8;
    assert((0u8 >> b) & 1 == 0) by (bit_vector)
        requires
            b < 8,
    ;
}

/// Which pieces a peer has, one flag for each piece.
#[derive(Clone, Debug, PartialEq, Eq)]
pub struct BitField(pub Vec<bool>);

impl View for BitField {
    type V = Seq<bool>;

    open spec fn view(&self) -> Seq<bool> {
        self.0@
    }
}

impl BitField {
    /// The eight bits of a byte, most significant first.
    pub fn to_boolean(x: u8) -> (r: [bool; 8])
        ensures
            forall|k: int| 0 <= k < 8 ==> r@[k] == byte_bit(x, k),
    {
        let mut r: [bool; 8] = [false; 8];
        let mut k: usize = 0;
        while k < 8
            invariant
                k <= 8,
                forall|j: int| 0 <= j < k ==> r@[j] == byte_bit(x, j),
            decreases 8 - k,
        {
            let shift: u8 = (7 - k) as u8;
            r[k] = (x >> shift) & 1 == 1;
            k += 1;
        }
        r
    }

    /// Reads a bitfield payload for `real_len` pieces. A payload of another
    /// length than `ceil(real_len / 8)`, or with a bit set behind the last
    /// piece, is a violation of the protocol.
    pub fn new(v: &[u8], real_len: usize) -> (r: Result<BitField, ParseError>)
        ensures
            r is Ok <==> valid_bitfield(v@, real_len as int),
            r matches Ok(b) ==> b@ == wire_bits(v@, real_len as int),
            r matches Err(e) ==> e == (if v@.len() != (real_len + 7) / 8 {
                ParseError::BadLength
            } else {
                ParseError::SpareBits
            }),
    {
        let need: usize = real_len / 8 + if real_len % 8 == 0 {
            0
        } else {
            1
        };
        if v.len() != need {
            return Err(ParseError::BadLength);
        }
        let mut bits: Vec<bool> = Vec::new();
        let mut b: usize = 0;
        while b < need
            invariant
                b <= need,
                need == v@.len(),
                need == (real_len + 7) / 8,
                bits@.len() == if 8 * b < real_len {
                    8 * b
                } else {
                    real_len as int
                },
                forall|j: int| 0 <= j < bits@.len() ==> bits@[j] == wire_bit(v@, j),
                forall|j: int| real_len <= j < 8 * b ==> !#[trigger] wire_bit(v@, j),
            decreases need - b,
        {
            let byte: u8 = v[b];
            let base: usize = 8 * b;
            let mut k: usize = 0;
            while k < 8
                invariant
                    k <= 8,
                    b < need,
                    need == v@.len(),
                    need == (real_len + 7) / 8,
                    base == 8 * b,
                    base <= real_len,
                    byte == v@[b as int],
                    bits@.len() == if base + k < real_len {
                        base + k
                    } else {
                        real_len as int
                    },
                    forall|j: int| 0 <= j < bits@.len() ==> bits@[j] == wire_bit(v@, j),
                    forall|j: int| real_len <= j < base + k ==> !#[trigger] wire_bit(v@, j),
                decreases 8 - k,
            {
                let shift: u8 = (7 - k) as u8;
                let on: bool = (byte >> shift) & 1 == 1;
                proof {
                    assert((base + k) / 8 == b as int);
                    assert((base + k) % 8 == k as int);
                    assert(on == wire_bit(v@, base + k));
                }
                if k < real_len - base {
                    bits.push(on);
                } else if on {
                    return Err(ParseError::SpareBits);
                }
                k += 1;
            }
            b += 1;
        }
        proof {
            assert(bits@ =~= wire_bits(v@, real_len as int));
        }
        Ok(BitField(bits))
    }

    /// The payload that tells these pieces.
    pub fn to_payload(&self) -> (r: Vec<u8>)
        ensures
            valid_bitfield(r@, self@.len() as int),
            wire_bits(r@, self@.len() as int) == self@,
    {
        let n: usize = self.0.len();
        let need: usize = n / 8 + if n % 8 == 0 {
            0
        } else {
            1
        };
        let mut out: Vec<u8> = Vec::new();
        let mut b: usize = 0;
        while b < need
            invariant
                b <= need,
                n == self.0@.len(),
                need == (n + 7) / 8,
                out@.len() == b,
                forall|j: int| 0 <= j < 8 * b ==> #[trigger] wire_bit(out@, j) == (j < n
                    && self.0@[j]),
            decreases need - b,
        {
            let mut byte: u8 = 0;
            let mut k: usize = 0;
            let base: usize = 8 * b;
            proof {
                assert forall|j: int| 0 <= j < 8 implies !byte_bit(0u8, j) by {
                    lemma_byte_zero(j as u8);
                }
            }
            while k < 8
                invariant
                    k <= 8,
                    b < need,
                    need == (n + 7) / 8,
                    base == 8 * b,
                    base <= n,
                    n == self.0@.len(),
                    forall|j: int| 0 <= j < k ==> byte_bit(byte, j) == (8 * b + j < n && self.0@[8
                        * b + j]),
                    forall|j: int| k <= j < 8 ==> !byte_bit(byte, j),
                decreases 8 - k,
            {
                let ghost before = byte;
                if k < n - base && self.0[base + k] {
                    let shift: u8 = (7 - k) as u8;
                    byte = byte | (1u8 << shift);
                    proof {
                        assert forall|j: int| 0 <= j < 8 implies byte_bit(byte, j) == (j == k
                            || byte_bit(before, j)) by {
                            lemma_byte_set_bit(before, k as u8, j as u8);
                        }
                    }
                }
                k += 1;
            }
            proof {
                let ghost prev = out@;
                assert forall|j: int| 0 <= j < 8 * (b + 1) implies #[trigger] wire_bit(
                    prev.push(byte),
                    j,
                ) == (j < n && self.0@[j]) by {
                    if j < 8 * b {
                        assert(prev.push(byte)[j / 8] == prev[j / 8]);
                        assert(wire_bit(prev, j) == (j < n && self.0@[j]));
                    } else {
                        assert(prev.push(byte)[j / 8] == byte);
                    }
                }
            }
            out.push(byte);
            b += 1;
        }
        proof {
            assert(wire_bits(out@, n as int) =~= self@);
        }
        out
    }
}

} // verus!
