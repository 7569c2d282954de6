//! Pieces and their blocks: which blocks are here, whether a piece is whole,
//! whether its hash is right, and where it goes on disk.

pub mod manager;

use vstd::prelude::*;
use crate::bitmap::ByteWrapper;
use crate::data::{Endpoint, GeneralError, Info, Mode};
use crate::framing::ParseError;
use crate::fs::{Layout, Span};
use crate::hash::{same_hash, sha1, sha1_digest};
use crate::metainfo::{MIN_PIECE_LENGTH, pieces_needed};
use crate::piece_map::wire_bits;
use crate::pwp::Message;

verus! {

/// How many blocks a piece of `size` bytes has.
pub open spec fn blocks_in(size: int) -> int {
    (size + 16383) / 16384
}

/// The length of block `block` of a piece of `size` bytes: 16 KiB, but for
/// the last block, which takes what is left.
pub open spec fn block_len(size: int, block: int) -> int {
    if block == blocks_in(size) - 1 {
        size - 16384 * (blocks_in(size) - 1)
    } else {
        16384
    }
}

/// The length of piece `index` of `total` bytes of content cut into pieces of
/// `piece_len`: `piece_len`, but for the last piece, which takes what is
/// left.
pub open spec fn piece_size(total: int, piece_len: int, index: int) -> int {
    if index == pieces_needed(total, piece_len) - 1 {
        total - piece_len * (pieces_needed(total, piece_len) - 1)
    } else {
        piece_len
    }
}

/// The last piece is not empty and no longer than the others, and the
/// pieces before it and the last one make up the content.
pub proof fn lemma_last_piece(total: int, piece_len: int)
    requires
        total > 0,
        piece_len > 0,
    ensures
        pieces_needed(total, piece_len) >= 1,
        0 < piece_size(total, piece_len, pieces_needed(total, piece_len) - 1) <= piece_len,
        total == piece_len * (pieces_needed(total, piece_len) - 1) + piece_size(
            total,
            piece_len,
            pieces_needed(total, piece_len) - 1,
        ),
{
    let c = pieces_needed(total, piece_len);
    crate::metainfo::lemma_pieces_needed(total, piece_len);
    let q = total / piece_len;
    let r = total % piece_len;
    assert(total == q * piece_len + r && 0 <= r < piece_len) by (nonlinear_arith)
        requires
            q == total / piece_len,
            r == total % piece_len,
            piece_len > 0,
    ;
    if r == 0 {
        assert(c == q);
        assert(q >= 1) by (nonlinear_arith)
            requires
                total == q * piece_len,
                total > 0,
                piece_len > 0,
        ;
        assert(piece_len * (c - 1) == total - piece_len) by (nonlinear_arith)
            requires
                total == q * piece_len,
                c == q,
        ;
    } else {
        assert(c == q + 1);
        assert(q >= 0) by (nonlinear_arith)
            requires
                total == q * piece_len + r,
                total > 0,
                0 <= r < piece_len,
        ;
        assert(piece_len * (c - 1) == total - r) by (nonlinear_arith)
            requires
                total == q * piece_len + r,
                c == q + 1,
        ;
    }
}

/// Every piece has at least one byte and no more than the piece length.
pub proof fn lemma_piece_size(total: int, piece_len: int, index: int)
    requires
        piece_len > 0,
        total >= 0,
        0 <= index < pieces_needed(total, piece_len),
    ensures
        0 < piece_size(total, piece_len, index) <= piece_len,
{
    if total == 0 {
        assert((piece_len - 1) / piece_len == 0) by (nonlinear_arith)
            requires
                piece_len > 0,
        ;
    }
    lemma_last_piece(total, piece_len);
}

/// The last block of a piece is not empty and no longer than 16 KiB, and the
/// blocks before it and the last one make up the piece.
pub proof fn lemma_last_block(size: int)
    requires
        size > 0,
    ensures
        blocks_in(size) >= 1,
        0 < block_len(size, blocks_in(size) - 1) <= 16384,
        size == 16384 * (blocks_in(size) - 1) + block_len(size, blocks_in(size) - 1),
{
}

/// The last block of the last piece has what the content leaves behind the
/// pieces and the blocks before it.
pub proof fn lemma_last_block_of_last_piece(total: int, piece_len: int)
    requires
        total > 0,
        piece_len > 0,
    ensures
        ({
            let pieces = pieces_needed(total, piece_len);
            let last = piece_size(total, piece_len, pieces - 1);
            block_len(last, blocks_in(last) - 1) == total - (pieces - 1) * piece_len - (blocks_in(
                last,
            ) - 1) * 16384
        }),
{
    lemma_last_piece(total, piece_len);
    let pieces = pieces_needed(total, piece_len);
    assert(piece_len * (pieces - 1) == (pieces - 1) * piece_len) by (nonlinear_arith);
}

/// What is known of one block of a piece.
#[derive(Clone, Copy, Debug, PartialEq, Eq, Structural)]
pub enum Block {
    /// Not here and not asked for.
    Empty,
    /// Asked of `peer` at time `since`.
    Requested { peer: Endpoint, since: u64 },
    /// Here; `peer` sent it.
    Received { peer: Endpoint },
}

/// How far a piece has come.
#[derive(Clone, Copy, Debug, PartialEq, Eq, Structural)]
pub enum PieceState {
    Missing,
    Partial,
    Complete,
    Verified,
    Flushed,
}

/// One piece: its bytes once the first block has arrived, and the state of
/// each of its blocks.
#[derive(Clone, Debug, PartialEq, Eq)]
pub struct Piece {
    pub inner: Option<Vec<u8>>,
    pub written: Vec<Block>,
    pub verified: bool,
    pub flushed: bool,
}

/// A piece, as plain values.
pub struct PieceModel {
    pub bytes: Option<Seq<u8>>,
    pub blocks: Seq<Block>,
    pub verified: bool,
    pub flushed: bool,
}

impl View for Piece {
    type V = PieceModel;

    open spec fn view(&self) -> PieceModel {
        PieceModel {
            bytes: match self.inner {
                Some(v) => Some(v@),
                None => None,
            },
            blocks: self.written@,
            verified: self.verified,
            flushed: self.flushed,
        }
    }
}

impl PieceModel {
    /// Every block is here.
    pub open spec fn complete(self) -> bool {
        forall|b: int| 0 <= b < self.blocks.len() ==> #[trigger] self.blocks[b] is Received
    }

    /// No block is here or asked for.
    pub open spec fn untouched(self) -> bool {
        forall|b: int| 0 <= b < self.blocks.len() ==> #[trigger] self.blocks[b] is Empty
    }

    /// Where the piece stands on its way to the disk.
    pub open spec fn state(self) -> PieceState {
        if self.flushed {
            PieceState::Flushed
        } else if self.verified {
            PieceState::Verified
        } else if self.complete() {
            PieceState::Complete
        } else if self.untouched() {
            PieceState::Missing
        } else {
            PieceState::Partial
        }
    }

    /// A piece of `size` bytes has a state for each of its blocks; its bytes,
    /// once reserved, are `size` long, and no block is here before that; a
    /// verified piece is whole, and only a verified piece is flushed.
    pub open spec fn wf(self, size: int) -> bool {
        &&& self.blocks.len() == blocks_in(size)
        &&& self.bytes matches Some(b) ==> b.len() == size
        &&& self.bytes is None ==> forall|b: int|
            0 <= b < self.blocks.len() ==> !(#[trigger] self.blocks[b] is Received)
        &&& self.verified ==> self.bytes is Some && self.complete()
        &&& self.flushed ==> self.verified
    }

    /// A piece of which nothing is known yet.
    pub open spec fn missing(blocks: int) -> PieceModel {
        PieceModel {
            bytes: None,
            blocks: Seq::new(blocks as nat, |b: int| Block::Empty),
            verified: false,
            flushed: false,
        }
    }
}

/// `base` with `data` written over it from position `at` on.
pub open spec fn overwrite(base: Seq<u8>, at: int, data: Seq<u8>) -> Seq<u8> {
    Seq::new(
        base.len(),
        |i: int|
            if at <= i < at + data.len() {
                data[i - at]
            } else {
                base[i]
            },
    )
}

/// `n` zero bytes.
pub open spec fn zeros(n: int) -> Seq<u8> {
    Seq::new(n as nat, |i: int| 0u8)
}

impl Piece {
    /// A piece of `blocks` blocks of which nothing is known yet.
    pub fn new(blocks: usize) -> (p: Piece)
        ensures
            p@ == PieceModel::missing(blocks as int),
    {
        let mut written: Vec<Block> = Vec::new();
        let mut i: usize = 0;
        while i < blocks
            invariant
                i <= blocks,
                written@.len() == i,
                forall|b: int| 0 <= b < i ==> written@[b] == Block::Empty,
            decreases blocks - i,
        {
            written.push(Block::Empty);
            i += 1;
        }
        let p = Piece { inner: None, written, verified: false, flushed: false };
        proof {
            assert(p@.blocks =~= PieceModel::missing(blocks as int).blocks);
        }
        p
    }

    /// Whether every block is here.
    pub fn complete(&self) -> (r: bool)
        ensures
            r == self@.complete(),
    {
        let mut i: usize = 0;
        while i < self.written.len()
            invariant
                i <= self.written@.len(),
                forall|b: int| 0 <= b < i ==> #[trigger] self.written@[b] is Received,
            decreases self.written@.len() - i,
        {
            match self.written[i] {
                Block::Received { .. } => {},
                _ => {
                    return false;
                },
            }
            i += 1;
        }
        true
    }

    /// How far the piece has come.
    pub fn state(&self) -> (r: PieceState)
        ensures
            r == self@.state(),
    {
        if self.flushed {
            return PieceState::Flushed;
        }
        if self.verified {
            return PieceState::Verified;
        }
        if self.complete() {
            return PieceState::Complete;
        }
        let mut i: usize = 0;
        while i < self.written.len()
            invariant
                i <= self.written@.len(),
                !self.flushed && !self.verified && !self@.complete(),
                forall|b: int| 0 <= b < i ==> #[trigger] self.written@[b] is Empty,
            decreases self.written@.len() - i,
        {
            match self.written[i] {
                Block::Empty => {},
                _ => {
                    assert(!(self@.blocks[i as int] is Empty));
                    return PieceState::Partial;
                },
            }
            i += 1;
        }
        PieceState::Missing
    }
}

/// Which pieces someone has: one bit for each piece, packed in 64-bit words.
#[derive(Clone, Debug, PartialEq, Eq)]
pub struct BitField {
    pub words: ByteWrapper,
    pub len: usize,
}

impl View for BitField {
    type V = Seq<bool>;

    open spec fn view(&self) -> Seq<bool> {
        self.words@.take(self.len as int)
    }
}

impl BitField {
    /// There is a bit for each piece.
    pub open spec fn wf(&self) -> bool {
        self.len <= 64 * self.words.0@.len()
    }

    /// The bits of `v`, all of them standing for pieces.
    pub fn new(v: Vec<u64>) -> (r: BitField)
        requires
            64 * v@.len() <= usize::MAX,
        ensures
            r.wf(),
            r.words.0 == v,
            r@.len() == 64 * v@.len(),
    {
        let len: usize = 64 * v.len();
        BitField { words: ByteWrapper(v), len }
    }

    /// `real_len` pieces, none of them had.
    pub fn empty(real_len: usize) -> (r: BitField)
        ensures
            r.wf(),
            r@.len() == real_len,
            r.words.0@.len() == (real_len + 63) / 64,
            forall|w: int| 0 <= w < r.words.0@.len() ==> r.words.0@[w] == 0,
            forall|i: int| 0 <= i < real_len ==> !r@[i],
    {
        let words: usize = real_len / 64 + if real_len % 64 == 0 {
            0
        } else {
            1
        };
        BitField { words: ByteWrapper::zeroed(words), len: real_len }
    }

    /// A field of `real_len` words, which is 64 bits for each, with the bits
    /// set that `value` lists, in whatever order and however often it lists
    /// them. A number for which the field has no bit is passed over.
    pub fn from_lazy(value: Vec<usize>, real_len: usize) -> (r: BitField)
        requires
            64 * real_len <= usize::MAX,
        ensures
            r.wf(),
            r.words.0@.len() == real_len,
            r@.len() == 64 * real_len,
            forall|x: int| 0 <= x < 64 * real_len ==> r@[x] == value@.contains(x as usize),
            value@.len() == 0 ==> forall|w: int| 0 <= w < real_len ==> r.words.0@[w] == 0,
    {
        BitField::from_indices(value, 64 * real_len)
    }

    /// Of `real_len` pieces, those that `value` lists; numbers that name no
    /// piece are passed over.
    pub fn from_indices(value: Vec<usize>, real_len: usize) -> (r: BitField)
        ensures
            r.wf(),
            r@.len() == real_len,
            r.words.0@.len() == (real_len + 63) / 64,
            forall|i: int| 0 <= i < real_len ==> r@[i] == value@.contains(i as usize),
            value@.len() == 0 ==> forall|w: int|
                0 <= w < r.words.0@.len() ==> r.words.0@[w] == 0,
    {
        let mut r = BitField::empty(real_len);
        let mut k: usize = 0;
        while k < value.len()
            invariant
                k <= value@.len(),
                r.wf(),
                r@.len() == real_len,
                r.words.0@.len() == (real_len + 63) / 64,
                value@.len() == 0 ==> forall|w: int|
                    0 <= w < r.words.0@.len() ==> r.words.0@[w] == 0,
                forall|i: int| 0 <= i < real_len ==> r@[i] == value@.take(k as int).contains(
                    i as usize,
                ),
            decreases value@.len() - k,
        {
            let x: usize = value[k];
            let ghost before = r@;
            if x < real_len {
                r.set(x);
            }
            proof {
                let head = value@.take(k as int);
                let next = value@.take(k + 1);
                assert(next =~= head.push(x));
                assert forall|i: int| 0 <= i < real_len implies r@[i] == next.contains(
                    i as usize,
                ) by {
                    if head.contains(i as usize) {
                        let at = choose|j: int| 0 <= j < head.len() && head[j] == i as usize;
                        assert(next[at] == i as usize);
                    }
                    if i as usize == x {
                        assert(next[k as int] == x);
                    }
                    if next.contains(i as usize) && i as usize != x {
                        let at = choose|j: int| 0 <= j < next.len() && next[j] == i as usize;
                        assert(head[at] == i as usize);
                    }
                }
            }
            k += 1;
        }
        proof {
            assert(value@.take(value@.len() as int) =~= value@);
        }
        r
    }

    /// The pieces that a decoded wire bitfield claims.
    pub fn from_bits(bits: &Vec<bool>) -> (r: BitField)
        ensures
            r.wf(),
            r@ == bits@,
    {
        let n: usize = bits.len();
        let mut r = BitField::empty(n);
        let mut i: usize = 0;
        while i < n
            invariant
                i <= n,
                n == bits@.len(),
                r.wf(),
                r@.len() == n,
                forall|j: int| 0 <= j < i ==> r@[j] == bits@[j],
                forall|j: int| i <= j < n ==> !r@[j],
            decreases n - i,
        {
            if bits[i] {
                r.set(i);
            }
            i += 1;
        }
        proof {
            assert(r@ =~= bits@);
        }
        r
    }

    /// Reads a bitfield payload for `real_len` pieces; see
    /// `piece_map::BitField::new` for what is refused.
    pub fn from_wire(payload: &[u8], real_len: usize) -> (r: Result<BitField, ParseError>)
        ensures
            r is Ok <==> crate::piece_map::valid_bitfield(payload@, real_len as int),
            r matches Ok(b) ==> b.wf() && b@ == wire_bits(payload@, real_len as int),
            r matches Err(e) ==> e == (if payload@.len() != (real_len + 7) / 8 {
                ParseError::BadLength
            } else {
                ParseError::SpareBits
            }),
    {
        match crate::piece_map::BitField::new(payload, real_len) {
            Ok(b) => Ok(BitField::from_bits(&b.0)),
            Err(e) => Err(e),
        }
    }

    /// The number of pieces.
    pub fn len(&self) -> (r: usize)
        ensures
            r == self.len,
            self.wf() ==> r == self@.len(),
    {
        self.len
    }

    /// Whether piece `i` is had.
    pub fn get(&self, i: usize) -> (r: bool)
        requires
            self.wf(),
            i < self@.len(),
        ensures
            r == self@[i as int],
    {
        self.words.get(i)
    }

    /// Notes that piece `i` is had.
    pub fn set(&mut self, i: usize)
        requires
            old(self).wf(),
            i < old(self)@.len(),
        ensures
            final(self).wf(),
            final(self)@ == old(self)@.update(i as int, true),
            final(self).words.0@.len() == old(self).words.0@.len(),
    {
        self.words.set(i);
        proof {
            assert(self@ =~= old(self)@.update(i as int, true));
        }
    }

    /// Keeps the pieces that `rhs` has too.
    pub fn bitand_assign(&mut self, rhs: &BitField)
        requires
            old(self).wf(),
            rhs.wf(),
            old(self).len == rhs.len,
            old(self).words.0@.len() == rhs.words.0@.len(),
        ensures
            final(self).wf(),
            final(self)@.len() == old(self)@.len(),
            forall|i: int|
                0 <= i < final(self)@.len() ==> #[trigger] final(self)@[i] == (old(self)@[i]
                    && rhs@[i]),
    {
        self.words.bitand_assign(&rhs.words);
        proof {
            assert forall|i: int| 0 <= i < self@.len() implies #[trigger] self@[i] == (old(self)@[i] && rhs@[i]) by {
                assert(self.words@[i] == (old(self).words@[i] && rhs.words@[i]));
            }
        }
    }

    /// The pieces that exactly one of the two has.
    pub fn bitxor(&self, rhs: &BitField) -> (r: BitField)
        requires
            self.wf(),
            rhs.wf(),
            self.len == rhs.len,
            self.words.0@.len() == rhs.words.0@.len(),
        ensures
            r.wf(),
            r@.len() == self@.len(),
            forall|i: int| 0 <= i < r@.len() ==> #[trigger] r@[i] == (self@[i] != rhs@[i]),
    {
        let words = self.words.bitxor(&rhs.words);
        let r = BitField { words, len: self.len };
        proof {
            assert forall|i: int| 0 <= i < r@.len() implies #[trigger] r@[i] == (self@[i]
                != rhs@[i]) by {
                assert(r.words@[i] == (self.words@[i] != rhs.words@[i]));
            }
        }
        r
    }
}

/// The piece after a block came in: the bytes are reserved if they were not,
/// `data` stands at `begin`, and the block counts as received from `peer`.
pub open spec fn wrote(p: PieceModel, size: int, begin: int, data: Seq<u8>, peer: Endpoint) -> PieceModel {
    PieceModel {
        bytes: Some(
            overwrite(
                match p.bytes {
                    Some(b) => b,
                    None => zeros(size),
                },
                begin,
                data,
            ),
        ),
        blocks: p.blocks.update(begin / 16384, Block::Received { peer }),
        verified: p.verified,
        flushed: p.flushed,
    }
}

/// How many blocks a piece of `size` bytes has.
pub fn block_count(size: usize) -> (r: usize)
    ensures
        r == blocks_in(size as int),
{
    size / 16384 + if size % 16384 == 0 {
        0
    } else {
        1
    }
}

/// The length of block `block` of a piece of `size` bytes.
pub fn block_bytes(size: usize, block: usize) -> (r: usize)
    requires
        block < blocks_in(size as int),
    ensures
        r == block_len(size as int, block as int),
        0 < r <= 16384,
        16384 * block + r <= size,
{
    if block == block_count(size) - 1 {
        size - 16384 * block
    } else {
        16384
    }
}

impl Piece {
    /// Takes in the block that starts at `begin`.
    pub fn store(&mut self, size: usize, begin: usize, data: &[u8], peer: Endpoint)
        requires
            old(self)@.wf(size as int),
            !old(self).verified,
            begin % 16384 == 0,
            begin < size,
            data@.len() == block_len(size as int, begin as int / 16384),
        ensures
            final(self)@ == wrote(old(self)@, size as int, begin as int, data@, peer),
            final(self)@.wf(size as int),
    {
        let block: usize = begin / 16384;
        let n: usize = block_bytes(size, block);
        if self.inner.is_none() {
            let mut fresh: Vec<u8> = Vec::new();
            let mut k: usize = 0;
            while k < size
                invariant
                    k <= size,
                    fresh@.len() == k,
                    forall|j: int| 0 <= j < k ==> fresh@[j] == 0,
                decreases size - k,
            {
                fresh.push(0);
                k += 1;
            }
            assert(fresh@ =~= zeros(size as int));
            self.inner = Some(fresh);
        }
        let ghost base = self.inner->Some_0@;
        match &mut self.inner {
            Some(v) => {
                let mut i: usize = 0;
                while i < n
                    invariant
                        i <= n,
                        n == data@.len(),
                        begin + n <= size,
                        v@.len() == size,
                        base.len() == size,
                        forall|j: int|
                            0 <= j < size ==> v@[j] == (if begin <= j < begin + i {
                                data@[j - begin]
                            } else {
                                base[j]
                            }),
                    decreases n - i,
                {
                    v[begin + i] = data[i];
                    i += 1;
                }
                assert(v@ =~= overwrite(base, begin as int, data@));
            },
            None => {},
        }
        self.written[block] = Block::Received { peer };
        proof {
            let after = wrote(old(self)@, size as int, begin as int, data@, peer);
            assert(self@.blocks =~= after.blocks);
            assert(self@.bytes == after.bytes);
        }
    }

    /// Forgets everything about the piece.
    pub fn reset(&mut self)
        ensures
            final(self)@ == PieceModel::missing(old(self)@.blocks.len() as int),
    {
        let blocks: usize = self.written.len();
        *self = Piece::new(blocks);
    }
}

/// The pieces of a torrent with the hashes they must have and the table of
/// files they go to.
#[derive(Debug)]
pub struct PiecesWrapper {
    pub piece_len: u64,
    pub total: u64,
    pub hashes: Vec<[u8; 20]>,
    pub inner: Vec<Piece>,
    pub mode: Mode,
    pub layout: Layout,
}

/// Each piece as plain values.
pub open spec fn pieces_view(v: Seq<Piece>) -> Seq<PieceModel> {
    Seq::new(v.len(), |i: int| v[i]@)
}

impl PiecesWrapper {
    /// The length of piece `index`.
    pub open spec fn size_of(&self, index: int) -> int {
        piece_size(self.total as int, self.piece_len as int, index)
    }

    /// Piece `i` is well-formed for its length, and, if it counts as
    /// verified, the SHA-1 of its bytes is the hash that the torrent names
    /// for it.
    pub open spec fn piece_ok(&self, i: int) -> bool {
        &&& self.inner@[i]@.wf(self.size_of(i))
        &&& self.inner@[i].verified ==> sha1(self.inner@[i]@.bytes->Some_0) == self.hashes@[i]@
    }

    /// The geometry is that of a valid torrent whose piece length and piece
    /// count fit the 32-bit fields of the wire protocol, and every piece is
    /// in order.
    pub open spec fn wf(&self) -> bool {
        &&& MIN_PIECE_LENGTH <= self.piece_len <= u32::MAX
        &&& self.hashes@.len() <= u32::MAX
        &&& self.hashes@.len() == pieces_needed(self.total as int, self.piece_len as int)
        &&& self.inner@.len() == self.hashes@.len()
        &&& self.layout.wf()
        &&& self.layout.total() == self.total
        &&& forall|i: int| 0 <= i < self.inner@.len() ==> #[trigger] self.piece_ok(i)
    }

    /// Whether a block of `len` bytes may come in at `begin` of piece
    /// `index`: the piece exists, `begin` is where a block starts, and `len`
    /// is the length of that block.
    pub open spec fn takes(&self, index: int, begin: int, len: int) -> bool {
        &&& 0 <= index < self.inner@.len()
        &&& begin % 16384 == 0
        &&& 0 <= begin < self.size_of(index)
        &&& len == block_len(self.size_of(index), begin / 16384)
    }

    /// The length of piece `index`.
    pub fn piece_bytes(&self, index: usize) -> (r: usize)
        requires
            self.wf(),
            index < self.inner@.len(),
        ensures
            r == self.size_of(index as int),
            0 < r <= self.piece_len,
            self.piece_len * index + r <= self.total,
    {
        let count: usize = self.hashes.len();
        proof {
            let total = self.total as int;
            let pl = self.piece_len as int;
            if total == 0 {
                assert((pl - 1) / pl == 0) by (nonlinear_arith)
                    requires
                        pl > 0,
                ;
            }
            lemma_last_piece(total, pl);
            let c = pieces_needed(total, pl);
            assert(pl * index <= pl * (c - 1)) by (nonlinear_arith)
                requires
                    0 <= index <= c - 1,
                    pl > 0,
            ;
            if index < c - 1 {
                assert(pl * index + pl <= pl * (c - 1)) by (nonlinear_arith)
                    requires
                        0 <= index < c - 1,
                        pl > 0,
                ;
            }
        }
        if index == count - 1 {
            (self.total - self.piece_len * (index as u64)) as usize
        } else {
            self.piece_len as usize
        }
    }

    /// Takes in a block that `peer` sent. A block that does not fit the
    /// geometry of the torrent is refused as an invalid piece index; one for
    /// a piece that is verified already, as already flushed. On success the
    /// answer says whether the piece is whole now.
    pub fn write(&mut self, index: usize, begin: usize, block: &[u8], peer: Endpoint) -> (r:
        Result<bool, GeneralError>)
        requires
            old(self).wf(),
        ensures
            final(self).wf(),
            final(self).piece_len == old(self).piece_len,
            final(self).total == old(self).total,
            final(self).hashes == old(self).hashes,
            final(self).layout == old(self).layout,
            final(self).mode == old(self).mode,
            !old(self).takes(index as int, begin as int, block@.len() as int) ==> r == Err::<
                bool,
                GeneralError,
            >(GeneralError::InvalidPieceIdx) && pieces_view(final(self).inner@) == pieces_view(
                old(self).inner@,
            ),
            old(self).takes(index as int, begin as int, block@.len() as int) && old(self).inner@[index as int].verified ==> r == Err::<bool, GeneralError>(
                GeneralError::AlreadyFlushed,
            ) && pieces_view(final(self).inner@) == pieces_view(old(self).inner@),
            old(self).takes(index as int, begin as int, block@.len() as int) && !old(self).inner@[index as int].verified ==> {
                let after = wrote(
                    old(self).inner@[index as int]@,
                    old(self).size_of(index as int),
                    begin as int,
                    block@,
                    peer,
                );
                &&& r == Ok::<bool, GeneralError>(after.complete())
                &&& pieces_view(final(self).inner@) == pieces_view(old(self).inner@).update(
                    index as int,
                    after,
                )
            },
    {
        if index >= self.inner.len() {
            return Err(GeneralError::InvalidPieceIdx);
        }
        let size: usize = self.piece_bytes(index);
        if begin % 16384 != 0 || begin >= size {
            return Err(GeneralError::InvalidPieceIdx);
        }
        if block.len() != block_bytes(size, begin / 16384) {
            return Err(GeneralError::InvalidPieceIdx);
        }
        assert(self.piece_ok(index as int));
        if self.inner[index].verified {
            return Err(GeneralError::AlreadyFlushed);
        }
        self.inner[index].store(size, begin, block, peer);
        let whole: bool = self.inner[index].complete();
        proof {
            let after = wrote(
                old(self).inner@[index as int]@,
                old(self).size_of(index as int),
                begin as int,
                block@,
                peer,
            );
            assert(pieces_view(self.inner@) =~= pieces_view(old(self).inner@).update(
                index as int,
                after,
            ));
            assert forall|i: int| 0 <= i < self.inner@.len() implies #[trigger] self.piece_ok(
                i,
            ) by {
                if i != index {
                    assert(old(self).piece_ok(i));
                    assert(self.inner@[i] == old(self).inner@[i]);
                }
            }
        }
        Ok(whole)
    }
}

impl PiecesWrapper {
    /// The pieces of `info`, nothing of them here yet. `None` where `info` is
    /// not valid, or where its piece length or piece count does not fit in 32
    /// bits.
    pub fn new(info: Info) -> (r: Option<PiecesWrapper>)
        ensures
            r is Some <==> info@.valid() && info.piece_length <= u32::MAX && info.pieces@.len()
                <= u32::MAX,
            r matches Some(w) ==> {
                &&& w.wf()
                &&& w.piece_len == info.piece_length
                &&& w.total == info@.mode.total_length()
                &&& w.hashes@ == info.pieces@
                &&& w.mode == info.mode
                &&& w.layout.lays_out(info@.mode)
                &&& forall|i: int|
                    0 <= i < w.inner@.len() ==> (#[trigger] w.inner@[i])@ == PieceModel::missing(
                        blocks_in(w.size_of(i)),
                    )
            },
    {
        if !info.check() || info.piece_length > 0xffff_ffff || info.pieces.len() > 0xffff_ffff {
            return None;
        }
        let layout = match Layout::new(&info.mode) {
            Some(l) => l,
            None => {
                return None;
            },
        };
        let total: u64 = layout.length();
        let count: usize = info.pieces.len();
        let mut w = PiecesWrapper {
            piece_len: info.piece_length,
            total,
            hashes: info.pieces,
            inner: Vec::new(),
            mode: info.mode,
            layout,
        };
        let ghost pl = w.piece_len as int;
        proof {
            if total == 0 {
                assert((pl - 1) / pl == 0) by (nonlinear_arith)
                    requires
                        pl > 0,
                ;
            } else {
                lemma_last_piece(total as int, pl);
            }
        }
        let mut i: usize = 0;
        while i < count
            invariant
                i <= count,
                count == w.hashes@.len(),
                count == pieces_needed(total as int, pl),
                w.inner@.len() == i,
                w.total == total,
                w.piece_len == pl,
                MIN_PIECE_LENGTH <= w.piece_len <= u32::MAX,
                w.hashes@ == info.pieces@,
                w.mode == info.mode,
                w.layout.wf(),
                w.layout.total() == total,
                w.layout.lays_out(info@.mode),
                count == 0 || (total > 0 && 0 < piece_size(total as int, pl, count - 1) <= pl
                    && total == pl * (count - 1) + piece_size(total as int, pl, count - 1)),
                forall|j: int|
                    0 <= j < i ==> (#[trigger] w.inner@[j])@ == PieceModel::missing(
                        blocks_in(w.size_of(j)),
                    ),
            decreases count - i,
        {
            let size: usize = if i == count - 1 {
                proof {
                    assert(pl * i == pl * (count - 1)) by (nonlinear_arith)
                        requires
                            i == count - 1,
                    ;
                }
                (total - w.piece_len * (i as u64)) as usize
            } else {
                w.piece_len as usize
            };
            assert(size == w.size_of(i as int));
            let piece = Piece::new(block_count(size));
            w.inner.push(piece);
            i += 1;
        }
        proof {
            assert forall|j: int| 0 <= j < w.inner@.len() implies #[trigger] w.piece_ok(j) by {
                let m = w.inner@[j]@;
                assert(m == PieceModel::missing(blocks_in(w.size_of(j))));
                if j == count - 1 {
                } else {
                    assert(w.size_of(j) == pl);
                }
                lemma_last_block(w.size_of(j));
            }
        }
        Some(w)
    }

    /// The peers that sent a block of piece `index`, each once.
    pub fn contributors(&self, index: usize) -> (r: Vec<Endpoint>)
        requires
            index < self.inner@.len(),
        ensures
            forall|e: Endpoint|
                r@.contains(e) <==> exists|b: int|
                    0 <= b < self.inner@[index as int].written@.len()
                        && #[trigger] self.inner@[index as int].written@[b] == (Block::Received {
                        peer: e,
                    }),
            forall|a: int, b: int| 0 <= a < b < r@.len() ==> r@[a] != r@[b],
    {
        let blocks = &self.inner[index].written;
        let mut out: Vec<Endpoint> = Vec::new();
        let mut i: usize = 0;
        while i < blocks.len()
            invariant
                i <= blocks@.len(),
                blocks@ == self.inner@[index as int].written@,
                forall|e: Endpoint|
                    out@.contains(e) <==> exists|b: int|
                        0 <= b < i && #[trigger] blocks@[b] == (Block::Received { peer: e }),
                forall|a: int, b: int| 0 <= a < b < out@.len() ==> out@[a] != out@[b],
            decreases blocks@.len() - i,
        {
            let ghost before = out@;
            match blocks[i] {
                Block::Received { peer } => {
                    let mut known: bool = false;
                    let mut k: usize = 0;
                    while k < out.len()
                        invariant
                            k <= out@.len(),
                            known == exists|j: int| 0 <= j < k && out@[j] == peer,
                        decreases out@.len() - k,
                    {
                        if out[k] == peer {
                            known = true;
                        }
                        k += 1;
                    }
                    if !known {
                        out.push(peer);
                    }
                    proof {
                        assert forall|e: Endpoint| out@.contains(e) <==> exists|b: int|
                            0 <= b < i + 1 && #[trigger] blocks@[b] == (Block::Received {
                                peer: e,
                            }) by {
                            if out@.contains(e) {
                                if before.contains(e) {
                                    let b = choose|b: int|
                                        0 <= b < i && #[trigger] blocks@[b] == (Block::Received {
                                            peer: e,
                                        });
                                    assert(0 <= b < i + 1);
                                } else {
                                    let j = choose|j: int| 0 <= j < out@.len() && out@[j] == e;
                                    if j < before.len() {
                                        assert(before[j] == e);
                                    }
                                    assert(e == peer);
                                    assert(blocks@[i as int] == (Block::Received { peer: e }));
                                }
                            }
                            if exists|b: int|
                                0 <= b < i + 1 && #[trigger] blocks@[b] == (Block::Received {
                                    peer: e,
                                }) {
                                let b = choose|b: int|
                                    0 <= b < i + 1 && #[trigger] blocks@[b] == (Block::Received {
                                        peer: e,
                                    });
                                if b < i {
                                    assert(before.contains(e));
                                    let j = choose|j: int| 0 <= j < before.len() && before[j] == e;
                                    assert(out@[j] == e);
                                } else {
                                    assert(e == peer);
                                    if known {
                                        let j = choose|j: int| 0 <= j < before.len() && before[j]
                                            == peer;
                                        assert(out@[j] == e);
                                    } else {
                                        assert(out@[out@.len() - 1] == e);
                                    }
                                }
                            }
                        }
                    }
                },
                _ => {
                    proof {
                        assert forall|e: Endpoint| out@.contains(e) <==> exists|b: int|
                            0 <= b < i + 1 && #[trigger] blocks@[b] == (Block::Received {
                                peer: e,
                            }) by {
                            if out@.contains(e) {
                                let b = choose|b: int|
                                    0 <= b < i && #[trigger] blocks@[b] == (Block::Received {
                                        peer: e,
                                    });
                                assert(0 <= b < i + 1);
                            }
                            if exists|b: int|
                                0 <= b < i + 1 && #[trigger] blocks@[b] == (Block::Received {
                                    peer: e,
                                }) {
                                let b = choose|b: int|
                                    0 <= b < i + 1 && #[trigger] blocks@[b] == (Block::Received {
                                        peer: e,
                                    });
                                assert(b < i);
                            }
                        }
                    }
                },
            }
            i += 1;
        }
        out
    }

    /// What checking the hash of piece `index` comes to: the piece is good
    /// where it is whole and the SHA-1 of its bytes is the hash that the
    /// torrent names for it, whether or not it is flushed already; a piece
    /// that is not whole has not the bytes that the hash is of.
    pub open spec fn verdict(&self, index: int) -> Result<(), GeneralError> {
        if !(0 <= index < self.inner@.len()) {
            Err(GeneralError::InvalidPieceIdx)
        } else {
            let p = self.inner@[index]@;
            if p.complete() && sha1(p.bytes->Some_0) == self.hashes@[index]@ {
                Ok(())
            } else {
                Err(GeneralError::InvalidPieceHash)
            }
        }
    }

    /// What piece `index` is after its hash was checked: verified where the
    /// verdict is good; missing again where it is whole and has a wrong
    /// hash; as it was while it is not whole.
    pub open spec fn checked(&self, index: int) -> PieceModel {
        let p = self.inner@[index]@;
        if !p.complete() {
            p
        } else if self.verdict(index) is Ok {
            PieceModel { verified: true, ..p }
        } else {
            PieceModel::missing(p.blocks.len() as int)
        }
    }

    /// Whether the writes of piece `index` can be planned: not for a piece
    /// that is flushed already or not whole yet, and not for one that fails
    /// its hash.
    pub open spec fn flushable(&self, index: int) -> Result<(), GeneralError> {
        if !(0 <= index < self.inner@.len()) {
            Err(GeneralError::InvalidPieceIdx)
        } else if self.inner@[index]@.flushed || !self.inner@[index]@.complete() {
            Err(GeneralError::AlreadyFlushed)
        } else {
            self.verdict(index)
        }
    }

    /// Checks the hash of piece `index`. A whole piece with the right hash
    /// counts as verified from then on, and a flushed one stays flushed; a
    /// whole piece with a wrong hash is forgotten and is missing again. A
    /// piece that is not whole fails and stays as it is.
    pub fn verify_piece(&mut self, index: usize) -> (r: Result<(), GeneralError>)
        requires
            old(self).wf(),
        ensures
            final(self).wf(),
            final(self).piece_len == old(self).piece_len,
            final(self).total == old(self).total,
            final(self).hashes == old(self).hashes,
            final(self).layout == old(self).layout,
            final(self).mode == old(self).mode,
            r == old(self).verdict(index as int),
            final(self).inner@.len() == old(self).inner@.len(),
            forall|i: int|
                0 <= i < old(self).inner@.len() && i != index ==> final(self).inner@[i] == old(self).inner@[i],
            index < old(self).inner@.len() ==> final(self).inner@[index as int]@ == old(
                self,
            ).checked(index as int),
            r is Ok ==> final(self).inner@[index as int].verified && sha1(
                final(self).inner@[index as int]@.bytes->Some_0,
            ) == final(self).hashes@[index as int]@,
    {
        if index >= self.inner.len() {
            return Err(GeneralError::InvalidPieceIdx);
        }
        assert(self.piece_ok(index as int));
        let size: usize = self.piece_bytes(index);
        proof {
            lemma_last_block(size as int);
        }
        if !self.inner[index].complete() {
            return Err(GeneralError::InvalidPieceHash);
        }
        if self.inner[index].verified {
            return Ok(());
        }
        assert(self.inner@[index as int]@.blocks[0] is Received);
        let matches: bool = match &self.inner[index].inner {
            Some(bytes) => {
                let digest: [u8; 20] = sha1_digest(bytes.as_slice());
                same_hash(&digest, &self.hashes[index])
            },
            None => false,
        };
        if matches {
            self.inner[index].verified = true;
            proof {
                assert forall|i: int| 0 <= i < self.inner@.len() implies #[trigger] self.piece_ok(
                    i,
                ) by {
                    if i != index {
                        assert(old(self).piece_ok(i));
                        assert(self.inner@[i] == old(self).inner@[i]);
                    }
                }
            }
            Ok(())
        } else {
            self.inner[index].reset();
            proof {
                assert forall|i: int| 0 <= i < self.inner@.len() implies #[trigger] self.piece_ok(
                    i,
                ) by {
                    if i != index {
                        assert(old(self).piece_ok(i));
                        assert(self.inner@[i] == old(self).inner@[i]);
                    }
                }
            }
            Err(GeneralError::InvalidPieceHash)
        }
    }

    /// Where the bytes of piece `index` go on disk. Nothing is planned for a
    /// piece that is flushed already or not whole yet. The piece is then
    /// verified, as `verify_piece` does it, and nothing is planned for a
    /// piece that fails. The piece does not count as flushed before `mark_flushed`
    /// says that the bytes are written.
    pub fn flush_piece(&mut self, index: usize) -> (r: Result<Vec<Span>, GeneralError>)
        requires
            old(self).wf(),
        ensures
            final(self).wf(),
            final(self).piece_len == old(self).piece_len,
            final(self).total == old(self).total,
            final(self).hashes == old(self).hashes,
            final(self).layout == old(self).layout,
            final(self).mode == old(self).mode,
            final(self).inner@.len() == old(self).inner@.len(),
            r is Ok <==> old(self).flushable(index as int) is Ok,
            r matches Err(e) ==> old(self).flushable(index as int) == Err::<(), GeneralError>(e),
            r matches Ok(spans) ==> final(self).layout.cuts(
                final(self).piece_len * index,
                final(self).size_of(index as int),
                spans@,
            ),
            index < old(self).inner@.len() ==> final(self).inner@[index as int]@ == (match old(
                self,
            ).flushable(index as int) {
                Ok(()) => PieceModel { verified: true, ..old(self).inner@[index as int]@ },
                Err(GeneralError::InvalidPieceHash) => PieceModel::missing(
                    old(self).inner@[index as int]@.blocks.len() as int,
                ),
                Err(_) => old(self).inner@[index as int]@,
            }),
            forall|i: int|
                0 <= i < old(self).inner@.len() && i != index ==> final(self).inner@[i] == old(self).inner@[i],
    {
        if index >= self.inner.len() {
            return Err(GeneralError::InvalidPieceIdx);
        }
        if self.inner[index].flushed || !self.inner[index].complete() {
            return Err(GeneralError::AlreadyFlushed);
        }
        match self.verify_piece(index) {
            Err(e) => Err(e),
            Ok(()) => {
                let size: usize = self.piece_bytes(index);
                let offset: u64 = self.piece_len * (index as u64);
                Ok(self.layout.spans(offset, size))
            },
        }
    }

    /// Notes that the bytes of piece `index` are on disk, and gives the
    /// `have` that tells every connected peer. Only a verified piece that is
    /// not flushed yet can be noted so.
    pub fn mark_flushed(&mut self, index: usize) -> (r: Result<Message, GeneralError>)
        requires
            old(self).wf(),
        ensures
            final(self).wf(),
            final(self).piece_len == old(self).piece_len,
            final(self).total == old(self).total,
            final(self).hashes == old(self).hashes,
            final(self).layout == old(self).layout,
            final(self).mode == old(self).mode,
            final(self).inner@.len() == old(self).inner@.len(),
            forall|i: int|
                0 <= i < old(self).inner@.len() && i != index ==> final(self).inner@[i] == old(self).inner@[i],
            r == (if index >= old(self).inner@.len() {
                Err::<Message, GeneralError>(GeneralError::InvalidPieceIdx)
            } else if old(self).inner@[index as int].flushed || !old(self).inner@[index as int].verified {
                Err::<Message, GeneralError>(GeneralError::AlreadyFlushed)
            } else {
                Ok::<Message, GeneralError>(Message::Have(index as u32))
            }),
            index < old(self).inner@.len() ==> final(self).inner@[index as int]@ == (PieceModel {
                flushed: r is Ok || old(self).inner@[index as int].flushed,
                ..old(self).inner@[index as int]@
            }),
    {
        if index >= self.inner.len() {
            return Err(GeneralError::InvalidPieceIdx);
        }
        assert(self.piece_ok(index as int));
        if self.inner[index].flushed || !self.inner[index].verified {
            return Err(GeneralError::AlreadyFlushed);
        }
        self.inner[index].flushed = true;
        proof {
            assert forall|i: int| 0 <= i < self.inner@.len() implies #[trigger] self.piece_ok(
                i,
            ) by {
                if i != index {
                    assert(old(self).piece_ok(i));
                    assert(self.inner@[i] == old(self).inner@[i]);
                }
            }
        }
        Ok(Message::Have(index as u32))
    }
}

impl PieceModel {
    /// Some block is neither here nor asked for.
    pub open spec fn has_empty(self) -> bool {
        exists|b: int| 0 <= b < self.blocks.len() && #[trigger] self.blocks[b] is Empty
    }

    /// Block `b` is the first that is neither here nor asked for.
    pub open spec fn first_empty_is(self, b: int) -> bool {
        &&& 0 <= b < self.blocks.len()
        &&& self.blocks[b] is Empty
        &&& forall|c: int| 0 <= c < b ==> !(#[trigger] self.blocks[c] is Empty)
    }
}

/// Whether the blocks that `list` names come in order: by piece, and within
/// a piece by where they start.
pub open spec fn in_block_order(list: Seq<(Endpoint, usize, usize)>) -> bool {
    forall|k: int, l: int|
        0 <= k < l < list.len() ==> (#[trigger] list[k]).1 < (#[trigger] list[l]).1 || (list[k].1
            == list[l].1 && list[k].2 < list[l].2)
}

/// Whether a request made at `since` has waited `timeout` or longer at `now`.
pub open spec fn overdue(b: Block, now: u64, timeout: u64) -> bool {
    b matches Block::Requested { since, .. } && now >= since && now - since >= timeout
}

/// A block after requests that are overdue were given up.
pub open spec fn released(b: Block, now: u64, timeout: u64) -> Block {
    if overdue(b, now, timeout) {
        Block::Empty
    } else {
        b
    }
}

impl Piece {
    /// The first block that is neither here nor asked for.
    pub fn first_empty(&self) -> (r: Option<usize>)
        ensures
            r is Some <==> self@.has_empty(),
            r matches Some(b) ==> self@.first_empty_is(b as int),
    {
        let mut i: usize = 0;
        while i < self.written.len()
            invariant
                i <= self.written@.len(),
                forall|c: int| 0 <= c < i ==> !(#[trigger] self.written@[c] is Empty),
            decreases self.written@.len() - i,
        {
            match self.written[i] {
                Block::Empty => {
                    return Some(i);
                },
                _ => {},
            }
            i += 1;
        }
        None
    }

    /// How many blocks are asked of `peer`, counted up to `cap`.
    pub fn asked_of(&self, peer: Endpoint, cap: usize) -> (r: usize)
        ensures
            r == if asked(self@.blocks, peer, self@.blocks.len() as int) < cap {
                asked(self@.blocks, peer, self@.blocks.len() as int)
            } else {
                cap as int
            },
    {
        let mut count: usize = 0;
        let mut i: usize = 0;
        while i < self.written.len()
            invariant
                i <= self.written@.len(),
                count <= cap,
                count == if asked(self.written@, peer, i as int) < cap {
                    asked(self.written@, peer, i as int)
                } else {
                    cap as int
                },
            decreases self.written@.len() - i,
        {
            match self.written[i] {
                Block::Requested { peer: p, .. } => {
                    if p == peer && count < cap {
                        count += 1;
                    }
                },
                _ => {},
            }
            i += 1;
        }
        count
    }
}

/// How many of the first `upto` blocks are asked of `peer`.
pub open spec fn asked(blocks: Seq<Block>, peer: Endpoint, upto: int) -> int
    decreases upto,
{
    if upto <= 0 {
        0
    } else {
        asked(blocks, peer, upto - 1) + (if blocks[upto - 1] matches Block::Requested {
            peer: p,
            ..
        } && p == peer {
            1int
        } else {
            0int
        })
    }
}

/// How many blocks of the first `upto` pieces are asked of `peer`.
pub open spec fn pending(pieces: Seq<PieceModel>, peer: Endpoint, upto: int) -> int
    decreases upto,
{
    if upto <= 0 {
        0
    } else {
        pending(pieces, peer, upto - 1) + asked(
            pieces[upto - 1].blocks,
            peer,
            pieces[upto - 1].blocks.len() as int,
        )
    }
}

/// A count of requests is never negative.
pub proof fn lemma_asked_nonnegative(blocks: Seq<Block>, peer: Endpoint, upto: int)
    ensures
        asked(blocks, peer, upto) >= 0,
    decreases upto,
{
    if upto > 0 {
        lemma_asked_nonnegative(blocks, peer, upto - 1);
    }
}

/// A count of requests is never negative.
pub proof fn lemma_pending_nonnegative(pieces: Seq<PieceModel>, peer: Endpoint, upto: int)
    ensures
        pending(pieces, peer, upto) >= 0,
    decreases upto,
{
    if upto > 0 {
        lemma_pending_nonnegative(pieces, peer, upto - 1);
        lemma_asked_nonnegative(
            pieces[upto - 1].blocks,
            peer,
            pieces[upto - 1].blocks.len() as int,
        );
    }
}

impl PiecesWrapper {
    /// Whether the download is done: every piece is on disk.
    pub fn finished(&self) -> (r: bool)
        ensures
            r == (forall|i: int| 0 <= i < self.inner@.len() ==> (#[trigger] self.inner@[i]).flushed),
    {
        let mut i: usize = 0;
        while i < self.inner.len()
            invariant
                i <= self.inner@.len(),
                forall|j: int| 0 <= j < i ==> (#[trigger] self.inner@[j]).flushed,
            decreases self.inner@.len() - i,
        {
            if !self.inner[i].flushed {
                return false;
            }
            i += 1;
        }
        true
    }

    /// Whether `peer` is asked for `cap` blocks or more.
    pub fn busy(&self, peer: Endpoint, cap: usize) -> (r: bool)
        ensures
            r == (pending(pieces_view(self.inner@), peer, self.inner@.len() as int) >= cap),
    {
        let ghost model = pieces_view(self.inner@);
        let mut count: usize = 0;
        let mut i: usize = 0;
        while i < self.inner.len()
            invariant
                i <= self.inner@.len(),
                model == pieces_view(self.inner@),
                count <= cap,
                count == if pending(model, peer, i as int) < cap {
                    pending(model, peer, i as int)
                } else {
                    cap as int
                },
            decreases self.inner@.len() - i,
        {
            let more: usize = self.inner[i].asked_of(peer, cap - count);
            proof {
                lemma_pending_nonnegative(model, peer, i as int);
                lemma_asked_nonnegative(
                    model[i as int].blocks,
                    peer,
                    model[i as int].blocks.len() as int,
                );
            }
            count = count + more;
            i += 1;
        }
        count >= cap
    }

    /// Notes that block `block` of piece `index` was asked of `peer` at
    /// `now`.
    pub fn request(&mut self, index: usize, block: usize, peer: Endpoint, now: u64)
        requires
            old(self).wf(),
            index < old(self).inner@.len(),
            block < old(self).inner@[index as int].written@.len(),
            old(self).inner@[index as int].written@[block as int] is Empty,
        ensures
            final(self).wf(),
            final(self).piece_len == old(self).piece_len,
            final(self).total == old(self).total,
            final(self).hashes == old(self).hashes,
            final(self).layout == old(self).layout,
            final(self).mode == old(self).mode,
            pieces_view(final(self).inner@) == pieces_view(old(self).inner@).update(
                index as int,
                PieceModel {
                    blocks: old(self).inner@[index as int]@.blocks.update(
                        block as int,
                        Block::Requested { peer, since: now },
                    ),
                    ..old(self).inner@[index as int]@
                },
            ),
    {
        assert(self.piece_ok(index as int));
        self.inner[index].written[block] = Block::Requested { peer, since: now };
        proof {
            let after = PieceModel {
                blocks: old(self).inner@[index as int]@.blocks.update(
                    block as int,
                    Block::Requested { peer, since: now },
                ),
                ..old(self).inner@[index as int]@
            };
            assert(self.inner@[index as int]@.blocks =~= after.blocks);
            assert(pieces_view(self.inner@) =~= pieces_view(old(self).inner@).update(
                index as int,
                after,
            ));
            assert forall|i: int| 0 <= i < self.inner@.len() implies #[trigger] self.piece_ok(
                i,
            ) by {
                assert(old(self).piece_ok(i));
                if i != index {
                    assert(self.inner@[i] == old(self).inner@[i]);
                } else {
                    assert(!(self.inner@[i]@.blocks[block as int] is Received));
                }
            }
        }
    }

    /// The message that takes back the request for the block that starts at
    /// `begin` of piece `index`; nothing where the torrent has no such block.
    pub fn cancel(&self, index: usize, begin: usize) -> (r: Option<Message>)
        requires
            self.wf(),
        ensures
            r is Some <==> 0 <= index < self.inner@.len() && begin % 16384 == 0 && begin
                < self.size_of(index as int),
            r matches Some(m) ==> m == (Message::Cancel {
                index: index as u32,
                begin: begin as u32,
                length: block_len(self.size_of(index as int), begin as int / 16384) as u32,
            }),
    {
        if index >= self.inner.len() {
            return None;
        }
        let size: usize = self.piece_bytes(index);
        if begin % 16384 != 0 || begin >= size {
            return None;
        }
        let length: usize = block_bytes(size, begin / 16384);
        Some(Message::Cancel { index: index as u32, begin: begin as u32, length: length as u32 })
    }

    /// Gives up every request that has waited `timeout` or longer at `now`:
    /// its block is free to be asked for again. The answer lists, for each
    /// request given up, the peer that owes the block, the piece, and where
    /// in the piece the block starts, in the order of the blocks.
    #[verifier::rlimit(60)]
    pub fn expire(&mut self, now: u64, timeout: u64) -> (r: Vec<(Endpoint, usize, usize)>)
        requires
            old(self).wf(),
        ensures
            final(self).wf(),
            final(self).piece_len == old(self).piece_len,
            final(self).total == old(self).total,
            final(self).hashes == old(self).hashes,
            final(self).layout == old(self).layout,
            final(self).mode == old(self).mode,
            final(self).inner@.len() == old(self).inner@.len(),
            in_block_order(r@),
            forall|i: int|
                0 <= i < old(self).inner@.len() ==> (#[trigger] final(self).inner@[i])@ == (
                PieceModel {
                    blocks: Seq::new(
                        old(self).inner@[i]@.blocks.len(),
                        |b: int| released(old(self).inner@[i]@.blocks[b], now, timeout),
                    ),
                    ..old(self).inner@[i]@
                }),
            forall|k: int|
                0 <= k < r@.len() ==> {
                    let (peer, index, begin) = #[trigger] r@[k];
                    &&& index < old(self).inner@.len()
                    &&& begin % 16384 == 0
                    &&& begin / 16384 < old(self).inner@[index as int]@.blocks.len()
                    &&& overdue(
                        old(self).inner@[index as int]@.blocks[begin as int / 16384],
                        now,
                        timeout,
                    )
                    &&& old(self).inner@[index as int]@.blocks[begin as int / 16384]
                        ->Requested_peer == peer
                },
            forall|i: int, b: int|
                0 <= i < old(self).inner@.len() && 0 <= b < old(self).inner@[i]@.blocks.len()
                    && overdue(#[trigger] old(self).inner@[i]@.blocks[b], now, timeout)
                    ==> r@.contains(
                    (
                        old(self).inner@[i]@.blocks[b]->Requested_peer,
                        i as usize,
                        (16384 * b) as usize,
                    ),
                ),
    {
        let mut out: Vec<(Endpoint, usize, usize)> = Vec::new();
        let n: usize = self.inner.len();
        let mut i: usize = 0;
        while i < n
            invariant
                i <= n,
                n == old(self).inner@.len(),
                self.inner@.len() == n,
                old(self).wf(),
                self.piece_len == old(self).piece_len,
                self.total == old(self).total,
                self.hashes == old(self).hashes,
                self.layout == old(self).layout,
                self.mode == old(self).mode,
                forall|j: int| i <= j < n ==> self.inner@[j] == old(self).inner@[j],
                in_block_order(out@),
                forall|j: int|
                    0 <= j < i ==> (#[trigger] self.inner@[j])@ == (PieceModel {
                        blocks: Seq::new(
                            old(self).inner@[j]@.blocks.len(),
                            |b: int| released(old(self).inner@[j]@.blocks[b], now, timeout),
                        ),
                        ..old(self).inner@[j]@
                    }),
                forall|k: int|
                    0 <= k < out@.len() ==> {
                        let (peer, index, begin) = #[trigger] out@[k];
                        &&& index < i
                        &&& begin % 16384 == 0
                        &&& begin / 16384 < old(self).inner@[index as int]@.blocks.len()
                        &&& overdue(
                            old(self).inner@[index as int]@.blocks[begin as int / 16384],
                            now,
                            timeout,
                        )
                        &&& old(self).inner@[index as int]@.blocks[begin as int / 16384]
                            ->Requested_peer == peer
                    },
                forall|j: int, b: int|
                    0 <= j < i && 0 <= b < old(self).inner@[j]@.blocks.len() && overdue(
                        #[trigger] old(self).inner@[j]@.blocks[b],
                        now,
                        timeout,
                    ) ==> out@.contains(
                        (
                            old(self).inner@[j]@.blocks[b]->Requested_peer,
                            j as usize,
                            (16384 * b) as usize,
                        ),
                    ),
            decreases n - i,
        {
            assert(old(self).piece_ok(i as int));
            let ghost size = old(self).size_of(i as int);
            proof {
                lemma_piece_size(old(self).total as int, old(self).piece_len as int, i as int);
            }
            let blocks: usize = self.inner[i].written.len();
            let ghost before = old(self).inner@[i as int]@.blocks;
            let mut b: usize = 0;
            while b < blocks
                invariant
                    b <= blocks,
                    i < n,
                    n == old(self).inner@.len(),
                    self.inner@.len() == n,
                    blocks == before.len(),
                    blocks == blocks_in(size),
                    0 < size <= u32::MAX,
                    before == old(self).inner@[i as int]@.blocks,
                    self.inner@[i as int].written@.len() == blocks,
                    self.inner@[i as int].inner == old(self).inner@[i as int].inner,
                    self.inner@[i as int].verified == old(self).inner@[i as int].verified,
                    self.inner@[i as int].flushed == old(self).inner@[i as int].flushed,
                    self.piece_len == old(self).piece_len,
                    self.total == old(self).total,
                    self.hashes == old(self).hashes,
                    self.layout == old(self).layout,
                    self.mode == old(self).mode,
                    forall|j: int| 0 <= j < n && j != i ==> self.inner@[j] == old(self).inner@[j]
                        || j < i,
                    forall|j: int| i < j < n ==> self.inner@[j] == old(self).inner@[j],
                    forall|j: int|
                        0 <= j < i ==> (#[trigger] self.inner@[j])@ == (PieceModel {
                            blocks: Seq::new(
                                old(self).inner@[j]@.blocks.len(),
                                |c: int| released(old(self).inner@[j]@.blocks[c], now, timeout),
                            ),
                            ..old(self).inner@[j]@
                        }),
                    forall|c: int|
                        0 <= c < b ==> self.inner@[i as int].written@[c] == released(
                            before[c],
                            now,
                            timeout,
                        ),
                    forall|c: int| b <= c < blocks ==> self.inner@[i as int].written@[c] == before[c],
                    in_block_order(out@),
                    forall|k: int|
                        0 <= k < out@.len() ==> {
                            let (peer, index, begin) = #[trigger] out@[k];
                            &&& index <= i
                            &&& index == i ==> begin < 16384 * b
                            &&& begin % 16384 == 0
                            &&& begin / 16384 < old(self).inner@[index as int]@.blocks.len()
                            &&& overdue(
                                old(self).inner@[index as int]@.blocks[begin as int / 16384],
                                now,
                                timeout,
                            )
                            &&& old(self).inner@[index as int]@.blocks[begin as int / 16384]
                                ->Requested_peer == peer
                        },
                    forall|j: int, c: int|
                        0 <= j < i && 0 <= c < old(self).inner@[j]@.blocks.len() && overdue(
                            #[trigger] old(self).inner@[j]@.blocks[c],
                            now,
                            timeout,
                        ) ==> out@.contains(
                            (
                                old(self).inner@[j]@.blocks[c]->Requested_peer,
                                j as usize,
                                (16384 * c) as usize,
                            ),
                        ),
                    forall|c: int|
                        0 <= c < b && overdue(#[trigger] before[c], now, timeout) ==> out@.contains(
                            (before[c]->Requested_peer, i, (16384 * c) as usize),
                        ),
                decreases blocks - b,
            {
                let ghost listed = out@;
                match self.inner[i].written[b] {
                    Block::Requested { peer, since } => {
                        if now >= since && now - since >= timeout {
                            self.inner[i].written[b] = Block::Empty;
                            out.push((peer, i, 16384 * b));
                            proof {
                                assert(out@[out@.len() - 1] == (peer, i, (16384 * b) as usize));
                                assert forall|k: int| 0 <= k < listed.len() implies out@[k]
                                    == listed[k] by {}
                                assert forall|k: int, l: int|
                                    0 <= k < l < out@.len() implies (#[trigger] out@[k]).1 < (
                                #[trigger] out@[l]).1 || (out@[k].1 == out@[l].1 && out@[k].2
                                    < out@[l].2) by {
                                    assert(out@[k] == listed[k]);
                                    if l < listed.len() {
                                        assert(out@[l] == listed[l]);
                                    }
                                }
                            }
                        }
                    },
                    _ => {},
                }
                proof {
                    assert forall|j: int, c: int|
                        0 <= j < i && 0 <= c < old(self).inner@[j]@.blocks.len() && overdue(
                            #[trigger] old(self).inner@[j]@.blocks[c],
                            now,
                            timeout,
                        ) implies out@.contains(
                        (
                            old(self).inner@[j]@.blocks[c]->Requested_peer,
                            j as usize,
                            (16384 * c) as usize,
                        ),
                    ) by {
                        let e = (
                            old(self).inner@[j]@.blocks[c]->Requested_peer,
                            j as usize,
                            (16384 * c) as usize,
                        );
                        assert(listed.contains(e));
                        let at = choose|k: int| 0 <= k < listed.len() && listed[k] == e;
                        assert(out@[at] == e);
                    }
                    assert forall|c: int|
                        0 <= c < b + 1 && overdue(
                            #[trigger] before[c],
                            now,
                            timeout,
                        ) implies out@.contains(
                        (before[c]->Requested_peer, i, (16384 * c) as usize),
                    ) by {
                        let e = (before[c]->Requested_peer, i, (16384 * c) as usize);
                        if c < b {
                            assert(listed.contains(e));
                            let at = choose|k: int| 0 <= k < listed.len() && listed[k] == e;
                            assert(out@[at] == e);
                        } else {
                            assert(out@[out@.len() - 1] == e);
                        }
                    }
                }
                b += 1;
            }
            proof {
                let want = PieceModel {
                    blocks: Seq::new(
                        before.len(),
                        |c: int| released(before[c], now, timeout),
                    ),
                    ..old(self).inner@[i as int]@
                };
                assert(self.inner@[i as int]@.blocks =~= want.blocks);
                assert(self.inner@[i as int]@ == want);
            }
            i += 1;
        }
        proof {
            assert forall|j: int| 0 <= j < self.inner@.len() implies #[trigger] self.piece_ok(
                j,
            ) by {
                assert(old(self).piece_ok(j));
                let was = old(self).inner@[j]@;
                let is_now = self.inner@[j]@;
                assert forall|c: int| 0 <= c < is_now.blocks.len() implies (
                #[trigger] is_now.blocks[c] is Received) == (was.blocks[c] is Received) by {}
                if was.verified {
                    assert forall|c: int| 0 <= c < is_now.blocks.len() implies #[trigger] is_now.blocks[c] is Received by {
                        assert(was.blocks[c] is Received);
                    }
                }
            }
        }
        out
    }
}

} // verus!
