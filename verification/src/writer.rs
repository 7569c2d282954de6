//! A buffer that holds every piece of a torrent in memory.

use vstd::prelude::*;
use crate::data::GeneralError;
use crate::piece_manager::overwrite;
use crate::pwp::Message;

verus! {

/// `pieces` pieces of `piece_len` bytes each.
#[derive(Clone, Debug, PartialEq, Eq)]
pub struct Buffer {
    pub inner: Vec<Vec<u8>>,
    pub pieces: usize,
    pub piece_len: usize,
}

impl Buffer {
    /// The buffer has `pieces` rows of `piece_len` bytes each.
    pub open spec fn wf(&self) -> bool {
        &&& self.inner@.len() == self.pieces
        &&& forall|i: int| 0 <= i < self.pieces ==> (#[trigger] self.inner@[i])@.len() == self.piece_len
    }

    /// A buffer of zeros.
    pub fn new(piece_len: usize, pieces: usize) -> (b: Buffer)
        ensures
            b.wf(),
            b.pieces == pieces,
            b.piece_len == piece_len,
            forall|i: int, j: int|
                0 <= i < pieces && 0 <= j < piece_len ==> #[trigger] b.inner@[i]@[j] == 0,
    {
        let mut inner: Vec<Vec<u8>> = Vec::new();
        let mut i: usize = 0;
        while i < pieces
            invariant
                i <= pieces,
                inner@.len() == i,
                forall|a: int| 0 <= a < i ==> (#[trigger] inner@[a])@.len() == piece_len,
                forall|a: int, j: int|
                    0 <= a < i && 0 <= j < piece_len ==> #[trigger] inner@[a]@[j] == 0,
            decreases pieces - i,
        {
            let mut piece: Vec<u8> = Vec::new();
            let mut j: usize = 0;
            while j < piece_len
                invariant
                    j <= piece_len,
                    piece@.len() == j,
                    forall|k: int| 0 <= k < j ==> piece@[k] == 0,
                decreases piece_len - j,
            {
                piece.push(0);
                j += 1;
            }
            inner.push(piece);
            i += 1;
        }
        Buffer { inner, pieces, piece_len }
    }

    /// Writes `block` into piece `index` from `begin` on. A block for a
    /// piece that is not there, or one that does not fit in the piece, is
    /// refused as an invalid piece index, and nothing changes.
    pub fn write(&mut self, index: usize, begin: usize, block: &[u8]) -> (r: Result<
        (),
        GeneralError,
    >)
        requires
            old(self).wf(),
        ensures
            final(self).wf(),
            final(self).pieces == old(self).pieces,
            final(self).piece_len == old(self).piece_len,
            r is Ok <==> index < old(self).pieces && begin + block@.len() <= old(self).piece_len,
            r is Err ==> r == Err::<(), GeneralError>(GeneralError::InvalidPieceIdx)
                && final(self).inner == old(self).inner,
            r is Ok ==> final(self).inner@[index as int]@ == overwrite(
                old(self).inner@[index as int]@,
                begin as int,
                block@,
            ) && forall|i: int|
                0 <= i < old(self).pieces && i != index ==> final(self).inner@[i] == old(self).inner@[i],
    {
        if index >= self.pieces || begin > self.piece_len || block.len() > self.piece_len
            - begin {
            return Err(GeneralError::InvalidPieceIdx);
        }
        let ghost base = self.inner@[index as int]@;
        let mut i: usize = 0;
        while i < block.len()
            invariant
                i <= block@.len(),
                index < self.pieces,
                begin + block@.len() <= self.piece_len,
                self.pieces == old(self).pieces,
                self.piece_len == old(self).piece_len,
                self.inner@.len() == self.pieces,
                base == old(self).inner@[index as int]@,
                base.len() == self.piece_len,
                self.inner@[index as int]@.len() == self.piece_len,
                forall|j: int|
                    0 <= j < self.pieces && j != index ==> self.inner@[j] == old(self).inner@[j],
                forall|j: int|
                    0 <= j < self.piece_len ==> self.inner@[index as int]@[j] == (if begin <= j
                        < begin + i {
                        block@[j - begin]
                    } else {
                        base[j]
                    }),
            decreases block@.len() - i,
        {
            self.inner[index][begin + i] = block[i];
            i += 1;
        }
        proof {
            assert(self.inner@[index as int]@ =~= overwrite(base, begin as int, block@));
            assert forall|k: int| 0 <= k < self.pieces implies (#[trigger] self.inner@[k])@.len()
                == self.piece_len by {
                if k != index {
                    assert(self.inner@[k] == old(self).inner@[k]);
                }
            }
        }
        Ok(())
    }
}

/// What takes in the blocks that peers send.
#[derive(Clone, Debug, PartialEq, Eq)]
pub struct Writer {
    pub buffer: Buffer,
}

impl Writer {
    /// A writer over `buffer`.
    pub fn new(buffer: Buffer) -> (w: Writer)
        ensures
            w.buffer == buffer,
    {
        Writer { buffer }
    }

    /// Takes in a message from a peer: a block is written into the buffer,
    /// a cancel is passed over, and anything else is no business of the
    /// writer and is refused as an unexpected response.
    pub fn download(&mut self, message: &Message) -> (r: Result<(), GeneralError>)
        requires
            old(self).buffer.wf(),
        ensures
            final(self).buffer.wf(),
            final(self).buffer.pieces == old(self).buffer.pieces,
            final(self).buffer.piece_len == old(self).buffer.piece_len,
            match *message {
                Message::Piece { index, begin, block } => {
                    let fits = index < old(self).buffer.pieces && begin + block@.len() <= old(self).buffer.piece_len;
                    &&& r is Ok <==> fits
                    &&& !fits ==> r == Err::<(), GeneralError>(GeneralError::InvalidPieceIdx)
                        && final(self).buffer.inner == old(self).buffer.inner
                    &&& fits ==> final(self).buffer.inner@[index as int]@ == overwrite(
                        old(self).buffer.inner@[index as int]@,
                        begin as int,
                        block@,
                    )
                },
                Message::Cancel { .. } => r is Ok && final(self).buffer == old(self).buffer,
                _ => r matches Err(GeneralError::UnexpectedResponse(_)) && final(self).buffer
                    == old(self).buffer,
            },
    {
        match message {
            Message::Piece { index, begin, block } => self.buffer.write(
                *index as usize,
                *begin as usize,
                block.as_slice(),
            ),
            Message::Cancel { .. } => Ok(()),
            _ => Err(GeneralError::UnexpectedResponse(String::new())),
        }
    }
}

} // verus!
