//! Cutting a byte stream into frames.
//!
//! The caller reads from the socket and feeds what arrived; `FrameReader`
//! keeps the bytes in a `BytesMut` and hands out one parsed frame at a time.

use vstd::prelude::*;
use bytes::{Buf, BytesMut};
use core::marker::PhantomData;

verus! {

/// Why no frame came out.
#[derive(Clone, Copy, Debug, PartialEq, Eq, Structural)]
pub enum ParseError {
    /// The bytes so far do not hold a whole frame.
    Incomplete,
    /// The frame announces more bytes than the cap admits.
    TooLong,
    /// The message id is none of the protocol's.
    UnknownId,
    /// The payload has not the length that its message id asks for.
    BadLength,
    /// The handshake does not name the BitTorrent protocol.
    BadProtocol,
    /// A bitfield has a bit set behind the last piece.
    SpareBits,
    /// The handshake is for another torrent.
    WrongTorrent,
}

/// Default cap on the length of a frame (1 MiB).
pub const DEFAULT_FRAME_CAP: usize = 0x10_0000;

/// The cap on frames for a torrent with pieces of `piece_size` bytes: the
/// default, or more where a whole piece with its header would not fit.
pub fn cap_for(piece_size: usize) -> (cap: usize)
    ensures
        cap >= DEFAULT_FRAME_CAP,
        piece_size + 13 < usize::MAX ==> cap > piece_size + 13,
        cap == if piece_size + 13 < DEFAULT_FRAME_CAP {
            DEFAULT_FRAME_CAP as int
        } else if piece_size + 13 < usize::MAX {
            piece_size + 14
        } else {
            usize::MAX as int
        },
{
    if piece_size < DEFAULT_FRAME_CAP - 13 {
        DEFAULT_FRAME_CAP
    } else if piece_size < usize::MAX - 13 {
        piece_size + 14
    } else {
        usize::MAX
    }
}

/// Most bytes that a reader holds at a time.
pub const BUFFER_LIMIT: usize = 0x4000_0000;

/// Something that travels as a frame: `check` says where the frame at the
/// start of a buffer ends, `parse` reads exactly one frame.
pub trait ParseCheck: Sized + View {
    /// The length of the frame that starts `s`, header included.
    spec fn frame_len(s: Seq<u8>, cap: nat) -> Result<nat, ParseError>;

    /// What the frame `frame` holds.
    spec fn frame_value(frame: Seq<u8>) -> Result<Self::V, ParseError>;

    /// Where the frame at the start of `buf` ends, if all of it has arrived
    /// and it is no longer than `cap`.
    fn check(buf: &[u8], cap: usize) -> (r: Result<usize, ParseError>)
        ensures
            r matches Ok(n) ==> Self::frame_len(buf@, cap as nat) == Ok::<nat, ParseError>(
                n as nat,
            ) && n <= buf@.len(),
            r matches Err(e) ==> Self::frame_len(buf@, cap as nat) == Err::<nat, ParseError>(e),
    ;

    /// Reads the one frame that `frame` is.
    fn parse(frame: &[u8]) -> (r: Result<Self, ParseError>)
        ensures
            r matches Ok(m) ==> Self::frame_value(frame@) == Ok::<Self::V, ParseError>(m@),
            r matches Err(e) ==> Self::frame_value(frame@) == Err::<Self::V, ParseError>(e),
    ;
}

/// `bytes::BytesMut`, the buffer in which arriving bytes wait. Nothing is
/// known of such a value but what `buffered` says it holds.
#[verifier::external_type_specification]
#[verifier::external_body]
pub struct ExBytesMut(BytesMut);

/// The bytes that a `BytesMut` holds, first to last.
pub uninterp spec fn buffered(b: BytesMut) -> Seq<u8>;

/// `BytesMut::with_capacity`: an empty buffer.
#[verifier::external_body]
fn buffer_new(capacity: usize) -> (b: BytesMut)
    ensures
        buffered(b) == Seq::<u8>::empty(),
{
    BytesMut::with_capacity(capacity)
}

/// `BytesMut::len`: the number of bytes held.
#[verifier::external_body]
fn buffer_len(b: &BytesMut) -> (n: usize)
    ensures
        n == buffered(*b).len(),
{
    b.len()
}

/// `BytesMut::extend_from_slice`: appends `data` behind the bytes held. It
/// grows the buffer as a `Vec` grows, so the sum of the lengths is kept far
/// below what an allocation can hold.
#[verifier::external_body]
fn buffer_extend(b: &mut BytesMut, data: &[u8])
    requires
        buffered(*old(b)).len() + data@.len() <= BUFFER_LIMIT,
    ensures
        buffered(*final(b)) == buffered(*old(b)) + data@,
{
    b.extend_from_slice(data);
}

/// `Buf::advance` on `BytesMut`: drops the first `n` bytes. It panics where
/// fewer are held.
#[verifier::external_body]
fn buffer_advance(b: &mut BytesMut, n: usize)
    requires
        n <= buffered(*old(b)).len(),
    ensures
        buffered(*final(b)) == buffered(*old(b)).skip(n as int),
{
    b.advance(n);
}

/// `Deref` of `BytesMut`: the bytes held, as a slice.
#[verifier::external_body]
fn buffer_bytes(b: &BytesMut) -> (s: &[u8])
    ensures
        s@ == buffered(*b),
{
    &b[..]
}

/// A buffer of received bytes that yields frames of type `T`.
pub struct FrameReader<T> {
    pub buffer: BytesMut,
    pub cap: usize,
    pub item: PhantomData<T>,
}

/// What one look at the buffer gives: no whole frame yet, or a frame and the
/// bytes left behind it, or a violation of the protocol.
pub open spec fn next_frame<T: ParseCheck>(s: Seq<u8>, cap: nat) -> Result<
    Option<(T::V, Seq<u8>)>,
    ParseError,
> {
    match T::frame_len(s, cap) {
        Err(ParseError::Incomplete) => Ok(None),
        Err(e) => Err(e),
        Ok(n) => match T::frame_value(s.take(n as int)) {
            Err(e) => Err(e),
            Ok(v) => Ok(Some((v, s.skip(n as int)))),
        },
    }
}

impl<T: ParseCheck> FrameReader<T> {
    /// The bytes received and not yet handed out.
    pub open spec fn pending(&self) -> Seq<u8> {
        buffered(self.buffer)
    }

    /// The reader holds no more than `BUFFER_LIMIT` bytes.
    pub open spec fn wf(&self) -> bool {
        self.pending().len() <= BUFFER_LIMIT
    }

    /// A reader that holds nothing and admits frames of up to `cap` bytes.
    pub fn new(cap: usize) -> (r: Self)
        ensures
            r.wf(),
            r.pending() == Seq::<u8>::empty(),
            r.cap == cap,
    {
        FrameReader { buffer: buffer_new(1024), cap, item: PhantomData }
    }

    /// A reader for another kind of frame that goes on where this one
    /// stopped.
    pub fn switch<U: ParseCheck>(self) -> (r: FrameReader<U>)
        requires
            self.wf(),
        ensures
            r.wf(),
            r.pending() == self.pending(),
            r.cap == self.cap,
    {
        FrameReader { buffer: self.buffer, cap: self.cap, item: PhantomData }
    }

    /// Takes in bytes that arrived. Bytes that would take the buffer over
    /// its limit are refused, and the buffer stays as it is.
    pub fn feed(&mut self, data: &[u8]) -> (r: Result<(), ParseError>)
        requires
            old(self).wf(),
        ensures
            final(self).wf(),
            final(self).cap == old(self).cap,
            r is Ok <==> old(self).pending().len() + data@.len() <= BUFFER_LIMIT,
            r is Ok ==> final(self).pending() == old(self).pending() + data@,
            r is Err ==> r == Err::<(), ParseError>(ParseError::TooLong) && final(self).pending()
                == old(self).pending(),
    {
        let held: usize = buffer_len(&self.buffer);
        if data.len() > BUFFER_LIMIT - held {
            return Err(ParseError::TooLong);
        }
        buffer_extend(&mut self.buffer, data);
        Ok(())
    }

    /// Whether nothing is left in the buffer.
    pub fn is_empty(&self) -> (r: bool)
        ensures
            r == (self.pending().len() == 0),
    {
        buffer_len(&self.buffer) == 0
    }

    /// What the end of the stream means: a clean end where nothing is left
    /// in the buffer, a frame cut short where bytes are.
    pub fn at_end(&self) -> (r: Result<(), ParseError>)
        ensures
            r is Ok <==> self.pending().len() == 0,
            r is Err ==> r == Err::<(), ParseError>(ParseError::Incomplete),
    {
        if buffer_len(&self.buffer) == 0 {
            Ok(())
        } else {
            Err(ParseError::Incomplete)
        }
    }

    /// Takes the next frame out of the buffer, if a whole one is there. On a
    /// violation, and while the frame is incomplete, the buffer stays as it
    /// is.
    pub fn parse_frame(&mut self) -> (r: Result<Option<T>, ParseError>)
        requires
            old(self).wf(),
        ensures
            final(self).wf(),
            final(self).cap == old(self).cap,
            match next_frame::<T>(old(self).pending(), old(self).cap as nat) {
                Ok(Some((v, rest))) => r matches Ok(Some(m)) && m@ == v && final(self).pending()
                    == rest,
                Ok(None) => r matches Ok(None) && final(self).pending() == old(self).pending(),
                Err(e) => r == Err::<Option<T>, ParseError>(e) && final(self).pending() == old(
                    self,
                ).pending(),
            },
    {
        let bytes = buffer_bytes(&self.buffer);
        let n: usize = match T::check(bytes, self.cap) {
            Ok(n) => n,
            Err(ParseError::Incomplete) => {
                return Ok(None);
            },
            Err(e) => {
                return Err(e);
            },
        };
        let frame = vstd::slice::slice_subrange(bytes, 0, n);
        assert(frame@ =~= bytes@.take(n as int));
        let message = T::parse(frame)?;
        buffer_advance(&mut self.buffer, n);
        Ok(Some(message))
    }
}

} // verus!
