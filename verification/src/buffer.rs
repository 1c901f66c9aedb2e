//! Bytes that have arrived and wait to be read as frames.
//!
//! A connection delivers bytes in chunks that know nothing of frames. The
//! buffer collects the chunks and hands out each message as soon as its frame
//! is complete.

use crate::codec::{decode, decoded, lemma_decoded_within};
use crate::error::FramingError;
use crate::message::Message;
use bytes::{Buf, BytesMut};
use vstd::prelude::*;

verus! {

/// `bytes::BytesMut`, carried as an opaque value: nothing is known of it
/// but what the functions below say of the bytes that it holds.
#[verifier::external_type_specification]
#[verifier::external_body]
pub struct ExBytesMut(bytes::BytesMut);

/// The bytes that a `BytesMut` holds, oldest first.
pub uninterp spec fn held(b: BytesMut) -> Seq<u8>;

/// `BytesMut::with_capacity`: the new buffer holds nothing, whatever room it
/// has set aside.
#[verifier::external_body]
fn bytes_with_capacity(capacity: usize) -> (b: BytesMut)
    requires
        capacity <= isize::MAX,
    ensures
        held(b) == Seq::<u8>::empty(),
{
    BytesMut::with_capacity(capacity)
}

/// `BytesMut::len`: the number of bytes held.
#[verifier::external_body]
fn bytes_len(b: &BytesMut) -> (n: usize)
    ensures
        n == held(*b).len(),
{
    b.len()
}

/// `BytesMut::extend_from_slice`: the bytes of `chunk` follow those already
/// held. The buffer grows as needed, which can only fail past `isize::MAX`
/// bytes.
#[verifier::external_body]
fn bytes_extend_from_slice(b: &mut BytesMut, chunk: &[u8])
    requires
        held(*old(b)).len() + chunk@.len() <= isize::MAX,
    ensures
        held(*final(b)) == held(*old(b)) + chunk@,
{
    b.extend_from_slice(chunk)
}

/// `AsRef<[u8]>` of `BytesMut`: the bytes held, as a slice.
#[verifier::external_body]
fn bytes_as_ref(b: &BytesMut) -> (s: &[u8])
    ensures
        s@ == held(*b),
{
    b.as_ref()
}

/// `Buf::advance` of `BytesMut`: the first `n` bytes leave, the others stay
/// in order.
#[verifier::external_body]
fn bytes_advance(b: &mut BytesMut, n: usize)
    requires
        n <= held(*old(b)).len(),
    ensures
        held(*final(b)) == held(*old(b)).skip(n as int),
{
    b.advance(n)
}

/// The read side's store of bytes not yet consumed.
pub struct FrameBuffer {
    data: BytesMut,
}

impl View for FrameBuffer {
    type V = Seq<u8>;

    closed spec fn view(&self) -> Seq<u8> {
        held(self.data)
    }
}

/// Room set aside when a buffer is made.
pub const INITIAL_CAPACITY: usize = 1024;

impl FrameBuffer {
    /// An empty buffer.
    pub fn new() -> (b: FrameBuffer)
        ensures
            b@ == Seq::<u8>::empty(),
    {
        FrameBuffer { data: bytes_with_capacity(INITIAL_CAPACITY) }
    }

    /// The number of bytes waiting.
    pub fn len(&self) -> (n: usize)
        ensures
            n == self@.len(),
    {
        bytes_len(&self.data)
    }

    /// Takes in a chunk that arrived. Returns `false`, and takes nothing,
    /// when the buffer would grow past what memory can address.
    pub fn extend(&mut self, chunk: &[u8]) -> (fits: bool)
        ensures
            fits == (old(self)@.len() + chunk@.len() <= isize::MAX),
            final(self)@ == if fits {
                old(self)@ + chunk@
            } else {
                old(self)@
            },
    {
        let len = bytes_len(&self.data);
        let most = isize::MAX as usize;
        if len > most || chunk.len() > most - len {
            return false;
        }
        bytes_extend_from_slice(&mut self.data, chunk);
        true
    }

    /// Hands out the next message if its frame is complete, and drops the
    /// frame from the buffer. `Ok(None)` means that more bytes are needed; an
    /// error means that the waiting bytes can never be read as a frame. In
    /// both cases the buffer is left as it was.
    pub fn next_message(&mut self) -> (r: Result<Option<Message>, FramingError>)
        ensures
            match decoded(old(self)@) {
                Ok((m, used)) => {
                    &&& r matches Ok(Some(msg))
                    &&& msg@ == m
                    &&& final(self)@ == old(self)@.skip(used)
                },
                Err(FramingError::Truncated) => r == Ok::<Option<Message>, FramingError>(None)
                    && final(self)@ == old(self)@,
                Err(e) => r == Err::<Option<Message>, FramingError>(e) && final(self)@ == old(
                    self,
                )@,
            },
    {
        match decode(bytes_as_ref(&self.data)) {
            Ok((msg, used)) => {
                proof {
                    lemma_decoded_within(self@);
                }
                bytes_advance(&mut self.data, used);
                Ok(Some(msg))
            },
            Err(FramingError::Truncated) => Ok(None),
            Err(e) => Err(e),
        }
    }
}

} // verus!
