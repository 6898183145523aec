use vstd::prelude::*;

use crate::codec::{append_bytes, copy_range, decode};
use crate::frame::{spec_decode, view_of, Decoded, Frame, FrameError, Parsed};

verus! {

/// Accumulates the bytes read from a connection and takes whole frames off
/// the front; what is left of a frame stays buffered across reads.
pub struct FrameDecoder {
    buffer: Vec<u8>,
}

impl View for FrameDecoder {
    type V = Seq<u8>;

    /// The bytes received and not yet taken as frames.
    closed spec fn view(&self) -> Seq<u8> {
        self.buffer@
    }
}

/// What the decoder answers when the stream ends with `buffered` left over:
/// a clean close when nothing is left, else a frame cut short.
pub open spec fn stream_end_is_clean(buffered: Seq<u8>) -> bool {
    buffered.len() == 0
}

impl FrameDecoder {
    pub fn new() -> (r: Self)
        ensures
            r@ == Seq::<u8>::empty(),
    {
        FrameDecoder { buffer: Vec::new() }
    }

    /// Number of bytes waiting to be decoded.
    pub fn buffered_len(&self) -> (r: usize)
        ensures
            r == self@.len(),
    {
        self.buffer.len()
    }

    /// Appends bytes that were read from the stream.
    pub fn receive(&mut self, data: &[u8])
        ensures
            final(self)@ == old(self)@ + data@,
    {
        append_bytes(&mut self.buffer, data);
    }

    /// Takes the frame at the front of the buffer, if a whole one is there.
    /// An incomplete frame leaves the buffer as it was; so does a malformed one,
    /// which is reported as an error.
    pub fn parse_frame(&mut self) -> (r: Result<Option<Frame>, FrameError>)
        ensures
            match spec_decode(old(self)@) {
                Parsed::Complete(v, n) => r matches Ok(Some(f)) && view_of(f) == v && final(self)@
                    == old(self)@.skip(n),
                Parsed::Incomplete => r matches Ok(None) && final(self)@ == old(self)@,
                Parsed::Malformed => r matches Err(FrameError::Malformed) && final(self)@ == old(
                    self,
                )@,
            },
    {
        match decode(self.buffer.as_slice()) {
            Decoded::Complete(f, n) => {
                let rest = copy_range(self.buffer.as_slice(), n, self.buffer.len());
                assert(rest@ =~= old(self)@.skip(n as int));
                self.buffer = rest;
                Ok(Some(f))
            },
            Decoded::Incomplete => Ok(None),
            Decoded::Malformed => Err(FrameError::Malformed),
        }
    }

    /// What reading a frame comes to when the stream has ended: no frame when
    /// the buffer is empty, else the error of a frame cut short.
    pub fn end_of_stream(&self) -> (r: Result<Option<Frame>, FrameError>)
        ensures
            stream_end_is_clean(self@) ==> r matches Ok(None),
            !stream_end_is_clean(self@) ==> r matches Err(FrameError::ConnectionReset),
    {
        if self.buffer.len() == 0 {
            Ok(None)
        } else {
            Err(FrameError::ConnectionReset)
        }
    }
}

} // verus!
