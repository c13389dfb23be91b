use vstd::prelude::*;

pub mod cache;
pub mod chunked;
pub mod chunkmap;
pub mod convolve;
pub mod frame;
pub mod index;
pub mod model;
pub mod store;
pub mod varint;

verus! {

/// A record codec: each record is encoded on its own, and the decoder is
/// handed the encoder's output for one record at a time, in order.
pub trait Compressor {
    /// The codec's state is consistent.
    spec fn valid(&self) -> bool;

    /// Encodes one record, appending the result to `out_buf`.
    fn encode(&mut self, in_buf: &[u8], out_buf: &mut Vec<u8>)
        requires
            old(self).valid(),
        ensures
            final(self).valid(),
    ;

    /// Decodes one record, appending it to `out_buf`.
    fn decode(&mut self, in_buf: &[u8], out_buf: &mut Vec<u8>) -> (r: Result<(), CodecError>)
        requires
            old(self).valid(),
        ensures
            final(self).valid(),
    ;
}

/// Errors reported while decoding a compressed record.
#[derive(Debug, Clone, Copy, PartialEq, Eq, Structural)]
pub enum CodecError {
    /// The bytes do not follow the wire grammar: a bad varint, a length that
    /// runs past the input, or bytes left over after the last block.
    Malformed,
    /// A block refers to history that this side does not hold.
    DesyncState,
}

} // verus!
