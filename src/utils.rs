use vstd::prelude::*;

use crate::bytes::{append_bytes, copy_range};

verus! {

/// The byte handling of a datagram codec: each received datagram is kept
/// whole, and each datagram to send is written out whole.
pub struct DgramCodec;

impl DgramCodec {
    /// The datagram received in `buf`.
    pub fn decode(&mut self, buf: &[u8]) -> (r: Vec<u8>)
        ensures
            r@ == buf@,
    {
        let r = copy_range(buf, 0, buf.len());
        assert(buf@.subrange(0, buf@.len() as int) =~= buf@);
        r
    }

    /// Write `dgram` into the send buffer `buf`.
    pub fn encode(&mut self, dgram: &[u8], buf: &mut Vec<u8>)
        ensures
            final(buf)@ == old(buf)@ + dgram@,
    {
        append_bytes(buf, dgram);
    }
}

} // verus!
