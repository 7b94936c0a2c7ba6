//! The messages of the ttcp transmitter.

use vstd::prelude::*;

verus! {

/// The four bytes of `x`, most significant first.
pub open spec fn be_bytes_u32(x: u32) -> Seq<u8> {
    seq![(x >> 24u32) as u8, (x >> 16u32) as u8, (x >> 8u32) as u8, x as u8]
}

/// One ttcp message: the payload length as a big-endian 32-bit integer
/// (the length cut to its low 32 bits, as `as i32` does), then that many
/// zero bytes.
pub fn ttcp_message(buf_length: usize) -> (msg: Vec<u8>)
    requires
        buf_length + 4 <= usize::MAX,
    ensures
        msg@ == be_bytes_u32(buf_length as u32) + Seq::new(buf_length as nat, |k: int| 0u8),
{
    let len32 = buf_length as u32;
    let mut msg: Vec<u8> = Vec::with_capacity(buf_length + 4);
    msg.push((len32 >> 24u32) as u8);
    msg.push((len32 >> 16u32) as u8);
    msg.push((len32 >> 8u32) as u8);
    msg.push(len32 as u8);
    let ghost header = msg@;
    assert(header =~= be_bytes_u32(buf_length as u32));
    let mut i: usize = 0;
    while i < buf_length
        invariant
            i <= buf_length,
            header == be_bytes_u32(buf_length as u32),
            msg@ == header + Seq::new(i as nat, |k: int| 0u8),
        decreases buf_length - i,
    {
        msg.push(0u8);
        i = i + 1;
        proof {
            assert(msg@ =~= header + Seq::new(i as nat, |k: int| 0u8));
        }
    }
    msg
}

} // verus!
