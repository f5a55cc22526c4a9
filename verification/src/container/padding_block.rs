use crate::container::bytes::{be_bytes, push_be};
use crate::error::LoomError;
use vstd::prelude::*;

verus! {

/// A block of zero padding.
#[derive(Clone, Debug, PartialEq, Eq, Structural)]
pub struct PaddingBlock {
    pub length: u32,
}

/// A serialized padding block: the byte 4, the length in 4 big-endian bytes, and that many
/// zero bytes.
pub open spec fn padding_bytes(length: u32) -> Seq<u8> {
    seq![4u8] + be_bytes(length as nat, 4) + Seq::new(length as nat, |i: int| 0u8)
}

impl PaddingBlock {
    pub fn new(length: u32) -> (r: Self)
        ensures
            r.length == length,
    {
        PaddingBlock { length }
    }

    /// Appends the block to `out` as `padding_bytes` says.
    pub fn serialize(&self, out: &mut Vec<u8>)
        ensures
            final(out)@ == old(out)@ + padding_bytes(self.length),
    {
        out.push(0x04);
        push_be(out, self.length as u64, 4);
        let ghost head = out@;
        let mut i: u32 = 0;
        while i < self.length
            invariant
                i <= self.length,
                out@ == head + Seq::new(i as nat, |j: int| 0u8),
            decreases self.length - i,
        {
            out.push(0);
            proof {
                assert(out@ =~= head + Seq::new((i + 1) as nat, |j: int| 0u8));
            }
            i = i + 1;
        }
        proof {
            assert(final(out)@ =~= old(out)@ + padding_bytes(self.length));
        }
    }

    /// Skips `length` padding bytes at `pos` of `data`: too few is an unexpected end.
    /// Gives the block and the position after it.
    pub fn deserialize(data: &[u8], pos: usize, length: u32) -> (r: Result<(Self, usize), LoomError>)
        ensures
            pos + length <= data@.len() ==> r == Ok::<(Self, usize), LoomError>(
                (PaddingBlock { length }, (pos + length) as usize),
            ),
            pos + length > data@.len() ==> r == Err::<(Self, usize), LoomError>(
                LoomError::UnexpectedEof,
            ),
    {
        if pos > data.len() || ((data.len() - pos) as u64) < (length as u64) {
            return Err(LoomError::UnexpectedEof);
        }
        Ok((PaddingBlock { length }, pos + length as usize))
    }
}

} // verus!
