use crate::container::bytes::{be_bytes, push_all, push_be};
use vstd::prelude::*;

verus! {

/// The FLAC STREAMINFO fields.
pub struct StreamInfo {
    pub min_block_size: u16,
    pub max_block_size: u16,
    pub min_frame_size: u32,
    pub max_frame_size: u32,
    pub sample_rate: u32,
    pub channels: u8,
    pub bit_depth: u8,
    pub total_samples: u64,
    pub md5: [u8; 16],
}

/// The 64-bit field of STREAMINFO: the sample rate in 20 bits, the channel count less one in
/// 3, the bit depth less one in 5 and the total sample count in 36.
pub open spec fn packed_fields(rate: u32, channels: u8, depth: u8, total: u64) -> nat {
    (rate as nat % 0x10_0000) * 0x1000_0000_0000 + ((channels - 1) as nat % 8) * 0x200_0000_0000 + ((
    depth - 1) as nat % 32) * 0x10_0000_0000 + total as nat % 0x10_0000_0000
}

/// The packed field of a STREAMINFO value.
pub open spec fn streaminfo_packed(si: StreamInfo) -> nat {
    packed_fields(si.sample_rate, si.channels, si.bit_depth, si.total_samples)
}

/// A STREAMINFO block body from its fields: block sizes in 2 bytes, frame sizes in 3 (their
/// low 24 bits), the packed field in 8, and the MD5.
pub open spec fn streaminfo_fields(
    min_block: u16,
    max_block: u16,
    min_frame: u32,
    max_frame: u32,
    rate: u32,
    channels: u8,
    depth: u8,
    total: u64,
    md5: Seq<u8>,
) -> Seq<u8> {
    be_bytes(min_block as nat, 2) + be_bytes(max_block as nat, 2) + be_bytes(min_frame as nat, 3)
        + be_bytes(max_frame as nat, 3) + be_bytes(packed_fields(rate, channels, depth, total), 8) + md5
}

/// A serialized STREAMINFO block body, as `streaminfo_fields` says of its fields.
pub open spec fn streaminfo_bytes(si: StreamInfo) -> Seq<u8> {
    streaminfo_fields(
        si.min_block_size,
        si.max_block_size,
        si.min_frame_size,
        si.max_frame_size,
        si.sample_rate,
        si.channels,
        si.bit_depth,
        si.total_samples,
        si.md5@,
    )
}

/// A FLAC metadata block header: the last-block flag and the 7-bit type in one byte, then
/// the low 24 bits of the length.
pub open spec fn block_header_bytes(is_last: bool, block_type: u8, length: u32) -> Seq<u8> {
    seq![((block_type as nat % 128) + if is_last {
        128nat
    } else {
        0nat
    }) as u8] + be_bytes(length as nat, 3)
}

/// A STREAMINFO body has 34 bytes.
pub proof fn lemma_streaminfo_len(si: StreamInfo)
    ensures
        streaminfo_bytes(si).len() == 34,
{
    crate::container::bytes::lemma_be_bytes_len(si.min_block_size as nat, 2);
    crate::container::bytes::lemma_be_bytes_len(si.max_block_size as nat, 2);
    crate::container::bytes::lemma_be_bytes_len(si.min_frame_size as nat, 3);
    crate::container::bytes::lemma_be_bytes_len(si.max_frame_size as nat, 3);
    crate::container::bytes::lemma_be_bytes_len(streaminfo_packed(si), 8);
}

impl StreamInfo {
    /// Appends the block body to `out` as `streaminfo_bytes` says.
    pub fn serialize(&self, out: &mut Vec<u8>)
        requires
            self.channels >= 1,
            self.bit_depth >= 1,
        ensures
            final(out)@ == old(out)@ + streaminfo_bytes(*self),
    {
        push_be(out, self.min_block_size as u64, 2);
        push_be(out, self.max_block_size as u64, 2);
        push_be(out, self.min_frame_size as u64, 3);
        push_be(out, self.max_frame_size as u64, 3);
        let mut packed = 0u64;
        packed = packed | ((self.sample_rate as u64 & 0xFFFFF) << 44);
        packed = packed | (((self.channels as u64 - 1) & 0x7) << 41);
        packed = packed | (((self.bit_depth as u64 - 1) & 0x1F) << 36);
        packed = packed | (self.total_samples & 0xFFFFFFFFF);
        proof {
            let sr = self.sample_rate as u64;
            let ch = (self.channels as u64 - 1) as u64;
            let bd = (self.bit_depth as u64 - 1) as u64;
            let ts = self.total_samples;
            assert(ch < 256 && bd < 256 ==> ((((0u64 | ((sr & 0xFFFFFu64) << 44u64)) | ((ch & 0x7u64)
                << 41u64)) | ((bd & 0x1Fu64) << 36u64)) | (ts & 0xFFFFFFFFFu64)) == (sr % 0x10_0000)
                * 0x1000_0000_0000 + (ch % 8) * 0x200_0000_0000 + (bd % 32) * 0x10_0000_0000 + ts
                % 0x10_0000_0000) by (bit_vector);
        }
        push_be(out, packed, 8);
        push_all(out, self.md5.as_slice());
        proof {
            assert(final(out)@ =~= old(out)@ + streaminfo_bytes(*self));
        }
    }
}

/// Appends a FLAC metadata block header as `block_header_bytes` says.
pub fn write_metadata_block_header(out: &mut Vec<u8>, is_last: bool, block_type: u8, length: u32)
    ensures
        final(out)@ == old(out)@ + block_header_bytes(is_last, block_type, length),
{
    let flag: u8 = if is_last {
        0x80
    } else {
        0x00
    };
    proof {
        assert((block_type & 0x7Fu8) == block_type % 128 && (block_type & 0x7Fu8) < 128 && ((block_type
            & 0x7Fu8) | 0x80u8) == (block_type & 0x7Fu8) + 128 && ((block_type & 0x7Fu8) | 0x00u8) == (
        block_type & 0x7Fu8)) by (bit_vector);
    }
    out.push((block_type & 0x7F) | flag);
    push_be(out, length as u64, 3);
    proof {
        assert(final(out)@ =~= old(out)@ + block_header_bytes(is_last, block_type, length));
    }
}

} // verus!
