use md5::{Digest, Md5};
use vstd::prelude::*;
use vstd::std_specs::bits::u64_trailing_zeros;

verus! {

/// The MD5 digest of `data` (16 bytes).
pub uninterp spec fn md5_of(data: Seq<u8>) -> Seq<u8>;

/// `Md5::digest` of the md-5 crate: the MD5 digest of the bytes. Its contract names the
/// result `md5_of(data)` and says nothing more of it.
#[verifier::external_body]
pub(crate) fn md5_digest(data: &[u8]) -> (r: [u8; 16])
    ensures
        r@ == md5_of(data@),
{
    Md5::digest(data).into()
}

/// Byte `k` (little endian) of `x` in two's complement.
pub open spec fn le_byte(x: i64, k: nat) -> u8 {
    ((x as u64) >> ((8 * k) as u64)) as u8
}

/// How many bytes a sample of `bit_depth` bits takes in the checksummed PCM: 2, 3 or 4 for
/// 16, 24 and 32 bits, 8 for any other depth.
pub open spec fn pcm_width(bit_depth: u8) -> nat {
    if bit_depth == 16 {
        2
    } else if bit_depth == 24 {
        3
    } else if bit_depth == 32 {
        4
    } else {
        8
    }
}

/// The PCM bytes a track's checksum covers: each interleaved sample, truncated to the
/// width and little endian.
pub open spec fn pcm_bytes(samples: Seq<i64>, bit_depth: u8) -> Seq<u8>
    decreases samples.len(),
{
    if samples.len() == 0 {
        Seq::empty()
    } else {
        pcm_bytes(samples.drop_last(), bit_depth) + Seq::new(
            pcm_width(bit_depth),
            |k: int| le_byte(samples.last(), k as nat),
        )
    }
}

/// The bytes the checksum covers, laid out: each sample in turn takes 2 bytes at 16 bits,
/// 3 at 24, 4 at 32 and 8 at any other depth, least significant first, so that sample `i`
/// is bytes `w * i .. w * (i + 1)` of the whole, `w` the bytes per sample.
pub proof fn lemma_pcm_bytes_layout(samples: Seq<i64>, bit_depth: u8)
    ensures
        ({
            let w: int = if bit_depth == 16 {
                2
            } else if bit_depth == 24 {
                3
            } else if bit_depth == 32 {
                4
            } else {
                8
            };
            &&& pcm_bytes(samples, bit_depth).len() == w * samples.len()
            &&& forall|i: int|
                0 <= i < samples.len() ==> pcm_bytes(samples, bit_depth).subrange(w * i, w * i + w) == Seq::new(
                    w as nat,
                    |k: int| ((#[trigger] samples[i] as u64) >> ((8 * k) as u64)) as u8,
                )
        }),
    decreases samples.len(),
{
    let w: int = if bit_depth == 16 {
        2
    } else if bit_depth == 24 {
        3
    } else if bit_depth == 32 {
        4
    } else {
        8
    };
    assert(w == pcm_width(bit_depth));
    if samples.len() > 0 {
        let init = samples.drop_last();
        lemma_pcm_bytes_layout(init, bit_depth);
        let n = init.len();
        let whole = pcm_bytes(samples, bit_depth);
        let head = pcm_bytes(init, bit_depth);
        let tail = Seq::new(pcm_width(bit_depth), |k: int| le_byte(samples.last(), k as nat));
        assert(whole == head + tail);
        assert(whole.len() == w * samples.len()) by (nonlinear_arith)
            requires
                whole.len() == head.len() + w,
                head.len() == w * n,
                samples.len() == n + 1,
        ;
        assert forall|i: int| 0 <= i < samples.len() implies whole.subrange(w * i, w * i + w) == Seq::new(
            w as nat,
            |k: int| ((#[trigger] samples[i] as u64) >> ((8 * k) as u64)) as u8,
        ) by {
            if i < n {
                assert(w * i + w <= w * n) by (nonlinear_arith)
                    requires
                        0 <= i < n,
                        w > 0,
                ;
                assert(w * i >= 0) by (nonlinear_arith)
                    requires
                        0 <= i,
                        w > 0,
                ;
                assert(samples[i] == init[i]);
                assert(whole.subrange(w * i, w * i + w) =~= head.subrange(w * i, w * i + w));
            } else {
                assert(w * i == w * n) by (nonlinear_arith)
                    requires
                        i == n,
                ;
                assert(samples.last() == samples[i]);
                assert(whole.subrange(w * i, w * i + w) =~= tail);
                assert(tail =~= Seq::new(w as nat, |k: int| ((samples[i] as u64) >> ((8 * k) as u64)) as u8));
            }
        }
    } else {
        assert(pcm_bytes(samples, bit_depth).len() == 0);
    }
}

fn le_bytes(x: i64, width: usize, out: &mut Vec<u8>)
    requires
        width <= 8,
    ensures
        final(out)@ == old(out)@ + Seq::new(width as nat, |k: int| le_byte(x, k as nat)),
{
    let u = x as u64;
    let mut k: usize = 0;
    while k < width
        invariant
            k <= width <= 8,
            u == x as u64,
            out@ =~= old(out)@ + Seq::new(k as nat, |j: int| le_byte(x, j as nat)),
        decreases width - k,
    {
        out.push((u >> ((8 * k) as u64)) as u8);
        k = k + 1;
    }
}

/// The MD5 checksum of interleaved PCM at `bit_depth`, as FLAC stores it.
pub fn compute_pcm_md5(interleaved_samples: &[i64], bit_depth: u8) -> (r: [u8; 16])
    ensures
        r@ == md5_of(pcm_bytes(interleaved_samples@, bit_depth)),
{
    let width: usize = if bit_depth == 16 {
        2
    } else if bit_depth == 24 {
        3
    } else if bit_depth == 32 {
        4
    } else {
        8
    };
    let mut bytes: Vec<u8> = Vec::new();
    let mut i: usize = 0;
    proof {
        assert(interleaved_samples@.take(0) =~= Seq::<i64>::empty());
    }
    while i < interleaved_samples.len()
        invariant
            i <= interleaved_samples@.len(),
            width == pcm_width(bit_depth),
            bytes@ == pcm_bytes(interleaved_samples@.take(i as int), bit_depth),
        decreases interleaved_samples@.len() - i,
    {
        proof {
            assert(interleaved_samples@.take(i + 1).drop_last() =~= interleaved_samples@.take(i as int));
        }
        le_bytes(interleaved_samples[i], width, &mut bytes);
        i = i + 1;
    }
    proof {
        assert(interleaved_samples@.take(interleaved_samples@.len() as int) =~= interleaved_samples@);
    }
    md5_digest(bytes.as_slice())
}

/// Whether a computed checksum matches the stored one.
pub fn verify_stream(computed: &[u8; 16], stored: &[u8; 16]) -> (r: bool)
    ensures
        r == (computed@ == stored@),
{
    let mut i: usize = 0;
    while i < 16
        invariant
            i <= 16,
            computed@.len() == 16,
            stored@.len() == 16,
            forall|j: int| 0 <= j < i ==> computed@[j] == stored@[j],
        decreases 16 - i,
    {
        if computed[i] != stored[i] {
            return false;
        }
        i = i + 1;
    }
    proof {
        assert(computed@ =~= stored@);
    }
    true
}

/// The fewest trailing zero bits among the nonzero samples (64 when there is none).
pub open spec fn min_trailing_zeros(s: Seq<i64>) -> nat
    decreases s.len(),
{
    if s.len() == 0 {
        64
    } else {
        let m = min_trailing_zeros(s.drop_last());
        if s.last() != 0 && (u64_trailing_zeros(s.last() as u64) as nat) < m {
            u64_trailing_zeros(s.last() as u64) as nat
        } else {
            m
        }
    }
}

/// The bits every sample has zero at the bottom: the fewest trailing zeros among the
/// nonzero samples, 0 when every sample is zero.
pub open spec fn wasted_bits_spec(s: Seq<i64>) -> nat {
    if min_trailing_zeros(s) == 64 {
        0
    } else {
        min_trailing_zeros(s)
    }
}

proof fn lemma_min_tz_bound(s: Seq<i64>)
    ensures
        min_trailing_zeros(s) <= 64,
    decreases s.len(),
{
    if s.len() > 0 {
        lemma_min_tz_bound(s.drop_last());
    }
}

/// How many low bits are zero in every sample.
pub fn compute_wasted_bits(samples: &[i64]) -> (r: u8)
    ensures
        r == wasted_bits_spec(samples@),
        r < 64,
{
    if samples.len() == 0 {
        return 0;
    }
    let mut bits: u32 = 64;
    let mut i: usize = 0;
    proof {
        assert(samples@.take(0) =~= Seq::<i64>::empty());
    }
    while i < samples.len()
        invariant
            i <= samples@.len(),
            bits == min_trailing_zeros(samples@.take(i as int)),
        decreases samples@.len() - i,
    {
        proof {
            assert(samples@.take(i + 1).drop_last() =~= samples@.take(i as int));
        }
        let x = samples[i];
        if x != 0 {
            let tz = (x as u64).trailing_zeros();
            if tz < bits {
                bits = tz;
            }
        }
        i = i + 1;
    }
    proof {
        assert(samples@.take(samples@.len() as int) =~= samples@);
        lemma_min_tz_bound(samples@);
    }
    if bits == 64 {
        0
    } else {
        bits as u8
    }
}

} // verus!
