use crate::decorrelate::stereo::{
    lemma_shr1, lemma_stereo_roundtrip, stereo_fwd, stereo_fwd_ok, stereo_inv, stereo_inv_ok,
    StereoMode,
};
use vstd::prelude::*;

verus! {

/// The integer two-channel transform: a lossless mid/side rotation of a channel pair.
pub struct KltTransform {
    pub _channels: usize,
}

/// The number of sample pairs that the two-channel transform works on: the shorter length.
pub open spec fn pair_len(a: Seq<i64>, b: Seq<i64>) -> int {
    if a.len() <= b.len() {
        a.len() as int
    } else {
        b.len() as int
    }
}

/// Every pair of the first `pair_len` samples can be rotated within `i64`.
pub open spec fn klt_fwd_ok(ch0: Seq<i64>, ch1: Seq<i64>) -> bool {
    forall|i: int|
        0 <= i < pair_len(ch0, ch1) ==> #[trigger] stereo_fwd_ok(ch0[i], ch1[i], StereoMode::MidSide)
}

/// Every pair of the first `pair_len` coded samples can be rotated back within `i64`.
pub open spec fn klt_inv_ok(out0: Seq<i64>, out1: Seq<i64>) -> bool {
    forall|i: int|
        0 <= i < pair_len(out0, out1) ==> #[trigger] stereo_inv_ok(out0[i], out1[i], StereoMode::MidSide)
}

impl KltTransform {
    /// Rotates a channel pair into mid `(a + b) >> 1` and side `a - b`, over the shorter
    /// of the two lengths.
    pub fn transform_2channel(ch0: &[i64], ch1: &[i64]) -> (r: (Vec<i64>, Vec<i64>))
        requires
            klt_fwd_ok(ch0@, ch1@),
        ensures
            r.0@.len() == pair_len(ch0@, ch1@),
            r.1@.len() == pair_len(ch0@, ch1@),
            forall|i: int|
                0 <= i < pair_len(ch0@, ch1@) ==> #[trigger] r.0@[i] == stereo_fwd(
                    ch0@[i],
                    ch1@[i],
                    StereoMode::MidSide,
                ).0,
            forall|i: int|
                0 <= i < pair_len(ch0@, ch1@) ==> #[trigger] r.1@[i] == stereo_fwd(
                    ch0@[i],
                    ch1@[i],
                    StereoMode::MidSide,
                ).1,
    {
        let len = if ch0.len() <= ch1.len() {
            ch0.len()
        } else {
            ch1.len()
        };
        let mut out0: Vec<i64> = Vec::with_capacity(len);
        let mut out1: Vec<i64> = Vec::with_capacity(len);
        let mut i: usize = 0;
        while i < len
            invariant
                len == pair_len(ch0@, ch1@),
                i <= len,
                klt_fwd_ok(ch0@, ch1@),
                out0@.len() == i,
                out1@.len() == i,
                forall|j: int|
                    0 <= j < i ==> #[trigger] out0@[j] == stereo_fwd(
                        ch0@[j],
                        ch1@[j],
                        StereoMode::MidSide,
                    ).0,
                forall|j: int|
                    0 <= j < i ==> #[trigger] out1@[j] == stereo_fwd(
                        ch0@[j],
                        ch1@[j],
                        StereoMode::MidSide,
                    ).1,
            decreases len - i,
        {
            let a = ch0[i];
            let b = ch1[i];
            assert(stereo_fwd_ok(ch0@[i as int], ch1@[i as int], StereoMode::MidSide));
            proof {
                lemma_shr1((a + b) as i64);
            }
            out0.push((a + b) >> 1);
            out1.push(a - b);
            i = i + 1;
        }
        (out0, out1)
    }

    /// Rotates mid and side back into the channel pair: `m + ((s + 1) >> 1)` and
    /// `m - (s >> 1)`, over the shorter of the two lengths.
    pub fn inverse_transform_2channel(out0: &[i64], out1: &[i64]) -> (r: (Vec<i64>, Vec<i64>))
        requires
            klt_inv_ok(out0@, out1@),
        ensures
            r.0@.len() == pair_len(out0@, out1@),
            r.1@.len() == pair_len(out0@, out1@),
            forall|i: int|
                0 <= i < pair_len(out0@, out1@) ==> #[trigger] r.0@[i] == stereo_inv(
                    out0@[i],
                    out1@[i],
                    StereoMode::MidSide,
                ).0,
            forall|i: int|
                0 <= i < pair_len(out0@, out1@) ==> #[trigger] r.1@[i] == stereo_inv(
                    out0@[i],
                    out1@[i],
                    StereoMode::MidSide,
                ).1,
    {
        let len = if out0.len() <= out1.len() {
            out0.len()
        } else {
            out1.len()
        };
        let mut ch0: Vec<i64> = Vec::with_capacity(len);
        let mut ch1: Vec<i64> = Vec::with_capacity(len);
        let mut i: usize = 0;
        while i < len
            invariant
                len == pair_len(out0@, out1@),
                i <= len,
                klt_inv_ok(out0@, out1@),
                ch0@.len() == i,
                ch1@.len() == i,
                forall|j: int|
                    0 <= j < i ==> #[trigger] ch0@[j] == stereo_inv(
                        out0@[j],
                        out1@[j],
                        StereoMode::MidSide,
                    ).0,
                forall|j: int|
                    0 <= j < i ==> #[trigger] ch1@[j] == stereo_inv(
                        out0@[j],
                        out1@[j],
                        StereoMode::MidSide,
                    ).1,
            decreases len - i,
        {
            let m = out0[i];
            let s = out1[i];
            assert(stereo_inv_ok(out0@[i as int], out1@[i as int], StereoMode::MidSide));
            proof {
                lemma_shr1((s + 1) as i64);
                lemma_shr1(s);
            }
            ch0.push(m + ((s + 1) >> 1));
            ch1.push(m - (s >> 1));
            i = i + 1;
        }
        (ch0, ch1)
    }
}

/// The inverse two-channel transform gives back the channel pair that the forward transform
/// rotated, cut to the shorter length, wherever the side `a - b` stays below `i64::MAX`.
pub proof fn lemma_klt_roundtrip(ch0: Seq<i64>, ch1: Seq<i64>, out0: Seq<i64>, out1: Seq<i64>)
    requires
        klt_fwd_ok(ch0, ch1),
        forall|i: int| 0 <= i < pair_len(ch0, ch1) ==> #[trigger] ch0[i] - ch1[i] < i64::MAX,
        out0.len() == pair_len(ch0, ch1),
        out1.len() == pair_len(ch0, ch1),
        forall|i: int|
            0 <= i < pair_len(ch0, ch1) ==> #[trigger] out0[i] == stereo_fwd(
                ch0[i],
                ch1[i],
                StereoMode::MidSide,
            ).0,
        forall|i: int|
            0 <= i < pair_len(ch0, ch1) ==> #[trigger] out1[i] == stereo_fwd(
                ch0[i],
                ch1[i],
                StereoMode::MidSide,
            ).1,
    ensures
        klt_inv_ok(out0, out1),
        forall|i: int|
            0 <= i < pair_len(out0, out1) ==> #[trigger] stereo_inv(
                out0[i],
                out1[i],
                StereoMode::MidSide,
            ) == (ch0[i], ch1[i]),
{
    assert forall|i: int| 0 <= i < pair_len(out0, out1) implies stereo_inv_ok(
        out0[i],
        out1[i],
        StereoMode::MidSide,
    ) && #[trigger] stereo_inv(out0[i], out1[i], StereoMode::MidSide) == (ch0[i], ch1[i]) by {
        assert(stereo_fwd_ok(ch0[i], ch1[i], StereoMode::MidSide));
        assert(ch0[i] - ch1[i] < i64::MAX);
        lemma_stereo_roundtrip(ch0[i], ch1[i], StereoMode::MidSide);
    }
    assert forall|i: int| 0 <= i < pair_len(out0, out1) implies #[trigger] stereo_inv_ok(
        out0[i],
        out1[i],
        StereoMode::MidSide,
    ) by {
        assert(stereo_inv(out0[i], out1[i], StereoMode::MidSide) == (ch0[i], ch1[i]));
    }
}

} // verus!
