use crate::container::frame::{layout_channels, ChannelLayout, Frame, FrameSpec, SubframeSpec};
use crate::decorrelate::cross_track::{
    cross_ok, cross_pred, lemma_cross_roundtrip, reconstruct_cross_prediction,
};
use crate::decorrelate::stereo::{in_i64, reconstruct_stereo, stereo_inv, stereo_inv_ok, StereoMode};
use crate::error::LoomError;
use crate::predict::fixed::{fixed_recon, fixed_recon_ok, lemma_fixed_recon_len, reconstruct_fixed_checked};
use crate::predict::lpc::{lemma_lpc_recon_len, lpc_recon, lpc_recon_ok, reconstruct_lpc_checked};
use crate::predict::{mode_recon, mode_recon_ok, mode_shape_ok, ModeSpec, PredictionMode};
use crate::verify::{min_trailing_zeros, wasted_bits_spec};
use vstd::std_specs::bits::{axiom_u64_trailing_zeros, u64_trailing_zeros};
use vstd::prelude::*;

verus! {

/// The values a subframe codes over a block of `n`: the constant repeated, the verbatim
/// samples, or the residuals of a predictor.
pub open spec fn coded_values(m: ModeSpec, n: nat) -> Seq<i64> {
    match m {
        ModeSpec::Constant(v) => Seq::new(n, |i: int| v),
        ModeSpec::Verbatim(s) => s,
        ModeSpec::Fixed(_, r) => r,
        ModeSpec::Lpc(_, _, _, _, r) => r,
    }
}

/// How the two channels of a stereo layout are coded.
pub open spec fn layout_stereo(l: ChannelLayout) -> StereoMode {
    match l {
        ChannelLayout::StereoLeftSide => StereoMode::LeftSide,
        ChannelLayout::StereoRightSide => StereoMode::RightSide,
        ChannelLayout::StereoMidSide => StereoMode::MidSide,
        _ => StereoMode::Independent,
    }
}

/// The first channel of a frame of a track after the first is predicted from the first
/// track's residuals: the reference is there and the subframe names track 0.
pub open spec fn cross_applies(f: FrameSpec, t: nat, rf: Option<Seq<i64>>) -> bool {
    &&& t > 0
    &&& rf is Some
    &&& f.subframes.len() > 0
    &&& f.subframes[0].ref_track == Some(0u16)
}

/// The residuals of channel `ch` once the prediction from the first track is added back.
pub open spec fn channel_residuals(f: FrameSpec, ch: int, t: nat, rf: Option<Seq<i64>>) -> Seq<i64> {
    let c = coded_values(f.subframes[ch].mode, f.block_size as nat);
    if ch == 0 && cross_applies(f, t, rf) {
        Seq::new(c.len(), |i: int| (c[i] + cross_pred(f.subframes[0].ref_weight, rf->Some_0[i])) as i64)
    } else {
        c
    }
}

/// Rebuilding samples from `res` by the predictor of `m` stays within `i64`.
pub open spec fn rebuild_ok(m: ModeSpec, res: Seq<i64>) -> bool {
    match m {
        ModeSpec::Fixed(o, _) => o <= 4 && o <= res.len() && fixed_recon_ok(res, o),
        ModeSpec::Lpc(o, c, sh, _, _) => o <= res.len() && o <= c.len() && -64 < sh < 64
            && lpc_recon_ok(res, c, sh, o),
        _ => true,
    }
}

/// The samples the predictor of `m` rebuilds from `res`.
pub open spec fn rebuild(m: ModeSpec, res: Seq<i64>) -> Seq<i64> {
    match m {
        ModeSpec::Fixed(o, _) => fixed_recon(res, o, res.len()),
        ModeSpec::Lpc(o, c, sh, _, _) => lpc_recon(res, c, sh, o, res.len()),
        _ => res,
    }
}

/// Each sample shifted back left by `w` bits, in two's complement.
pub open spec fn unshift(s: Seq<i64>, w: u8) -> Seq<i64> {
    Seq::new(s.len(), |i: int| ((s[i] as u64) << (w as u64)) as i64)
}

proof fn lemma_rebuild_len(m: ModeSpec, res: Seq<i64>)
    ensures
        rebuild(m, res).len() == res.len(),
{
    match m {
        ModeSpec::Fixed(o, _) => lemma_fixed_recon_len(res, o, res.len()),
        ModeSpec::Lpc(o, c, sh, _, _) => lemma_lpc_recon_len(res, c, sh, o, res.len()),
        _ => {},
    }
}

/// The samples of channel `ch` before the stereo decoding.
pub open spec fn channel_samples(f: FrameSpec, ch: int, t: nat, rf: Option<Seq<i64>>) -> Seq<i64> {
    unshift(
        rebuild(f.subframes[ch].mode, channel_residuals(f, ch, t, rf)),
        f.subframes[ch].wasted_bits,
    )
}

/// A frame of track `t` decodes with reference `rf`: a subframe for each channel, each
/// coding a whole block, each prediction and the one from the first track staying within
/// `i64`, fewer than 64 wasted bits, and a stereo pair decoding within `i64`.
pub open spec fn frame_decodes(f: FrameSpec, t: nat, rf: Option<Seq<i64>>) -> bool {
    let n = f.block_size as nat;
    &&& f.subframes.len() == layout_channels(f.channel_layout)
    &&& forall|ch: int|
        0 <= ch < f.subframes.len() ==> coded_values(#[trigger] f.subframes[ch].mode, n).len() == n
            && f.subframes[ch].wasted_bits < 64 && rebuild_ok(
            f.subframes[ch].mode,
            channel_residuals(f, ch, t, rf),
        )
    &&& cross_applies(f, t, rf) ==> cross_ok(
        coded_values(f.subframes[0].mode, n),
        rf->Some_0,
        f.subframes[0].ref_weight,
        1,
    )
    &&& f.subframes.len() == 2 ==> forall|i: int|
        0 <= i < n ==> stereo_inv_ok(
            #[trigger] channel_samples(f, 0, t, rf)[i],
            channel_samples(f, 1, t, rf)[i],
            layout_stereo(f.channel_layout),
        )
}

/// The PCM a frame of track `t` decodes to with reference `rf`, channel by channel.
pub open spec fn frame_pcm(f: FrameSpec, t: nat, rf: Option<Seq<i64>>) -> Seq<Seq<i64>> {
    let n = f.block_size as nat;
    if f.subframes.len() == 2 {
        let s0 = channel_samples(f, 0, t, rf);
        let s1 = channel_samples(f, 1, t, rf);
        let m = layout_stereo(f.channel_layout);
        seq![
            Seq::new(n, |i: int| stereo_inv(s0[i], s1[i], m).0),
            Seq::new(n, |i: int| stereo_inv(s0[i], s1[i], m).1),
        ]
    } else {
        Seq::new(f.subframes.len(), |ch: int| channel_samples(f, ch, t, rf))
    }
}

/// A reference as plain values.
pub open spec fn ref_view(rf: Option<Vec<i64>>) -> Option<Seq<i64>> {
    match rf {
        Some(v) => Some(v@),
        None => None,
    }
}

proof fn lemma_shr7(x: i64)
    ensures
        (x >> 7u64) as int == x as int / 128,
{
    assert(x >> 7u64 == x / 128) by (bit_vector);
}

proof fn lemma_shr1(x: i64)
    ensures
        (x >> 1u64) as int == x as int / 2,
{
    assert(x >> 1u64 == x / 2) by (bit_vector);
}

/// The values a subframe codes over a block of `n`.
fn coded_values_of(mode: &PredictionMode, n: usize) -> (r: Vec<i64>)
    ensures
        r@ == coded_values(mode@, n as nat),
{
    match mode {
        PredictionMode::Constant(v) => {
            let mut out: Vec<i64> = Vec::with_capacity(n);
            let mut i: usize = 0;
            while i < n
                invariant
                    i <= n,
                    out@ == Seq::new(i as nat, |j: int| *v),
                decreases n - i,
            {
                out.push(*v);
                proof {
                    assert(out@ =~= Seq::new((i + 1) as nat, |j: int| *v));
                }
                i = i + 1;
            }
            out
        },
        PredictionMode::Verbatim(s) => copy_vec(s),
        PredictionMode::Fixed { residuals, .. } => copy_vec(residuals),
        PredictionMode::Lpc { residuals, .. } => copy_vec(residuals),
    }
}

fn copy_vec(s: &Vec<i64>) -> (r: Vec<i64>)
    ensures
        r@ == s@,
{
    let mut out: Vec<i64> = Vec::with_capacity(s.len());
    let mut i: usize = 0;
    while i < s.len()
        invariant
            i <= s@.len(),
            out@ == s@.take(i as int),
        decreases s@.len() - i,
    {
        out.push(s[i]);
        proof {
            assert(out@ =~= s@.take(i + 1));
        }
        i = i + 1;
    }
    proof {
        assert(s@.take(s@.len() as int) =~= s@);
    }
    out
}

/// Whether adding back the prediction from `reference` to `target` stays within `i64`.
fn cross_fits(target: &Vec<i64>, reference: &Vec<i64>, weight: i8) -> (r: bool)
    ensures
        r == cross_ok(target@, reference@, weight, 1),
{
    if reference.len() < target.len() {
        return false;
    }
    let mut i: usize = 0;
    while i < target.len()
        invariant
            i <= target@.len(),
            reference@.len() >= target@.len(),
            forall|j: int|
                0 <= j < i ==> in_i64(weight as int * #[trigger] reference@[j] as int) && in_i64(
                    target@[j] as int + 1 * cross_pred(weight, reference@[j]),
                ),
        decreases target@.len() - i,
    {
        proof {
            let w = weight as int;
            let x = reference@[i as int] as int;
            assert(-0x8000_0000_0000_0000_0000 <= w * x <= 0x8000_0000_0000_0000_0000) by (nonlinear_arith)
                requires
                    -128 <= w <= 127,
                    -0x8000_0000_0000_0000 <= x <= 0x7FFF_FFFF_FFFF_FFFF,
            ;
        }
        let prod: i128 = (weight as i128) * (reference[i] as i128);
        if prod < i64::MIN as i128 || prod > i64::MAX as i128 {
            return false;
        }
        let p64: i64 = prod as i64;
        proof {
            lemma_shr7(p64);
        }
        let q: i128 = (p64 >> 7u64) as i128;
        let sum: i128 = target[i] as i128 + q;
        if sum < i64::MIN as i128 || sum > i64::MAX as i128 {
            return false;
        }
        i = i + 1;
    }
    true
}

/// Whether each pair of samples of a stereo block decodes within `i64`.
fn stereo_fits(ch0: &Vec<i64>, ch1: &Vec<i64>, mode: StereoMode) -> (r: bool)
    requires
        ch1@.len() == ch0@.len(),
    ensures
        r == forall|i: int| 0 <= i < ch0@.len() ==> stereo_inv_ok(#[trigger] ch0@[i], ch1@[i], mode),
{
    let mut i: usize = 0;
    while i < ch0.len()
        invariant
            i <= ch0@.len(),
            ch1@.len() == ch0@.len(),
            forall|j: int| 0 <= j < i ==> stereo_inv_ok(#[trigger] ch0@[j], ch1@[j], mode),
        decreases ch0@.len() - i,
    {
        let a = ch0[i] as i128;
        let b = ch1[i] as i128;
        let lo = i64::MIN as i128;
        let hi = i64::MAX as i128;
        let ok = match mode {
            StereoMode::Independent => true,
            StereoMode::LeftSide => lo <= a - b && a - b <= hi,
            StereoMode::RightSide => lo <= a + b && a + b <= hi,
            StereoMode::MidSide => {
                if ch1[i] == i64::MAX {
                    false
                } else {
                    let h1 = (ch1[i] + 1) >> 1u64;
                    let h0 = ch1[i] >> 1u64;
                    proof {
                        lemma_shr1((ch1[i as int] + 1) as i64);
                        lemma_shr1(ch1[i as int]);
                    }
                    lo <= a + h1 as i128 && a + h1 as i128 <= hi && lo <= a - h0 as i128 && a - h0 as i128 <= hi
                }
            },
        };
        if !ok {
            return false;
        }
        i = i + 1;
    }
    true
}

/// Each sample shifted left by `w` bits, in two's complement.
fn shift_left(s: &Vec<i64>, w: u8) -> (r: Vec<i64>)
    requires
        w < 64,
    ensures
        r@ == unshift(s@, w),
{
    let mut out: Vec<i64> = Vec::with_capacity(s.len());
    let mut i: usize = 0;
    while i < s.len()
        invariant
            i <= s@.len(),
            w < 64,
            out@.len() == i,
            forall|j: int| 0 <= j < i ==> #[trigger] out@[j] == ((s@[j] as u64) << (w as u64)) as i64,
        decreases s@.len() - i,
    {
        let x = ((s[i] as u64) << (w as u64)) as i64;
        out.push(x);
        i = i + 1;
    }
    proof {
        assert(out@ =~= unshift(s@, w));
    }
    out
}

/// Rebuilds samples from `res` by the predictor of `mode`, or none where that leaves `i64`
/// or the predictor cannot be run on them.
fn rebuild_samples(mode: &PredictionMode, res: &Vec<i64>) -> (r: Option<Vec<i64>>)
    ensures
        r is Some <==> rebuild_ok(mode@, res@),
        r matches Some(v) ==> v@ == rebuild(mode@, res@),
{
    match mode {
        PredictionMode::Fixed { order, .. } => {
            if *order > 4 || *order > res.len() {
                return None;
            }
            reconstruct_fixed_checked(res.as_slice(), *order)
        },
        PredictionMode::Lpc { order, qlp_coeffs, qlp_shift, .. } => {
            if *order > res.len() || *order > qlp_coeffs.len() || *qlp_shift <= -64 || *qlp_shift
                >= 64 {
                return None;
            }
            reconstruct_lpc_checked(res.as_slice(), qlp_coeffs.as_slice(), *qlp_shift, *order)
        },
        _ => Some(copy_vec(res)),
    }
}

/// Decodes a frame of track `t` to PCM, adding back to its first channel the prediction
/// from `ref_residuals`, the first track's residuals of the block, where the frame names
/// track 0: each channel's coded values, the predictor undone, the wasted bits shifted
/// back, then a stereo pair decoded. Gives the PCM and the first channel's residuals.
/// A frame that does not decode within `i64`, or whose subframes do not fit it, is
/// invalid data.
pub fn decode_frame(frame: &Frame, t: usize, ref_residuals: &Option<Vec<i64>>) -> (r: Result<
    (Vec<Vec<i64>>, Vec<i64>),
    LoomError,
>)
    ensures
        r is Ok <==> frame_decodes(frame@, t as nat, ref_view(*ref_residuals)),
        r matches Err(e) ==> e == LoomError::InvalidData,
        r matches Ok((pcm, res0)) ==> {
            &&& pcm@.len() == frame_pcm(frame@, t as nat, ref_view(*ref_residuals)).len()
            &&& forall|ch: int|
                0 <= ch < pcm@.len() ==> #[trigger] pcm@[ch]@ == frame_pcm(
                    frame@,
                    t as nat,
                    ref_view(*ref_residuals),
                )[ch]
            &&& res0@ == channel_residuals(frame@, 0, t as nat, ref_view(*ref_residuals))
        },
{
    let ghost f = frame@;
    let ghost rf = ref_view(*ref_residuals);
    let n = frame.block_size as usize;
    let channels = frame.channel_layout.channels() as usize;
    if frame.subframes.len() != channels {
        return Err(LoomError::InvalidData);
    }
    proof {
        assert(f.subframes.len() == frame.subframes@.len());
    }
    let mut samples: Vec<Vec<i64>> = Vec::new();
    let mut res0: Vec<i64> = Vec::new();
    let mut ch: usize = 0;
    while ch < channels
        invariant
            ch <= channels,
            channels == f.subframes.len(),
            channels >= 1,
            f == frame@,
            rf == ref_view(*ref_residuals),
            n == f.block_size,
            samples@.len() == ch,
            forall|c: int|
                0 <= c < ch ==> coded_values(#[trigger] f.subframes[c].mode, n as nat).len() == n
                    && f.subframes[c].wasted_bits < 64 && rebuild_ok(
                    f.subframes[c].mode,
                    channel_residuals(f, c, t as nat, rf),
                ),
            forall|c: int| 0 <= c < ch ==> #[trigger] samples@[c]@ == channel_samples(f, c, t as nat, rf),
            forall|c: int| 0 <= c < ch ==> #[trigger] samples@[c]@.len() == n,
            ch > 0 ==> res0@ == channel_residuals(f, 0, t as nat, rf),
            ch > 0 && cross_applies(f, t as nat, rf) ==> cross_ok(
                coded_values(f.subframes[0].mode, n as nat),
                rf->Some_0,
                f.subframes[0].ref_weight,
                1,
            ),
        decreases channels - ch,
    {
        let sf = &frame.subframes[ch];
        proof {
            assert(f.subframes[ch as int] == sf@);
        }
        let mut vals = coded_values_of(&sf.mode, n);
        if vals.len() != n {
            return Err(LoomError::InvalidData);
        }
        if ch == 0 && t > 0 {
            match ref_residuals {
                Some(rfv) => {
                    if sf.ref_track == Some(0u16) {
                        if !cross_fits(&vals, rfv, sf.ref_weight) {
                            return Err(LoomError::InvalidData);
                        }
                        let ghost before = vals@;
                        reconstruct_cross_prediction(vals.as_mut_slice(), rfv.as_slice(), sf.ref_weight);
                        proof {
                            assert(vals@ =~= channel_residuals(f, 0, t as nat, rf));
                        }
                    }
                },
                None => {},
            }
        }
        proof {
            assert(vals@ == channel_residuals(f, ch as int, t as nat, rf));
        }
        if ch == 0 {
            res0 = copy_vec(&vals);
        }
        let rebuilt = match rebuild_samples(&sf.mode, &vals) {
            Some(v) => v,
            None => {
                return Err(LoomError::InvalidData);
            },
        };
        if sf.wasted_bits >= 64 {
            return Err(LoomError::InvalidData);
        }
        proof {
            lemma_rebuild_len(sf.mode@, vals@);
        }
        let shifted = shift_left(&rebuilt, sf.wasted_bits);
        samples.push(shifted);
        ch = ch + 1;
    }
    if channels == 2 {
        let mode = match frame.channel_layout {
            ChannelLayout::StereoLeftSide => StereoMode::LeftSide,
            ChannelLayout::StereoRightSide => StereoMode::RightSide,
            ChannelLayout::StereoMidSide => StereoMode::MidSide,
            _ => StereoMode::Independent,
        };
        proof {
            assert(mode == layout_stereo(f.channel_layout));
            assert(samples@[0]@ == channel_samples(f, 0, t as nat, rf));
            assert(samples@[1]@ == channel_samples(f, 1, t as nat, rf));
        }
        if !stereo_fits(&samples[0], &samples[1], mode) {
            return Err(LoomError::InvalidData);
        }
        let (left, right) = reconstruct_stereo(samples[0].as_slice(), samples[1].as_slice(), mode);
        let mut pcm: Vec<Vec<i64>> = Vec::new();
        pcm.push(left);
        pcm.push(right);
        proof {
            let fp = frame_pcm(f, t as nat, rf);
            assert(pcm@[0]@ =~= fp[0]);
            assert(pcm@[1]@ =~= fp[1]);
        }
        Ok((pcm, res0))
    } else {
        proof {
            let fp = frame_pcm(f, t as nat, rf);
            assert forall|c: int| 0 <= c < samples@.len() implies #[trigger] samples@[c]@ == fp[c] by {}
        }
        Ok((samples, res0))
    }
}

/// Decoding a channel coded by `m` with `w` wasted bits gives `data` back: the coded values
/// fill the block, the prediction undoes within `i64`, and shifting back the wasted bits
/// restores the samples.
pub open spec fn channel_recovers(m: ModeSpec, w: u8, data: Seq<i64>) -> bool {
    let c = coded_values(m, data.len());
    &&& c.len() == data.len()
    &&& w < 64
    &&& rebuild_ok(m, c)
    &&& unshift(rebuild(m, c), w) == data
}

/// Residuals less the weighted reference.
pub open spec fn crossed(res: Seq<i64>, rf: Seq<i64>, w: i8) -> Seq<i64> {
    Seq::new(res.len(), |i: int| (res[i] - cross_pred(w, rf[i])) as i64)
}

/// A prediction with its residuals replaced.
pub open spec fn with_residuals(m: ModeSpec, r: Seq<i64>) -> ModeSpec {
    match m {
        ModeSpec::Fixed(o, _) => ModeSpec::Fixed(o, r),
        ModeSpec::Lpc(o, c, sh, p, _) => ModeSpec::Lpc(o, c, sh, p, r),
        _ => m,
    }
}

/// Rebuilding from the values a search's prediction codes gives what undoing the
/// prediction gives.
pub proof fn lemma_mode_rebuild(m: PredictionMode, old: Seq<i64>)
    requires
        mode_recon_ok(m, old.len()),
        mode_shape_ok(m@, old.len()),
    ensures
        coded_values(m@, old.len()).len() == old.len(),
        rebuild_ok(m@, coded_values(m@, old.len())),
        rebuild(m@, coded_values(m@, old.len())) == mode_recon(m, old),
{
    match m {
        PredictionMode::Constant(v) => {
            assert(rebuild(m@, coded_values(m@, old.len())) =~= mode_recon(m, old));
        },
        PredictionMode::Verbatim(v) => {},
        PredictionMode::Fixed { order, residuals } => {
            assert(old.skip(residuals@.len() as int) =~= Seq::<i64>::empty());
            assert(mode_recon(m, old) =~= fixed_recon(residuals@, order as nat, residuals@.len()));
        },
        PredictionMode::Lpc { order, qlp_coeffs, qlp_shift, residuals, .. } => {
            assert(old.skip(residuals@.len() as int) =~= Seq::<i64>::empty());
            assert(mode_recon(m, old) =~= lpc_recon(
                residuals@,
                qlp_coeffs@,
                qlp_shift,
                order as nat,
                residuals@.len(),
            ));
        },
    }
}

proof fn lemma_min_tz_le(s: Seq<i64>, i: int)
    requires
        0 <= i < s.len(),
        s[i] != 0,
    ensures
        min_trailing_zeros(s) <= u64_trailing_zeros(s[i] as u64),
    decreases s.len(),
{
    if i < s.len() - 1 {
        lemma_min_tz_le(s.drop_last(), i);
    }
}

proof fn lemma_low_zero_shift(u: u64, w: u64)
    requires
        w < 64,
        forall|j: u64| 0 <= j < w ==> #[trigger] ((u >> j) & 1u64) == 0u64,
    ensures
        (u >> w) << w == u,
    decreases w,
{
    if w == 0 {
        assert((u >> 0u64) << 0u64 == u) by (bit_vector);
    } else {
        let v = (w - 1) as u64;
        lemma_low_zero_shift(u, v);
        assert(((u >> v) & 1u64) == 0u64);
        assert(v < 63 && ((u >> v) << v) == u && ((u >> v) & 1u64) == 0u64 ==> ((u >> ((v + 1) as u64))
            << ((v + 1) as u64)) == u) by (bit_vector);
    }
}

proof fn lemma_shift_back(x: i64, w: u64)
    requires
        w < 64,
        (((x as u64) >> w) << w) == x as u64,
    ensures
        (((x >> w) as u64) << w) as i64 == x,
{
    assert(w < 64 && (((x as u64) >> w) << w) == x as u64 ==> (((x >> w) as u64) << w) as i64 == x)
        by (bit_vector);
}

/// Shifting back samples shifted right by their wasted bits gives them back.
pub proof fn lemma_unshift_wasted(data: Seq<i64>, shifted: Seq<i64>, w: u8)
    requires
        w as nat == wasted_bits_spec(data),
        w < 64,
        shifted.len() == data.len(),
        forall|i: int| 0 <= i < data.len() ==> #[trigger] shifted[i] == data[i] >> (w as u64),
    ensures
        unshift(shifted, w) == data,
{
    assert forall|i: int| 0 <= i < data.len() implies #[trigger] unshift(shifted, w)[i] == data[i] by {
        let x = data[i];
        if x == 0 {
            assert((((0i64 >> (w as u64)) as u64) << (w as u64)) as i64 == 0i64) by (bit_vector);
        } else {
            let u = x as u64;
            axiom_u64_trailing_zeros(u);
            lemma_min_tz_le(data, i);
            assert forall|j: u64| 0 <= j < w as u64 implies #[trigger] ((u >> j) & 1u64) == 0u64 by {
                assert(j < u64_trailing_zeros(u));
            }
            lemma_low_zero_shift(u, w as u64);
            lemma_shift_back(x, w as u64);
        }
    }
    assert(unshift(shifted, w) =~= data);
}

/// The residuals with the weighted reference added back.
pub open spec fn uncrossed(c: Seq<i64>, rf: Seq<i64>, w: i8) -> Seq<i64> {
    Seq::new(c.len(), |i: int| (c[i] + cross_pred(w, rf[i])) as i64)
}

/// What the encoder knows of a subframe it made for `data`, with the first track's
/// residuals `enc_rf` where it has them: without a reference, the channel decodes back;
/// with one (track 0), the prediction with the reference added back decodes back, and the
/// residuals it carries are those less the reference.
pub open spec fn sub_fact(sf: SubframeSpec, data: Seq<i64>, enc_rf: Option<Seq<i64>>) -> bool {
    let n = data.len();
    match sf.ref_track {
        None => channel_recovers(sf.mode, sf.wasted_bits, data),
        Some(k) => {
            &&& k == 0
            &&& enc_rf is Some
            &&& enc_rf->Some_0.len() == n
            &&& (sf.mode is Fixed || sf.mode is Lpc)
            &&& {
                let v = enc_rf->Some_0;
                let m0 = with_residuals(sf.mode, uncrossed(coded_values(sf.mode, n), v, sf.ref_weight));
                &&& channel_recovers(m0, sf.wasted_bits, data)
                &&& cross_ok(coded_values(m0, n), v, sf.ref_weight, -1)
                &&& coded_values(sf.mode, n) == crossed(coded_values(m0, n), v, sf.ref_weight)
            }
        },
    }
}

/// Channel `ch` of frame `f` of track `t` decodes with reference `rf` to `data`.
pub open spec fn channel_ok(f: FrameSpec, ch: int, t: nat, rf: Option<Seq<i64>>, data: Seq<i64>) -> bool {
    let n = f.block_size as nat;
    &&& coded_values(f.subframes[ch].mode, n).len() == n
    &&& f.subframes[ch].wasted_bits < 64
    &&& rebuild_ok(f.subframes[ch].mode, channel_residuals(f, ch, t, rf))
    &&& channel_samples(f, ch, t, rf) == data
    &&& (ch == 0 && cross_applies(f, t, rf) ==> cross_ok(
        coded_values(f.subframes[0].mode, n),
        rf->Some_0,
        f.subframes[0].ref_weight,
        1,
    ))
}

proof fn lemma_rebuild_params(m: ModeSpec, r: Seq<i64>, x: Seq<i64>)
    ensures
        rebuild(with_residuals(m, r), x) == rebuild(m, x),
        rebuild_ok(with_residuals(m, r), x) == rebuild_ok(m, x),
{
}

/// A subframe the encoder made decodes to its channel, whenever the decoder's reference
/// agrees with the encoder's.
pub proof fn lemma_sub_channel(
    f: FrameSpec,
    ch: int,
    t: nat,
    rf: Option<Seq<i64>>,
    enc_rf: Option<Seq<i64>>,
    data: Seq<i64>,
)
    requires
        0 <= ch < f.subframes.len(),
        f.block_size == data.len(),
        sub_fact(f.subframes[ch], data, enc_rf),
        enc_rf matches Some(v) ==> rf == Some(v),
        f.subframes[ch].ref_track is Some ==> ch == 0 && t > 0,
    ensures
        channel_ok(f, ch, t, rf, data),
{
    let sf = f.subframes[ch];
    let n = data.len();
    match sf.ref_track {
        None => {
            assert(!(ch == 0 && cross_applies(f, t, rf)));
            assert(channel_residuals(f, ch, t, rf) == coded_values(sf.mode, n));
        },
        Some(k) => {
            let v = enc_rf->Some_0;
            let w = sf.ref_weight;
            let c = coded_values(sf.mode, n);
            let m0 = with_residuals(sf.mode, uncrossed(c, v, w));
            let c0 = coded_values(m0, n);
            assert(cross_applies(f, t, rf));
            lemma_cross_roundtrip(c0, v, w);
            assert(c =~= crossed(c0, v, w));
            assert(channel_residuals(f, 0, t, rf) =~= c0) by {
                assert forall|i: int| 0 <= i < c.len() implies #[trigger] channel_residuals(f, 0, t, rf)[i]
                    == c0[i] by {
                    assert(c[i] == (c0[i] - cross_pred(w, v[i])) as i64);
                }
            }
            lemma_rebuild_params(sf.mode, uncrossed(c, v, w), c0);
            assert(with_residuals(m0, c) == sf.mode);
            lemma_rebuild_params(m0, c, c0);
        },
    }
}

/// The samples of a stereo pair coded in `m`.
pub open spec fn stereo_ok(l: Seq<i64>, r: Seq<i64>, m: StereoMode) -> bool {
    &&& r.len() == l.len()
    &&& forall|i: int| 0 <= i < l.len() ==> crate::decorrelate::stereo::stereo_fwd_ok(#[trigger] l[i], r[i], m)
        && (m == StereoMode::MidSide ==> l[i] - r[i] < i64::MAX)
}

/// A frame whose channels each decode to the block's channels (for a stereo pair, to the
/// pair as its layout codes it) decodes to the block.
pub proof fn lemma_frame_recovers(f: FrameSpec, t: nat, rf: Option<Seq<i64>>, block: Seq<Seq<i64>>)
    requires
        f.subframes.len() == layout_channels(f.channel_layout),
        block.len() == f.subframes.len(),
        forall|ch: int| 0 <= ch < block.len() ==> #[trigger] block[ch].len() == f.block_size,
        f.subframes.len() != 2 ==> forall|ch: int|
            0 <= ch < block.len() ==> #[trigger] channel_ok(f, ch, t, rf, block[ch]),
        f.subframes.len() == 2 ==> {
            let m = layout_stereo(f.channel_layout);
            let coded = crate::decorrelate::stereo::stereo_fwd_seq(block[0], block[1], m);
            &&& stereo_ok(block[0], block[1], m)
            &&& channel_ok(f, 0, t, rf, coded.0)
            &&& channel_ok(f, 1, t, rf, coded.1)
        },
    ensures
        frame_decodes(f, t, rf),
        frame_pcm(f, t, rf) == block,
{
    let n = f.block_size as nat;
    if f.subframes.len() == 2 {
        let m = layout_stereo(f.channel_layout);
        let coded = crate::decorrelate::stereo::stereo_fwd_seq(block[0], block[1], m);
        assert(channel_ok(f, 0, t, rf, coded.0));
        assert(channel_ok(f, 1, t, rf, coded.1));
        assert forall|ch: int| 0 <= ch < f.subframes.len() implies coded_values(
            #[trigger] f.subframes[ch].mode,
            n,
        ).len() == n && f.subframes[ch].wasted_bits < 64 && rebuild_ok(
            f.subframes[ch].mode,
            channel_residuals(f, ch, t, rf),
        ) by {
            if ch == 0 {
                assert(channel_ok(f, 0, t, rf, coded.0));
            } else {
                assert(channel_ok(f, 1, t, rf, coded.1));
            }
        }
        assert forall|i: int| 0 <= i < n implies stereo_inv_ok(
            #[trigger] channel_samples(f, 0, t, rf)[i],
            channel_samples(f, 1, t, rf)[i],
            m,
        ) && stereo_inv(channel_samples(f, 0, t, rf)[i], channel_samples(f, 1, t, rf)[i], m) == (
            block[0][i],
            block[1][i],
        ) by {
            assert(crate::decorrelate::stereo::stereo_fwd_ok(block[0][i], block[1][i], m));
            crate::decorrelate::stereo::lemma_stereo_roundtrip(block[0][i], block[1][i], m);
        }
        let fp = frame_pcm(f, t, rf);
        assert(fp[0] =~= block[0]);
        assert(fp[1] =~= block[1]);
        assert(fp =~= block);
    } else {
        assert forall|ch: int| 0 <= ch < f.subframes.len() implies coded_values(
            #[trigger] f.subframes[ch].mode,
            n,
        ).len() == n && f.subframes[ch].wasted_bits < 64 && rebuild_ok(
            f.subframes[ch].mode,
            channel_residuals(f, ch, t, rf),
        ) by {
            assert(channel_ok(f, ch, t, rf, block[ch]));
        }
        if cross_applies(f, t, rf) {
            assert(channel_ok(f, 0, t, rf, block[0]));
        }
        assert(frame_pcm(f, t, rf) =~= block) by {
            assert forall|ch: int| 0 <= ch < block.len() implies #[trigger] frame_pcm(f, t, rf)[ch] == block[ch] by {
                assert(channel_ok(f, ch, t, rf, block[ch]));
            }
        }
    }
    if f.subframes.len() == 2 && cross_applies(f, t, rf) {
        let m = layout_stereo(f.channel_layout);
        let coded = crate::decorrelate::stereo::stereo_fwd_seq(block[0], block[1], m);
        assert(channel_ok(f, 0, t, rf, coded.0));
    }
}

} // verus!
