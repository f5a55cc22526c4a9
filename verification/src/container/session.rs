use crate::analyze::{detect_transient, transient_spec};
use crate::config::{level_number, CompressionLevel, EncoderConfig};
use crate::container::bytes::{push_all, push_be};
use crate::container::edit_block::EditBlock;
use crate::container::flac_metadata::{
    block_header_bytes, lemma_streaminfo_len, streaminfo_bytes, streaminfo_fields, write_metadata_block_header, StreamInfo,
};
use crate::container::header::loom_magic;
use crate::container::metadata_tags::tags_bytes;
use crate::container::picture_block::picture_bytes;
use crate::container::session_meta::{
    app_chunks, chunk_end, opt_block, picture_opt_bytes, session_layout, session_meta, session_payload,
    tags_opt_bytes,
};
use crate::edit::schema::TrackEditsSpec;
use crate::container::frame::{
    FrameSpec, SubframeSpec, flac_frame_bits, framed, loom_frame_bits,
    flac_frame_ok, layout_channels, loom_frame_ok, loom_mode_ok, flac_mode_ok, sub_bps, ChannelLayout,
    Frame, Subframe,
};
use crate::container::header::{
    header_writable, names_fit, HeaderSpec, SessionHeader, TrackInfo, TrackInfoSpec,
};
use crate::container::metadata_tags::MetadataTags;
use crate::container::picture_block::PictureBlock;
use crate::container::seek_index::{SeekPoint, SeekTable};
use crate::decorrelate::cross_track::{
    apply_cross_prediction, calculate_cross_coupling, lemma_coupling_bounded, within36,
};
use crate::decorrelate::stereo::{lemma_stereo_bounded, pcm32, search_stereo_mode, StereoMode};
use crate::error::LoomError;
use crate::predict::{
    all_within, copy_samples, lemma_bounded_stream_fits, lemma_search_shape, mode_shape_ok,
    pcm_bounded, res_bounded, search_predictor_with_lpc, LpcCandidate, ModeSpec, PredictionMode,
};
use crate::verify::{compute_pcm_md5, compute_wasted_bits, md5_of, pcm_bytes};
use crate::render::interleaved;
use crate::container::block_decode::{
    channel_ok, channel_recovers, coded_values, crossed, frame_decodes, frame_pcm, layout_stereo,
    lemma_frame_recovers, lemma_mode_rebuild, lemma_sub_channel, lemma_unshift_wasted, ref_view,
    stereo_ok, sub_fact, uncrossed, with_residuals,
};
use crate::decorrelate::cross_track::{cross_ok, cross_pred, lemma_cross_roundtrip};
use crate::predict::lemma_search_roundtrip;
use vstd::prelude::*;
use vstd::utf8::encode_utf8;

pub use crate::container::session_read::{decode_session, decode_session_parts, DecodedSession};
use crate::container::readable::{
    chan_width, fits, flac_subs_ok, lemma_channel_readable, lemma_frame_readable, lemma_stereo_fits,
    lemma_sub_fits_readable, no_lpc_from, sub_fits, tracks_fit,
};
use crate::container::session_roundtrip::{
    decodes_to, frames_readable, lemma_session_roundtrip, round_readable, roundtrip_input,
};
use crate::container::frame_roundtrip::flac_frame_readable;
use vstd::arithmetic::power2::pow2;
use crate::container::frame_roundtrip::flac_sub_readable;
use crate::container::frame_roundtrip::flac_mode_readable;
use crate::container::session_audio::{
    block_sizes, block_start, cat, frame_sizes, frames_ok, lemma_block_start_push, lemma_loom_cat_push,
    lemma_loom_round_push, lemma_round_ok_push, loom_cat, loom_round, round_ok, seek_points, seq_max,
    seq_min, try_size, audio_written, session_audio,
};

verus! {

/// A track the session encoder takes: 1 to 8 channels, each with at least `total` samples,
/// the first `total` within 32 bits.
pub open spec fn track_ok(tr: Seq<Vec<i64>>, total: nat) -> bool {
    &&& 1 <= tr.len() <= 8
    &&& forall|ch: int| 0 <= ch < tr.len() ==> #[trigger] tr[ch]@.len() >= total && pcm32(
        tr[ch]@.take(total as int),
    )
}

/// What the session encoder takes: a bit depth of 1 to 32, a block size of 1 to 65535, a
/// name for each track, at most 65535 tracks, and tracks as `track_ok` says, as long as
/// the first channel of the first track, which sets the length, with fewer than `2^32`
/// samples.
pub open spec fn session_input_ok(
    tracks: Seq<Vec<Vec<i64>>>,
    n_names: nat,
    bit_depth: u8,
    block_size: usize,
) -> bool {
    &&& 1 <= bit_depth <= 32
    &&& 1 <= block_size <= 0xFFFF
    &&& n_names >= tracks.len()
    &&& tracks.len() <= 0xFFFF
    &&& tracks.len() > 0 ==> tracks[0]@.len() > 0 && tracks[0]@[0]@.len() <= u32::MAX && forall|t: int|
        0 <= t < tracks.len() ==> track_ok(#[trigger] tracks[t]@, tracks[0]@[0]@.len())
}

/// Every track name fits in 255 bytes.
pub open spec fn session_names_fit(names: Seq<String>, n: nat) -> bool {
    forall|t: int| 0 <= t < n ==> #[trigger] encode_utf8(names[t]@).len() <= 255
}

/// The bytes "fLaC".
pub open spec fn flac_magic() -> Seq<u8> {
    seq![0x66u8, 0x4Cu8, 0x61u8, 0x43u8]
}

/// A copy of `len` samples of `src` from `offset`.
fn copy_block(src: &Vec<i64>, offset: usize, len: usize) -> (r: Vec<i64>)
    requires
        offset + len <= src@.len(),
    ensures
        r@ == src@.subrange(offset as int, offset + len),
{
    let mut v: Vec<i64> = Vec::with_capacity(len);
    let mut i: usize = 0;
    while i < len
        invariant
            i <= len,
            offset + len <= src@.len(),
            src@.len() == src.len(),
            v@ == src@.subrange(offset as int, offset + i),
        decreases len - i,
    {
        v.push(src[offset + i]);
        proof {
            assert(v@ =~= src@.subrange(offset as int, offset + i + 1));
        }
        i = i + 1;
    }
    v
}

/// Each sample shifted right by `w` bits.
fn shift_right(s: &Vec<i64>, w: u8) -> (r: Vec<i64>)
    requires
        w < 64,
    ensures
        r@.len() == s@.len(),
        forall|i: int| 0 <= i < s@.len() ==> #[trigger] r@[i] == s@[i] >> (w as u64),
{
    let mut v: Vec<i64> = Vec::with_capacity(s.len());
    let mut i: usize = 0;
    while i < s.len()
        invariant
            i <= s@.len(),
            w < 64,
            v@.len() == i,
            forall|j: int| 0 <= j < i ==> #[trigger] v@[j] == s@[j] >> (w as u64),
        decreases s@.len() - i,
    {
        v.push(s[i] >> (w as u64));
        i = i + 1;
    }
    v
}

proof fn lemma_shift_bounded(s: Seq<i64>, r: Seq<i64>, w: u8)
    requires
        w < 64,
        r.len() == s.len(),
        s.len() <= 0xFFFF,
        forall|i: int| 0 <= i < s.len() ==> -0x1_0000_0000 <= #[trigger] s[i] <= 0x1_0000_0000,
        forall|i: int| 0 <= i < s.len() ==> #[trigger] r[i] == s[i] >> (w as u64),
    ensures
        pcm_bounded(r),
{
    assert forall|i: int| 0 <= i < r.len() implies -0x1_0000_0000 <= #[trigger] r[i] <= 0x1_0000_0000 by {
        let x = s[i];
        let k = w as u64;
        assert(-0x1_0000_0000 <= x <= 0x1_0000_0000);
        assert(-0x1_0000_0000 <= x <= 0x1_0000_0000 && k < 64 ==> -0x1_0000_0000 <= (x >> k)
            <= 0x1_0000_0000) by (bit_vector);
    }
}

/// Predicts one channel of a block: its wasted bits shifted out, then the predictor search
/// at `bps` less the wasted bits.
fn predict_channel<F: Fn(&[i64]) -> Vec<Vec<LpcCandidate>>>(
    data: &Vec<i64>,
    bps: usize,
    level: CompressionLevel,
    lpc: &F,
) -> (r: Subframe)
    requires
        forall|x: &[i64]| #[trigger] lpc.requires((x,)),
        data@.len() > 0,
        data@.len() <= 0xFFFF,
        bps <= 64,
        forall|i: int| 0 <= i < data@.len() ==> -0x1_0000_0000 <= #[trigger] data@[i] <= 0x1_0000_0000,
    ensures
        mode_shape_ok(r.mode@, data@.len()),
        r.wasted_bits < 64,
        r.ref_track is None,
        r.ref_weight == 0,
        channel_recovers(r.mode@, r.wasted_bits, data@),
        no_lpc_from(lpc) ==> forall|b: nat|
            1 <= b <= 27 && #[trigger] fits(data@, b) ==> r.wasted_bits < b && flac_mode_readable(
                r.mode@,
                (b - r.wasted_bits) as nat,
                data@.len(),
                true,
            ),
{
    let w = compute_wasted_bits(data.as_slice());
    let shifted = shift_right(data, w);
    proof {
        lemma_shift_bounded(data@, shifted@, w);
    }
    let b_search = if bps >= w as usize {
        bps - w as usize
    } else {
        0
    };
    let cands = lpc(shifted.as_slice());
    let mode = search_predictor_with_lpc(shifted.as_slice(), b_search, level, cands.as_slice());
    proof {
        lemma_search_shape(shifted@, b_search as nat, level, cands@, mode);
        lemma_search_roundtrip(shifted@, b_search as nat, level, cands@, mode, shifted@);
        lemma_mode_rebuild(mode, shifted@);
        lemma_unshift_wasted(data@, shifted@, w);
        if no_lpc_from(lpc) {
            assert(cands@ =~= Seq::<Vec<LpcCandidate>>::empty());
            assert forall|b: nat| 1 <= b <= 27 && #[trigger] fits(data@, b) implies w < b && flac_mode_readable(
                mode@,
                (b - w) as nat,
                data@.len(),
                true,
            ) by {
                lemma_channel_readable(data@, shifted@, w, b, b_search as nat, level, mode);
            }
        }
    }
    Subframe { mode, ref_track: None, ref_weight: 0, wasted_bits: w }
}

/// Predicts `mode`'s residuals from the reference residuals when that saves more than 8 in
/// the sum of magnitudes and keeps them in range; gives the mode and the reference it uses.
fn maybe_cross(mode: PredictionMode, ref_res: &Vec<i64>) -> (r: (PredictionMode, Option<u16>, i8))
    requires
        ref_res@.len() <= 0xFFFF,
        within36(ref_res@),
        mode_shape_ok(mode@, ref_res@.len()),
    ensures
        mode_shape_ok(r.0@, ref_res@.len()),
        r.1 is None ==> r.0@ == mode@,
        r.1 is Some ==> r.1 == Some(0u16) && cross_ok(
            coded_values(mode@, ref_res@.len()),
            ref_res@,
            r.2,
            -1,
        ) && r.0@ == with_residuals(
            mode@,
            crossed(coded_values(mode@, ref_res@.len()), ref_res@, r.2),
        ) && (mode@ is Fixed || mode@ is Lpc),
{
    match mode {
        PredictionMode::Fixed { order, residuals } => {
            proof {
                lemma_coupling_bounded(residuals@, ref_res@);
            }
            let (w, saved) = calculate_cross_coupling(residuals.as_slice(), ref_res.as_slice());
            if saved > 8 {
                let mut cr = copy_samples(residuals.as_slice());
                apply_cross_prediction(cr.as_mut_slice(), ref_res.as_slice(), w);
                if all_within(cr.as_slice()) {
                    proof {
                        assert(cr@ =~= crossed(residuals@, ref_res@, w));
                    }
                    return (PredictionMode::Fixed { order, residuals: cr }, Some(0), w);
                }
            }
            (PredictionMode::Fixed { order, residuals }, None, 0)
        },
        PredictionMode::Lpc { order, qlp_coeffs, qlp_shift, qlp_precision, residuals } => {
            proof {
                lemma_coupling_bounded(residuals@, ref_res@);
            }
            let (w, saved) = calculate_cross_coupling(residuals.as_slice(), ref_res.as_slice());
            if saved > 8 {
                let mut cr = copy_samples(residuals.as_slice());
                apply_cross_prediction(cr.as_mut_slice(), ref_res.as_slice(), w);
                if all_within(cr.as_slice()) {
                    proof {
                        assert(cr@ =~= crossed(residuals@, ref_res@, w));
                    }
                    return (
                        PredictionMode::Lpc {
                            order,
                            qlp_coeffs,
                            qlp_shift,
                            qlp_precision,
                            residuals: cr,
                        },
                        Some(0),
                        w,
                    );
                }
            }
            (PredictionMode::Lpc { order, qlp_coeffs, qlp_shift, qlp_precision, residuals }, None, 0)
        },
        other => (other, None, 0),
    }
}

/// The residuals of a fixed or LPC prediction, for the tracks after the first to be
/// predicted from.
fn residuals_of(mode: &PredictionMode) -> (r: Option<Vec<i64>>)
    ensures
        match mode@ {
            ModeSpec::Fixed(_, res) => r matches Some(v) && v@ == res,
            ModeSpec::Lpc(_, _, _, _, res) => r matches Some(v) && v@ == res,
            _ => r is None,
        },
{
    match mode {
        PredictionMode::Fixed { residuals, .. } => Some(copy_samples(residuals.as_slice())),
        PredictionMode::Lpc { residuals, .. } => Some(copy_samples(residuals.as_slice())),
        _ => None,
    }
}

/// A frame the writers take, of a block of `n` samples.
pub open spec fn frame_shape_ok(f: Frame, n: nat) -> bool {
    &&& f.subframes@.len() == layout_channels(f.channel_layout)
    &&& forall|ch: int| 0 <= ch < f.subframes@.len() ==> mode_shape_ok(#[trigger] f.subframes@[ch].mode@, n)
        && f.subframes@[ch].wasted_bits < 64
    &&& f.block_size == n
}

proof fn lemma_frame_writable(f: Frame, n: nat, bps: nat)
    requires
        frame_shape_ok(f, n),
        bps <= 32,
        n >= 1,
    ensures
        loom_frame_ok(f@, bps),
        flac_frame_ok(f@, bps),
{
    assert forall|ch: int| 0 <= ch < f@.subframes.len() implies loom_mode_ok(
        #[trigger] f@.subframes[ch].mode,
        sub_bps(f@.channel_layout, ch as nat, bps, f@.subframes[ch].wasted_bits),
    ) && flac_mode_ok(
        f@.subframes[ch].mode,
        sub_bps(f@.channel_layout, ch as nat, bps, f@.subframes[ch].wasted_bits),
    ) by {
        assert(f@.subframes[ch] == f.subframes@[ch]@);
        assert(mode_shape_ok(f.subframes@[ch].mode@, n));
        match f.subframes@[ch].mode@ {
            ModeSpec::Fixed(o, r) => {
                lemma_bounded_stream_fits(r, o, 2);
            },
            ModeSpec::Lpc(o, c, sh, p, r) => {
                lemma_bounded_stream_fits(r, o, 2);
            },
            _ => {},
        }
    }
}

/// Samples `offset .. offset + n` of each channel of a track.
pub open spec fn block_of(track: Seq<Vec<i64>>, offset: nat, n: nat) -> Seq<Seq<i64>> {
    Seq::new(track.len(), |ch: int| track[ch]@.subrange(offset as int, (offset + n) as int))
}

/// The decoder's reference agrees with the encoder's: where the encoder has one, the
/// decoder has the same.
pub open spec fn refs_agree(enc: Option<Seq<i64>>, dec: Option<Seq<i64>>) -> bool {
    enc matches Some(v) ==> dec == Some(v)
}

proof fn lemma_cross_fact(mode: ModeSpec, wb: u8, data: Seq<i64>, v: Seq<i64>, rw: i8, m: ModeSpec)
    requires
        channel_recovers(mode, wb, data),
        mode is Fixed || mode is Lpc,
        v.len() == data.len(),
        cross_ok(coded_values(mode, data.len()), v, rw, -1),
        m == with_residuals(mode, crossed(coded_values(mode, data.len()), v, rw)),
    ensures
        sub_fact(SubframeSpec { mode: m, ref_track: Some(0u16), ref_weight: rw, wasted_bits: wb }, data, Some(v)),
{
    let n = data.len();
    let c = coded_values(mode, n);
    lemma_cross_roundtrip(c, v, rw);
    let cm = coded_values(m, n);
    assert(cm =~= crossed(c, v, rw));
    assert(uncrossed(cm, v, rw) =~= c);
    assert(with_residuals(m, uncrossed(cm, v, rw)) == mode);
}

proof fn lemma_pcm32_stereo(l: Seq<i64>, r: Seq<i64>, m: StereoMode)
    requires
        l.len() == r.len(),
        pcm32(l),
        pcm32(r),
    ensures
        stereo_ok(l, r, m),
{
    assert forall|i: int| 0 <= i < l.len() implies crate::decorrelate::stereo::stereo_fwd_ok(#[trigger] l[i], r[i], m)
        && (m == StereoMode::MidSide ==> l[i] - r[i] < i64::MAX) by {
        assert(-0x8000_0000 <= l[i] < 0x8000_0000);
        assert(-0x8000_0000 <= r[i] < 0x8000_0000);
    }
}

/// The channels of a block as plain values.
pub open spec fn chans(bc: Seq<Vec<i64>>) -> Seq<Seq<i64>> {
    bc.map_values(|v: Vec<i64>| v@)
}

/// The frame decodes, with every reference that agrees with the encoder's, to `block`.
pub open spec fn frame_recovers(f: FrameSpec, t: nat, enc_rf: Option<Seq<i64>>, block: Seq<Seq<i64>>) -> bool {
    forall|rf: Option<Seq<i64>>|
        refs_agree(enc_rf, rf) ==> #[trigger] frame_decodes(f, t, rf) && frame_pcm(f, t, rf) == block
}

/// Samples `offset .. offset + cbs` of each channel.
fn block_channels_of(track: &Vec<Vec<i64>>, offset: usize, cbs: usize) -> (r: Vec<Vec<i64>>)
    requires
        track_ok(track@, (offset + cbs) as nat),
    ensures
        chans(r@) == block_of(track@, offset as nat, cbs as nat),
        r@.len() == track@.len(),
        forall|c: int| 0 <= c < r@.len() ==> #[trigger] r@[c]@.len() == cbs && pcm32(r@[c]@),
{
    let ch_count = track.len();
    let mut block_channels: Vec<Vec<i64>> = Vec::new();
    let mut ch: usize = 0;
    while ch < ch_count
        invariant
            ch <= ch_count,
            ch_count == track@.len(),
            track_ok(track@, (offset + cbs) as nat),
            block_channels@.len() == ch,
            forall|c: int| 0 <= c < ch ==> #[trigger] block_channels@[c]@ == track@[c]@.subrange(
                offset as int,
                offset + cbs,
            ),
        decreases ch_count - ch,
    {
        proof {
            assert(track@[ch as int]@.len() >= offset + cbs);
        }
        block_channels.push(copy_block(&track[ch], offset, cbs));
        ch = ch + 1;
    }
    proof {
        assert forall|c: int| 0 <= c < ch_count implies #[trigger] block_channels@[c]@.len() == cbs && pcm32(
            block_channels@[c]@,
        ) by {
            let src = track@[c]@;
            assert(pcm32(src.take(offset + cbs)));
            assert forall|i: int| 0 <= i < block_channels@[c]@.len() implies -0x8000_0000
                <= #[trigger] block_channels@[c]@[i] < 0x8000_0000 by {
                assert(block_channels@[c]@[i] == src.take(offset + cbs)[offset + i]);
            }
        }
        assert(chans(block_channels@) =~= block_of(track@, offset as nat, cbs as nat));
    }
    block_channels
}

/// Predicts the first channel of a block of track `t`, from the first track's residuals
/// where there are some and that pays.
fn predict_first<F: Fn(&[i64]) -> Vec<Vec<LpcCandidate>>>(
    data: &Vec<i64>,
    bps: usize,
    level: CompressionLevel,
    lpc: &F,
    t: usize,
    ref_residuals: &Option<Vec<i64>>,
) -> (r: Subframe)
    requires
        forall|x: &[i64]| #[trigger] lpc.requires((x,)),
        data@.len() > 0,
        data@.len() <= 0xFFFF,
        bps <= 64,
        forall|i: int| 0 <= i < data@.len() ==> -0x1_0000_0000 <= #[trigger] data@[i] <= 0x1_0000_0000,
        ref_residuals matches Some(v) ==> v@.len() == data@.len() && within36(v@),
    ensures
        mode_shape_ok(r.mode@, data@.len()),
        r.wasted_bits < 64,
        r.ref_track is Some ==> t > 0,
        sub_fact(r@, data@, ref_view(*ref_residuals)),
        t == 0 ==> r.ref_track is None && r.ref_weight == 0,
        t == 0 && no_lpc_from(lpc) ==> forall|b: nat|
            1 <= b <= 27 && #[trigger] fits(data@, b) ==> r.wasted_bits < b && flac_mode_readable(
                r.mode@,
                (b - r.wasted_bits) as nat,
                data@.len(),
                true,
            ),
{
    let sf = predict_channel(data, bps, level, lpc);
    if t > 0 {
        match ref_residuals {
            Some(ref_res) => {
                let ghost m_before = sf.mode@;
                let (m, rt, rw) = maybe_cross(sf.mode, ref_res);
                proof {
                    if rt is Some {
                        lemma_cross_fact(m_before, sf.wasted_bits, data@, ref_res@, rw, m@);
                    }
                }
                return Subframe { mode: m, ref_track: rt, ref_weight: rw, wasted_bits: sf.wasted_bits };
            },
            None => {},
        }
    }
    sf
}

/// Encodes a stereo block: the stereo mode search, then each coded channel predicted.
fn encode_stereo_block<F: Fn(&[i64]) -> Vec<Vec<LpcCandidate>>>(
    bc: &Vec<Vec<i64>>,
    cbs: usize,
    bps: usize,
    level: CompressionLevel,
    lpc: &F,
    t: usize,
    frame_seq: u32,
    ref_residuals: &Option<Vec<i64>>,
) -> (r: Frame)
    requires
        forall|x: &[i64]| #[trigger] lpc.requires((x,)),
        1 <= cbs <= 0xFFFF,
        bps <= 32,
        bc@.len() == 2,
        forall|c: int| 0 <= c < 2 ==> #[trigger] bc@[c]@.len() == cbs && pcm32(bc@[c]@),
        ref_residuals matches Some(v) ==> v@.len() == cbs && within36(v@),
    ensures
        frame_shape_ok(r, cbs as nat),
        frame_recovers(r@, t as nat, ref_view(*ref_residuals), chans(bc@)),
        t == 0 && no_lpc_from(lpc) && 1 <= bps <= 26 && fits(bc@[0]@, bps as nat) && fits(bc@[1]@, bps as nat)
            ==> flac_subs_ok(r@, bps as nat),
{
    let ghost enc_rf = ref_view(*ref_residuals);
    proof {
        assert(pcm32(bc@[0]@) && pcm32(bc@[1]@));
        lemma_stereo_bounded(bc@[0]@, bc@[1]@);
    }
    let (sm, ch0, ch1) = search_stereo_mode(bc[0].as_slice(), bc[1].as_slice());
    proof {
        lemma_stereo_bounded(bc@[0]@, bc@[1]@);
        assert(forall|i: int| 0 <= i < ch0@.len() ==> -0x1_0000_0000 <= #[trigger] ch0@[i] <= 0x1_0000_0000);
    }
    let sf0 = predict_first(&ch0, bps, level, lpc, t, ref_residuals);
    let side_bps = if sm == StereoMode::Independent {
        bps
    } else {
        bps + 1
    };
    let sf1 = predict_channel(&ch1, side_bps, level, lpc);
    let ghost s0 = sf0@;
    let ghost s1 = sf1@;
    let mut subframes: Vec<Subframe> = Vec::new();
    subframes.push(sf0);
    subframes.push(sf1);
    let channel_layout = match sm {
        StereoMode::Independent => ChannelLayout::Stereo,
        StereoMode::LeftSide => ChannelLayout::StereoLeftSide,
        StereoMode::RightSide => ChannelLayout::StereoRightSide,
        StereoMode::MidSide => ChannelLayout::StereoMidSide,
    };
    let frame = Frame { frame_seq, block_size: cbs as u32, channel_layout, subframes };
    proof {
        let f = frame@;
        let block = chans(bc@);
        assert(layout_stereo(channel_layout) == sm);
        lemma_pcm32_stereo(block[0], block[1], sm);
        assert(f.subframes[0] == s0);
        assert(f.subframes[1] == s1);
        assert(sub_fact(s1, ch1@, enc_rf));
        assert forall|rf: Option<Seq<i64>>| refs_agree(enc_rf, rf) implies #[trigger] frame_decodes(
            f,
            t as nat,
            rf,
        ) && frame_pcm(f, t as nat, rf) == block by {
            lemma_sub_channel(f, 0, t as nat, rf, enc_rf, ch0@);
            lemma_sub_channel(f, 1, t as nat, rf, enc_rf, ch1@);
            lemma_frame_recovers(f, t as nat, rf, block);
        }
        assert(frame_recovers(f, t as nat, enc_rf, block));
        if t == 0 && no_lpc_from(lpc) && 1 <= bps <= 26 && fits(bc@[0]@, bps as nat) && fits(bc@[1]@, bps as nat) {
            lemma_stereo_fits(bc@[0]@, bc@[1]@, sm, bps as nat);
            let b0 = chan_width(channel_layout, 0, bps as nat);
            let b1 = chan_width(channel_layout, 1, bps as nat);
            assert(b0 == (if sm == StereoMode::RightSide { bps + 1 } else { bps as int }));
            assert(b1 == (if sm == StereoMode::LeftSide || sm == StereoMode::MidSide { bps + 1 } else { bps as int }));
            assert(fits(ch0@, b0));
            assert(fits(ch1@, b1));
            assert(sub_fits(s0, b0, cbs as nat));
            assert(sub_fits(s1, b1, cbs as nat));
            lemma_sub_fits_readable(f.subframes[0], f.channel_layout, 0, bps as nat, cbs as nat);
            lemma_sub_fits_readable(f.subframes[1], f.channel_layout, 1, bps as nat, cbs as nat);
            assert forall|ch: int| 0 <= ch < f.subframes.len() implies flac_sub_readable(
                #[trigger] f.subframes[ch],
                f.channel_layout,
                ch as nat,
                bps as nat,
                f.block_size as nat,
                true,
            ) by {}
        }
    }
    frame
}

/// Encodes a block of 1 or 3 to 8 channels, each predicted on its own; for the first
/// track, also gives the first channel's residuals.
fn encode_multi_block<F: Fn(&[i64]) -> Vec<Vec<LpcCandidate>>>(
    bc: &Vec<Vec<i64>>,
    cbs: usize,
    bps: usize,
    level: CompressionLevel,
    lpc: &F,
    t: usize,
    frame_seq: u32,
    ref_residuals: &Option<Vec<i64>>,
) -> (r: (Frame, Option<Vec<i64>>))
    requires
        forall|x: &[i64]| #[trigger] lpc.requires((x,)),
        1 <= cbs <= 0xFFFF,
        bps <= 32,
        1 <= bc@.len() <= 8,
        bc@.len() != 2,
        forall|c: int| 0 <= c < bc@.len() ==> #[trigger] bc@[c]@.len() == cbs && pcm32(bc@[c]@),
        ref_residuals matches Some(v) ==> v@.len() == cbs && within36(v@),
    ensures
        frame_shape_ok(r.0, cbs as nat),
        r.1 matches Some(v) ==> v@.len() == cbs && within36(v@),
        r.1 matches Some(v) ==> t == 0 && v@ == coded_values(r.0@.subframes[0].mode, cbs as nat),
        frame_recovers(r.0@, t as nat, ref_view(*ref_residuals), chans(bc@)),
        t == 0 && no_lpc_from(lpc) && 1 <= bps <= 26 && (forall|c: int|
            0 <= c < bc@.len() ==> fits(#[trigger] bc@[c]@, bps as nat)) ==> flac_subs_ok(r.0@, bps as nat),
{
    let ghost enc_rf = ref_view(*ref_residuals);
    let ghost cond = t == 0 && no_lpc_from(lpc) && 1 <= bps <= 26 && (forall|c: int|
        0 <= c < bc@.len() ==> fits(#[trigger] bc@[c]@, bps as nat));
    let ch_count = bc.len();
    let mut subframes: Vec<Subframe> = Vec::new();
    let mut new_ref: Option<Vec<i64>> = None;
    let mut c: usize = 0;
    while c < ch_count
        invariant
            c <= ch_count,
            ch_count == bc@.len(),
            ch_count != 2,
            1 <= ch_count <= 8,
            1 <= cbs <= 0xFFFF,
            bps <= 32,
            forall|x: &[i64]| #[trigger] lpc.requires((x,)),
            forall|k: int| 0 <= k < ch_count ==> #[trigger] bc@[k]@.len() == cbs && pcm32(bc@[k]@),
            ref_residuals matches Some(v) ==> v@.len() == cbs && within36(v@),
            subframes@.len() == c,
            forall|k: int| 0 <= k < c ==> mode_shape_ok(#[trigger] subframes@[k].mode@, cbs as nat)
                && subframes@[k].wasted_bits < 64,
            new_ref matches Some(v) ==> v@.len() == cbs && within36(v@),
            enc_rf == ref_view(*ref_residuals),
            forall|k: int| 0 <= k < c ==> #[trigger] sub_fact(subframes@[k]@, bc@[k]@, enc_rf),
            forall|k: int| 0 <= k < c ==> (#[trigger] subframes@[k]).ref_track is Some ==> k == 0 && t > 0,
            new_ref matches Some(v) ==> t == 0 && c > 0 && v@ == coded_values(subframes@[0].mode@, cbs as nat),
            cond == (t == 0 && no_lpc_from(lpc) && 1 <= bps <= 26 && (forall|c: int|
                0 <= c < bc@.len() ==> fits(#[trigger] bc@[c]@, bps as nat))),
            cond ==> forall|k: int| 0 <= k < c ==> sub_fits(#[trigger] subframes@[k]@, bps as nat, cbs as nat),
        decreases ch_count - c,
    {
        let data = &bc[c];
        proof {
            assert(pcm32(data@));
            assert forall|i: int| 0 <= i < data@.len() implies -0x1_0000_0000 <= #[trigger] data@[i]
                <= 0x1_0000_0000 by {}
        }
        let sf = if c == 0 {
            predict_first(data, bps, level, lpc, t, ref_residuals)
        } else {
            predict_channel(data, bps, level, lpc)
        };
        if t == 0 && c == 0 {
            match residuals_of(&sf.mode) {
                Some(v) => {
                    new_ref = Some(v);
                },
                None => {},
            }
        }
        proof {
            assert(data@.len() == cbs);
            assert(mode_shape_ok(sf.mode@, cbs as nat) && sf.wasted_bits < 64);
        }
        let ghost before = subframes@;
        subframes.push(sf);
        proof {
            assert(subframes@[c as int] == sf);
            assert forall|k: int| 0 <= k < c implies subframes@[k] == before[k] by {}
            assert(cond ==> forall|k: int| 0 <= k < c + 1 ==> sub_fits(#[trigger] subframes@[k]@, bps as nat, cbs as nat)) by {
                if cond {
                    assert(fits(bc@[c as int]@, bps as nat));
                    assert(sub_fits(sf@, bps as nat, cbs as nat));
                    assert forall|k: int| 0 <= k < c + 1 implies sub_fits(#[trigger] subframes@[k]@, bps as nat, cbs as nat) by {
                        if k < c {
                            assert(subframes@[k] == before[k]);
                        }
                    }
                }
            }
            assert forall|k: int| 0 <= k < c + 1 implies mode_shape_ok(#[trigger] subframes@[k].mode@, cbs as nat)
                && subframes@[k].wasted_bits < 64 by {
                if k < c {
                    assert(subframes@[k] == before[k]);
                    assert(mode_shape_ok(before[k].mode@, cbs as nat));
                } else {
                    assert(subframes@[k] == sf);
                }
            }
        }
        c = c + 1;
    }
    let channel_layout = match ch_count {
        1 => ChannelLayout::Mono,
        3 => ChannelLayout::Surround3_0,
        4 => ChannelLayout::Quad,
        5 => ChannelLayout::Surround5_0,
        6 => ChannelLayout::Surround5_1,
        7 => ChannelLayout::Surround7_0,
        _ => ChannelLayout::Surround7_1,
    };
    let frame = Frame { frame_seq, block_size: cbs as u32, channel_layout, subframes };
    proof {
        let f = frame@;
        let block = chans(bc@);
        assert forall|rf: Option<Seq<i64>>| refs_agree(enc_rf, rf) implies #[trigger] frame_decodes(
            f,
            t as nat,
            rf,
        ) && frame_pcm(f, t as nat, rf) == block by {
            assert forall|k: int| 0 <= k < block.len() implies #[trigger] channel_ok(f, k, t as nat, rf, block[k]) by {
                assert(f.subframes[k] == frame.subframes@[k]@);
                lemma_sub_channel(f, k, t as nat, rf, enc_rf, block[k]);
            }
            lemma_frame_recovers(f, t as nat, rf, block);
        }
        if cond {
            assert forall|ch: int| 0 <= ch < f.subframes.len() implies flac_sub_readable(
                #[trigger] f.subframes[ch],
                f.channel_layout,
                ch as nat,
                bps as nat,
                f.block_size as nat,
                true,
            ) by {
                assert(f.subframes[ch] == frame.subframes@[ch]@);
                assert(chan_width(f.channel_layout, ch as nat, bps as nat) == bps);
                lemma_sub_fits_readable(f.subframes[ch], f.channel_layout, ch as nat, bps as nat, cbs as nat);
            }
        }
        assert(frame_recovers(f, t as nat, enc_rf, block));
        if new_ref is Some {
            assert(f.subframes[0] == frame.subframes@[0]@);
        }
    }
    (frame, new_ref)
}

/// Encodes one block, samples `offset .. offset + cbs`, of track `t` as a frame; for the
/// first track, also gives the residuals of its first channel, which the other tracks'
/// first channels may be predicted from. The frame decodes back to the block, with any
/// reference that agrees with the one given.
pub fn encode_block<F: Fn(&[i64]) -> Vec<Vec<LpcCandidate>>>(
    track: &Vec<Vec<i64>>,
    offset: usize,
    cbs: usize,
    bps: usize,
    level: CompressionLevel,
    lpc: &F,
    t: usize,
    frame_seq: u32,
    ref_residuals: &Option<Vec<i64>>,
) -> (r: (Frame, Option<Vec<i64>>))
    requires
        forall|x: &[i64]| #[trigger] lpc.requires((x,)),
        1 <= cbs <= 0xFFFF,
        bps <= 32,
        track_ok(track@, (offset + cbs) as nat),
        ref_residuals matches Some(v) ==> v@.len() == cbs && within36(v@),
    ensures
        frame_shape_ok(r.0, cbs as nat),
        r.1 matches Some(v) ==> v@.len() == cbs && within36(v@),
        r.1 matches Some(v) ==> t == 0 && v@ == coded_values(r.0@.subframes[0].mode, cbs as nat),
        frame_recovers(r.0@, t as nat, ref_view(*ref_residuals), block_of(track@, offset as nat, cbs as nat)),
        t == 0 && no_lpc_from(lpc) && 1 <= bps <= 26 && (forall|ch: int|
            0 <= ch < track@.len() ==> fits(#[trigger] block_of(track@, offset as nat, cbs as nat)[ch], bps as nat))
            ==> flac_subs_ok(r.0@, bps as nat),
{
    let bc = block_channels_of(track, offset, cbs);
    proof {
        assert forall|c: int| 0 <= c < bc@.len() implies #[trigger] bc@[c]@ == block_of(track@, offset as nat, cbs as nat)[c] by {
            assert(chans(bc@)[c] == bc@[c]@);
        }
    }
    if bc.len() == 2 {
        let f = encode_stereo_block(&bc, cbs, bps, level, lpc, t, frame_seq, ref_residuals);
        (f, None)
    } else {
        encode_multi_block(&bc, cbs, bps, level, lpc, t, frame_seq, ref_residuals)
    }
}

/// The header an encoded session carries: the sample rate and bit depth, and for each
/// track its name, the first track's first channel's length, and the MD5 of its samples
/// interleaved at the bit depth.
pub open spec fn expected_header(tracks: Seq<Vec<Vec<i64>>>, names: Seq<String>, rate: u32, depth: u8) -> HeaderSpec {
    let total = tracks[0]@[0]@.len();
    HeaderSpec {
        sample_rate: rate,
        bit_depth: depth,
        tracks: Seq::new(
            tracks.len(),
            |t: int|
                TrackInfoSpec {
                    name: names[t]@,
                    total_samples: total as u64,
                    md5: md5_of(pcm_bytes(interleaved(track_prefix(tracks[t]@, total)), depth)),
                },
        ),
    }
}

/// The first `total` samples of each channel of a track.
pub open spec fn track_prefix(track: Seq<Vec<i64>>, total: nat) -> Seq<Seq<i64>> {
    Seq::new(track.len(), |c: int| track[c]@.take(total as int))
}

/// The samples of a track interleaved, the first `total` of each channel.
fn interleave(track: &Vec<Vec<i64>>, total: usize) -> (r: Vec<i64>)
    requires
        1 <= track@.len() <= 8,
        forall|ch: int| 0 <= ch < track@.len() ==> #[trigger] track@[ch]@.len() >= total,
    ensures
        r@ == interleaved(track_prefix(track@, total as nat)),
{
    let ghost chs = track_prefix(track@, total as nat);
    let n = track.len();
    let mut interleaved: Vec<i64> = Vec::new();
    let mut s: usize = 0;
    while s < total
        invariant
            s <= total,
            n == track@.len(),
            1 <= n <= 8,
            chs == track_prefix(track@, total as nat),
            forall|ch: int| 0 <= ch < track@.len() ==> #[trigger] track@[ch]@.len() >= total,
            interleaved@.len() == s * n,
            forall|i: int| 0 <= i < s * n ==> #[trigger] interleaved@[i] == chs[i % (n as int)][i / (n as int)],
        decreases total - s,
    {
        let mut ch: usize = 0;
        while ch < n
            invariant
                ch <= n,
                s < total,
                n == track@.len(),
                1 <= n <= 8,
                chs == track_prefix(track@, total as nat),
                forall|c: int| 0 <= c < track@.len() ==> #[trigger] track@[c]@.len() >= total,
                interleaved@.len() == s * n + ch,
                forall|i: int| 0 <= i < s * n + ch ==> #[trigger] interleaved@[i] == chs[i % (n as int)][i / (n as int)],
            decreases n - ch,
        {
            proof {
                assert(track@[ch as int]@.len() >= total);
                assert((s * n + ch) % (n as int) == ch as int && (s * n + ch) / (n as int) == s as int) by (nonlinear_arith)
                    requires
                        ch < n,
                        n > 0,
                ;
                assert(chs[ch as int][s as int] == track@[ch as int]@[s as int]);
            }
            interleaved.push(track[ch][s]);
            ch = ch + 1;
        }
        proof {
            assert(s * n + n == (s + 1) * n) by (nonlinear_arith);
        }
        s = s + 1;
    }
    proof {
        assert(chs[0].len() == total);
        assert(interleaved@ =~= crate::render::interleaved(chs));
    }
    interleaved
}

/// Appends `src[start..end]`.
fn push_range(out: &mut Vec<u8>, src: &Vec<u8>, start: usize, end: usize)
    requires
        start <= end <= src@.len(),
    ensures
        final(out)@ == old(out)@ + src@.subrange(start as int, end as int),
{
    let mut i = start;
    while i < end
        invariant
            start <= i <= end,
            end <= src@.len(),
            out@ == old(out)@ + src@.subrange(start as int, i as int),
        decreases end - i,
    {
        out.push(src[i]);
        proof {
            assert(out@ =~= old(out)@ + src@.subrange(start as int, i + 1));
        }
        i = i + 1;
    }
}

/// An optional `usize` as an optional `nat`.
pub open spec fn opt_nat(o: Option<usize>) -> Option<nat> {
    match o {
        Some(x) => Some(x as nat),
        None => None,
    }
}

/// Where a transient found at `idx` cuts the block: 64 samples before it, but at least 128
/// samples in.
pub open spec fn split_point(idx: usize) -> nat {
    let back: nat = if idx > 64 {
        (idx - 64) as nat
    } else {
        0
    };
    if back > 128 {
        back
    } else {
        128
    }
}

/// The smaller of two optional cut points; none counts as no cut.
pub open spec fn min_cut(a: Option<nat>, b: Option<nat>) -> Option<nat> {
    match (a, b) {
        (Some(x), Some(y)) => Some(
            if y < x {
                y
            } else {
                x
            },
        ),
        (Some(x), None) => Some(x),
        (None, y) => y,
    }
}

/// The cut point that channel `c` asks for in the block of `cbs` samples at `offset`.
pub open spec fn channel_cut(c: Seq<i64>, offset: nat, cbs: nat) -> Option<nat> {
    match transient_spec(c.subrange(offset as int, (offset + cbs) as int)) {
        Some(i) => Some(split_point(i)),
        None => None,
    }
}

/// The earliest cut point over the first `n` channels of a track.
pub open spec fn channels_cut(tr: Seq<Vec<i64>>, n: nat, offset: nat, cbs: nat) -> Option<nat>
    decreases n,
{
    if n == 0 {
        None
    } else {
        min_cut(channels_cut(tr, (n - 1) as nat, offset, cbs), channel_cut(tr[n - 1]@, offset, cbs))
    }
}

/// The earliest cut point over every channel of the first `n` tracks.
pub open spec fn tracks_cut(ts: Seq<Vec<Vec<i64>>>, n: nat, offset: nat, cbs: nat) -> Option<nat>
    decreases n,
{
    if n == 0 {
        None
    } else {
        min_cut(
            tracks_cut(ts, (n - 1) as nat, offset, cbs),
            channels_cut(ts[n - 1]@, ts[n - 1]@.len(), offset, cbs),
        )
    }
}

/// The block size after the transient search: the earliest cut point over every channel of
/// every track, where it lies inside the block, else the whole block.
pub open spec fn block_cut(ts: Seq<Vec<Vec<i64>>>, offset: nat, cbs: nat) -> nat {
    match tracks_cut(ts, ts.len(), offset, cbs) {
        Some(c) => if c < cbs {
            c
        } else {
            cbs
        },
        None => cbs,
    }
}

/// The block size after the transient search: the block is cut at the earliest transient
/// any channel of any track shows (64 samples before it, at least 128 samples in), if that
/// is inside the block, as `block_cut` says.
fn transient_split(tracks: &[Vec<Vec<i64>>], offset: usize, cbs: usize) -> (r: usize)
    requires
        1 <= cbs,
        forall|t: int| 0 <= t < tracks@.len() ==> track_ok(#[trigger] tracks@[t]@, (offset + cbs) as nat),
    ensures
        1 <= r <= cbs,
        r == block_cut(tracks@, offset as nat, cbs as nat),
{
    let mut earliest: Option<usize> = None;
    let mut t: usize = 0;
    while t < tracks.len()
        invariant
            t <= tracks@.len(),
            forall|k: int| 0 <= k < tracks@.len() ==> track_ok(#[trigger] tracks@[k]@, (offset + cbs) as nat),
            earliest matches Some(e) ==> e >= 128,
            opt_nat(earliest) == tracks_cut(tracks@, t as nat, offset as nat, cbs as nat),
        decreases tracks@.len() - t,
    {
        let track = &tracks[t];
        proof {
            assert(track_ok(track@, (offset + cbs) as nat));
        }
        let mut ch: usize = 0;
        while ch < track.len()
            invariant
                ch <= track@.len(),
                track_ok(track@, (offset + cbs) as nat),
                t < tracks@.len(),
                track@ == tracks@[t as int]@,
                earliest matches Some(e) ==> e >= 128,
                opt_nat(earliest) == min_cut(
                    tracks_cut(tracks@, t as nat, offset as nat, cbs as nat),
                    channels_cut(track@, ch as nat, offset as nat, cbs as nat),
                ),
            decreases track@.len() - ch,
        {
            proof {
                assert(track@[ch as int]@.len() >= offset + cbs);
            }
            let blk = copy_block(&track[ch], offset, cbs);
            proof {
                let src = track@[ch as int]@;
                assert(pcm32(src.take(offset + cbs)));
                assert forall|i: int| 0 <= i < blk@.len() implies -0x1_0000_0000 <= #[trigger] blk@[i]
                    <= 0x1_0000_0000 by {
                    assert(blk@[i] == src.take(offset + cbs)[offset + i]);
                }
            }
            let found = detect_transient(blk.as_slice());
            proof {
                assert(blk@ == track@[ch as int]@.subrange(offset as int, offset + cbs));
                assert(channels_cut(track@, (ch + 1) as nat, offset as nat, cbs as nat) == min_cut(
                    channels_cut(track@, ch as nat, offset as nat, cbs as nat),
                    channel_cut(track@[ch as int]@, offset as nat, cbs as nat),
                ));
            }
            match found {
                Some(idx) => {
                    let back = if idx > 64 {
                        idx - 64
                    } else {
                        0
                    };
                    let split_at = if back > 128 {
                        back
                    } else {
                        128
                    };
                    earliest = match earliest {
                        Some(e) => Some(if split_at < e {
                            split_at
                        } else {
                            e
                        }),
                        None => Some(split_at),
                    };
                },
                None => {},
            }
            ch = ch + 1;
        }
        proof {
            assert(tracks_cut(tracks@, (t + 1) as nat, offset as nat, cbs as nat) == min_cut(
                tracks_cut(tracks@, t as nat, offset as nat, cbs as nat),
                channels_cut(tracks@[t as int]@, tracks@[t as int]@.len(), offset as nat, cbs as nat),
            ));
        }
        t = t + 1;
    }
    match earliest {
        Some(split) => if split < cbs {
            split
        } else {
            cbs
        },
        None => cbs,
    }
}

fn push_flac_magic(out: &mut Vec<u8>)
    ensures
        final(out)@ == old(out)@ + flac_magic(),
{
    out.push(0x66);
    out.push(0x4C);
    out.push(0x61);
    out.push(0x43);
    proof {
        assert(final(out)@ =~= old(out)@ + flac_magic());
    }
}

/// Lays out a session around its STREAMINFO, tags, picture, payload and first track's
/// frames, as `session_layout` says.
fn assemble_session(
    streaminfo: &StreamInfo,
    tags: Option<&MetadataTags>,
    picture: Option<&PictureBlock>,
    loom_payload: &Vec<u8>,
    track0_frames: &Vec<u8>,
) -> (out: Vec<u8>)
    requires
        streaminfo.channels >= 1,
        streaminfo.bit_depth >= 1,
    ensures
        out@ == session_layout(
            streaminfo_bytes(*streaminfo),
            tags_opt_bytes(
                match tags {
                    Some(t) => Some(t.spec_tags()),
                    None => None,
                },
            ),
            picture_opt_bytes(
                match picture {
                    Some(p) => Some(p@),
                    None => None,
                },
            ),
            loom_payload@,
            track0_frames@,
        ),
{
    let mut out: Vec<u8> = Vec::new();
    push_flac_magic(&mut out);
    write_metadata_block_header(&mut out, false, 0, 34);
    streaminfo.serialize(&mut out);
    let ghost si = streaminfo_bytes(*streaminfo);
    let ghost tgb = match tags {
        Some(tg) => Some(tags_bytes(tg.spec_tags())),
        None => None,
    };
    match tags {
        Some(tg) => {
            let mut t_buf: Vec<u8> = Vec::new();
            tg.serialize(&mut t_buf);
            write_metadata_block_header(&mut out, false, 4, t_buf.len() as u32);
            push_all(&mut out, t_buf.as_slice());
        },
        None => {},
    }
    let ghost picb = match picture {
        Some(p) => Some(picture_bytes(p@)),
        None => None,
    };
    match picture {
        Some(p) => {
            let mut p_buf: Vec<u8> = Vec::new();
            p.serialize(&mut p_buf);
            write_metadata_block_header(&mut out, false, 6, p_buf.len() as u32);
            push_all(&mut out, p_buf.as_slice());
        },
        None => {},
    }
    let ghost head = out@;
    proof {
        assert(head =~= flac_magic() + block_header_bytes(false, 0, 34) + si + opt_block(4, tgb)
            + opt_block(6, picb));
    }
    let ghost lp = loom_payload@;
    let chunk_size: usize = 16_000_000;
    let mut i: usize = 0;
    while i < loom_payload.len()
        invariant
            i <= loom_payload@.len(),
            loom_payload@.len() == loom_payload.len(),
            loom_payload@ == lp,
            chunk_size == 16_000_000,
            out@ + app_chunks(lp, i as nat) == head + app_chunks(lp, 0),
        decreases loom_payload@.len() - i,
    {
        let end = if loom_payload.len() - i > chunk_size {
            i + chunk_size
        } else {
            loom_payload.len()
        };
        let ghost before = out@;
        proof {
            assert(end == chunk_end(lp, i as nat));
            assert(((end - i) as u32) + 4 == (chunk_end(lp, i as nat) - i + 4) as u32);
        }
        write_metadata_block_header(&mut out, false, 2, ((end - i) as u32) + 4);
        out.push(0x4C);
        out.push(0x4F);
        out.push(0x4F);
        out.push(0x4D);
        push_range(&mut out, loom_payload, i, end);
        proof {
            assert(out@ =~= before + block_header_bytes(false, 2, (chunk_end(lp, i as nat) - i + 4) as u32)
                + loom_magic() + lp.subrange(i as int, end as int));
            assert(app_chunks(lp, i as nat) == block_header_bytes(false, 2, (chunk_end(lp, i as nat) - i + 4) as u32)
                + loom_magic() + lp.subrange(i as int, end as int) + app_chunks(lp, end as nat));
            assert(out@ + app_chunks(lp, end as nat) =~= before + app_chunks(lp, i as nat));
        }
        i = end;
    }
    proof {
        assert(app_chunks(lp, i as nat) =~= Seq::<u8>::empty());
        assert(out@ =~= head + app_chunks(lp, 0));
    }
    write_metadata_block_header(&mut out, true, 1, 4096);
    let ghost padded = out@;
    let mut z: usize = 0;
    while z < 4096
        invariant
            z <= 4096,
            out@ == padded + Seq::new(z as nat, |j: int| 0u8),
        decreases 4096 - z,
    {
        out.push(0);
        proof {
            assert(out@ =~= padded + Seq::new((z + 1) as nat, |j: int| 0u8));
        }
        z = z + 1;
    }
    push_all(&mut out, track0_frames.as_slice());
    proof {
        assert(out@ =~= session_layout(si, tgb, picb, lp, track0_frames@));
    }
    out
}

/// Closing a block: what the block's frames, bytes and seek points add keeps the blocks
/// written as `frames_ok` and `seek_points` say.
proof fn lemma_round_done(
    ts: Seq<Vec<Vec<i64>>>,
    sz: Seq<nat>,
    fr: Seq<Seq<FrameSpec>>,
    refs: Seq<Option<Seq<i64>>>,
    fb: Seq<Seq<u8>>,
    lb: Seq<Seq<Seq<u8>>>,
    bps: nat,
    ae: bool,
    offset: nat,
    split: nat,
    cur_fr: Seq<FrameSpec>,
    cur_ref: Option<Seq<i64>>,
    cur_fb0: Seq<u8>,
    cur_lb: Seq<Seq<u8>>,
    pv: Seq<Seq<SeekPoint>>,
)
    requires
        ts.len() >= 1,
        frames_ok(ts, sz, bps, ae, fr, refs, fb, lb),
        offset == block_start(sz, sz.len() as int),
        cur_fr.len() == ts.len(),
        cur_lb.len() == ts.len(),
        forall|k: int| 0 <= k < ts.len() ==> (#[trigger] cur_fr[k]).block_size == split,
        frame_recovers(cur_fr[0], 0, None, block_of(ts[0]@, offset, split)),
        framed(cur_fb0, flac_frame_bits(cur_fr[0], offset as u64, bps, ae)),
        cur_ref matches Some(v) ==> v == coded_values(cur_fr[0].subframes[0].mode, split),
        forall|k: int|
            1 <= k < ts.len() ==> frame_recovers(#[trigger] cur_fr[k], k as nat, cur_ref, block_of(ts[k]@, offset, split))
                && framed(cur_lb[k], loom_frame_bits(cur_fr[k], k as u16, bps, ae)),
        pv.len() == ts.len(),
        forall|k: int|
            0 <= k < ts.len() ==> #[trigger] pv[k] == seek_points(sz, fb, lb, ts.len())[k].push(
                SeekPoint {
                    sample_number: offset as u64,
                    byte_offset: (if k == 0 {
                        cat(fb).len()
                    } else {
                        (loom_cat(lb, ts.len(), sz.len() as int) + loom_round(cur_lb, k)).len()
                    }) as u64,
                    frame_samples: split as u32,
                },
            ),
    ensures
        frames_ok(ts, sz.push(split), bps, ae, fr.push(cur_fr), refs.push(cur_ref), fb.push(cur_fb0), lb.push(cur_lb)),
        block_start(sz.push(split), sz.len() + 1 as int) == offset + split,
        cat(fb.push(cur_fb0)) == cat(fb) + cur_fb0,
        loom_cat(lb.push(cur_lb), ts.len(), sz.len() + 1 as int) == loom_cat(lb, ts.len(), sz.len() as int) + loom_round(
            cur_lb,
            ts.len() as int,
        ),
        forall|k: int| 0 <= k < ts.len() ==> #[trigger] pv[k] == seek_points(sz.push(split), fb.push(cur_fb0), lb.push(cur_lb), ts.len())[k],
{
    let nt = ts.len();
    let i = sz.len() as int;
    let s_new = sz.push(split);
    let fb_new = fb.push(cur_fb0);
    let lb_new = lb.push(cur_lb);
    let fr_new = fr.push(cur_fr);
    let refs_new = refs.push(cur_ref);
    lemma_block_start_push(sz, split, i);
    assert(fb_new.drop_last() =~= fb);
    lemma_loom_cat_push(lb, cur_lb, nt, i);
    assert(round_ok(ts, s_new, i, bps, ae, cur_fr, cur_ref, cur_fb0, cur_lb)) by {
        assert(s_new[i] == split);
    }
    assert forall|j: int| 0 <= j < s_new.len() implies #[trigger] round_ok(
        ts,
        s_new,
        j,
        bps,
        ae,
        fr_new[j],
        refs_new[j],
        fb_new[j],
        lb_new[j],
    ) by {
        if j < i {
            assert(round_ok(ts, sz, j, bps, ae, fr[j], refs[j], fb[j], lb[j]));
            lemma_round_ok_push(ts, sz, split, j, bps, ae, fr[j], refs[j], fb[j], lb[j]);
        }
    }
    assert forall|k: int| 0 <= k < nt implies #[trigger] pv[k] == seek_points(s_new, fb_new, lb_new, nt)[k] by {
        let old_k = seek_points(sz, fb, lb, nt)[k];
        let new_k = seek_points(s_new, fb_new, lb_new, nt)[k];
        assert forall|j: int| 0 <= j < i implies #[trigger] new_k[j] == old_k[j] by {
            lemma_block_start_push(sz, split, j);
            assert(fb_new.take(j) =~= fb.take(j));
            lemma_loom_cat_push(lb, cur_lb, nt, j);
            assert(s_new[j] == sz[j]);
            assert(lb_new[j] == lb[j]);
        }
        assert(fb_new.take(i) =~= fb);
        assert(lb_new[i] == cur_lb);
        assert(new_k =~= pv[k]);
    }
}

/// Cuts the tracks into blocks as `block_sizes` says and encodes every block of every
/// track: the first track's frames as FLAC frames, the others' as Loom frames each after its
/// length, with their seek points and the smallest and largest block and frame; the frames
/// themselves come back as ghost values, as `frames_ok` says of them.
#[verifier::rlimit(60)]
fn encode_blocks<F: Fn(&[i64]) -> Vec<Vec<LpcCandidate>>>(
    tracks: &[Vec<Vec<i64>>],
    total: usize,
    bs: usize,
    bps: usize,
    level: CompressionLevel,
    lpc: &F,
) -> (r: (
    Vec<u8>,
    Vec<u8>,
    Vec<Vec<SeekPoint>>,
    u16,
    u16,
    u32,
    u32,
    Ghost<(Seq<Seq<FrameSpec>>, Seq<Option<Seq<i64>>>, Seq<Seq<u8>>, Seq<Seq<Seq<u8>>>)>,
))
    requires
        forall|x: &[i64]| #[trigger] lpc.requires((x,)),
        1 <= tracks@.len() <= 0xFFFF,
        1 <= bps <= 32,
        1 <= bs <= 0xFFFF,
        total <= u32::MAX,
        forall|k: int| 0 <= k < tracks@.len() ==> track_ok(#[trigger] tracks@[k]@, total as nat),
    ensures
        ({
            let sz = block_sizes(tracks@, total as nat, bs as nat, 0);
            let (fr, refs, fb, lb) = r.7@;
            let nt = tracks@.len();
            &&& frames_ok(tracks@, sz, bps as nat, level_number(level) >= 4, fr, refs, fb, lb)
            &&& r.0@ == cat(fb)
            &&& r.1@ == loom_cat(lb, nt, sz.len() as int)
            &&& sz.len() <= total
            &&& r.2@.len() == nt
            &&& forall|t: int| 0 <= t < nt ==> #[trigger] r.2@[t]@ == seek_points(sz, fb, lb, nt)[t]
            &&& r.3 as nat == seq_min(sz, 0xFFFF)
            &&& r.4 as nat == seq_max(sz, 0)
            &&& r.5 as nat == seq_min(frame_sizes(fb), 0xFFFF_FFFF)
            &&& r.6 as nat == seq_max(frame_sizes(fb), 0)
            &&& no_lpc_from(lpc) && nt == 1 && bps <= 26 && tracks_fit(tracks@, total as nat, bps as nat)
                ==> frames_readable(tracks@, sz, bps as nat, level_number(level) >= 4, fr, lb)
        }),
{
    let num_tracks = tracks.len();
    let allow_escape = level.escape_coding();
    let ghost nt = num_tracks as nat;
    let ghost ae = level_number(level) >= 4;
    let ghost full = block_sizes(tracks@, total as nat, bs as nat, 0);
    let ghost cond = no_lpc_from(lpc) && num_tracks == 1 && bps <= 26 && tracks_fit(tracks@, total as nat, bps as nat);
    let mut track0_frames_buf: Vec<u8> = Vec::new();
    let mut loom_frames_buf: Vec<u8> = Vec::new();
    let mut points: Vec<Vec<SeekPoint>> = Vec::new();
    let mut k: usize = 0;
    while k < num_tracks
        invariant
            k <= num_tracks,
            points@.len() == k,
            forall|j: int| 0 <= j < k ==> #[trigger] points@[j]@ == Seq::<SeekPoint>::empty(),
        decreases num_tracks - k,
    {
        points.push(Vec::new());
        k = k + 1;
    }
    let ghost mut sz: Seq<nat> = seq![];
    let ghost mut fr: Seq<Seq<FrameSpec>> = seq![];
    let ghost mut refs: Seq<Option<Seq<i64>>> = seq![];
    let ghost mut fb: Seq<Seq<u8>> = seq![];
    let ghost mut lb: Seq<Seq<Seq<u8>>> = seq![];
    proof {
        assert(full =~= sz + block_sizes(tracks@, total as nat, bs as nat, 0));
        assert forall|t: int| 0 <= t < nt implies #[trigger] points@[t]@ == seek_points(sz, fb, lb, nt)[t] by {
            assert(seek_points(sz, fb, lb, nt)[t] =~= Seq::<SeekPoint>::empty());
        }
    }
    let mut offset: usize = 0;
    let mut frame_seq: u32 = 0;
    let mut min_block_size: u16 = 0xFFFF;
    let mut max_block_size: u16 = 0;
    let mut min_frame_size: u32 = 0xFFFF_FFFF;
    let mut max_frame_size: u32 = 0;
    while offset < total
        invariant
            offset <= total,
            total <= u32::MAX,
            frame_seq <= offset,
            num_tracks == tracks@.len(),
            nt == num_tracks,
            1 <= num_tracks <= 0xFFFF,
            allow_escape == ae,
            ae == (level_number(level) >= 4),
            forall|x: &[i64]| #[trigger] lpc.requires((x,)),
            1 <= bps <= 32,
            1 <= bs <= 0xFFFF,
            forall|k: int| 0 <= k < num_tracks ==> track_ok(#[trigger] tracks@[k]@, total as nat),
            full == block_sizes(tracks@, total as nat, bs as nat, 0),
            full == sz + block_sizes(tracks@, total as nat, bs as nat, offset as nat),
            offset as nat == block_start(sz, sz.len() as int),
            frame_seq as nat == sz.len(),
            sz.len() <= offset,
            frames_ok(tracks@, sz, bps as nat, ae, fr, refs, fb, lb),
            track0_frames_buf@ == cat(fb),
            loom_frames_buf@ == loom_cat(lb, nt, sz.len() as int),
            points@.len() == num_tracks,
            forall|t: int| 0 <= t < nt ==> #[trigger] points@[t]@ == seek_points(sz, fb, lb, nt)[t],
            min_block_size as nat == seq_min(sz, 0xFFFF),
            max_block_size as nat == seq_max(sz, 0),
            min_frame_size as nat == seq_min(frame_sizes(fb), 0xFFFF_FFFF),
            max_frame_size as nat == seq_max(frame_sizes(fb), 0),
            cond == (no_lpc_from(lpc) && num_tracks == 1 && bps <= 26 && tracks_fit(tracks@, total as nat, bps as nat)),
            cond ==> forall|j: int| 0 <= j < sz.len() ==> #[trigger] round_readable(tracks@, sz, j, bps as nat, ae, fr[j], lb[j]),
        decreases total - offset,
    {
        let rest = total - offset;
        let mut cbs = if bs < rest {
            bs
        } else {
            rest
        };
        proof {
            assert forall|k: int| 0 <= k < num_tracks implies track_ok(#[trigger] tracks@[k]@, (offset + cbs) as nat) by {
                let tr = tracks@[k]@;
                assert(track_ok(tr, total as nat));
                assert forall|ch: int| 0 <= ch < tr.len() implies #[trigger] tr[ch]@.len() >= offset + cbs
                    && pcm32(tr[ch]@.take(offset + cbs)) by {
                    assert(pcm32(tr[ch]@.take(total as int)));
                    assert forall|i: int| 0 <= i < tr[ch]@.take(offset + cbs).len() implies -0x8000_0000
                        <= #[trigger] tr[ch]@.take(offset + cbs)[i] < 0x8000_0000 by {
                        assert(tr[ch]@.take(offset + cbs)[i] == tr[ch]@.take(total as int)[i]);
                    }
                }
            }
        }
        let split = transient_split(tracks, offset, cbs);
        proof {
            assert forall|k: int| 0 <= k < num_tracks implies track_ok(#[trigger] tracks@[k]@, (offset + split) as nat) by {
                let tr = tracks@[k]@;
                assert(track_ok(tr, (offset + cbs) as nat));
                assert forall|ch: int| 0 <= ch < tr.len() implies #[trigger] tr[ch]@.len() >= offset + split
                    && pcm32(tr[ch]@.take(offset + split)) by {
                    assert(pcm32(tr[ch]@.take(offset + cbs)));
                    assert forall|i: int| 0 <= i < tr[ch]@.take(offset + split).len() implies -0x8000_0000
                        <= #[trigger] tr[ch]@.take(offset + split)[i] < 0x8000_0000 by {
                        assert(tr[ch]@.take(offset + split)[i] == tr[ch]@.take(offset + cbs)[i]);
                    }
                }
            }
            assert(try_size(bs as nat, total as nat, offset as nat) == cbs);
            assert(block_sizes(tracks@, total as nat, bs as nat, offset as nat) == seq![split as nat]
                + block_sizes(tracks@, total as nat, bs as nat, (offset + split) as nat));
        }
        cbs = split;
        if (cbs as u16) < min_block_size {
            min_block_size = cbs as u16;
        }
        if (cbs as u16) > max_block_size {
            max_block_size = cbs as u16;
        }
        let ghost i = sz.len() as int;
        let ghost loom_before = loom_frames_buf@;
        let ghost pts_before = seek_points(sz, fb, lb, nt);
        let ghost mut cur_fr: Seq<FrameSpec> = seq![];
        let ghost mut cur_lb: Seq<Seq<u8>> = seq![];
        let ghost mut cur_fb0: Seq<u8> = seq![];
        let ghost mut cur_ref: Option<Seq<i64>> = None;
        let ghost mut fsize_nat: nat = 0;
        let mut ref_residuals: Option<Vec<i64>> = None;
        let mut t: usize = 0;
        while t < num_tracks
            invariant
                t <= num_tracks,
                num_tracks == tracks@.len(),
                nt == num_tracks,
                1 <= num_tracks,
                points@.len() == num_tracks,
                frame_seq <= offset,
                offset + cbs <= total <= u32::MAX,
                1 <= cbs <= 0xFFFF,
                1 <= bps <= 32,
                allow_escape == ae,
                forall|x: &[i64]| #[trigger] lpc.requires((x,)),
                forall|k: int| 0 <= k < num_tracks ==> track_ok(#[trigger] tracks@[k]@, (offset + cbs) as nat),
                ref_residuals matches Some(v) ==> v@.len() == cbs && within36(v@),
                t == 0 ==> ref_residuals is None,
                ref_view(ref_residuals) == cur_ref,
                cur_fr.len() == t,
                cur_lb.len() == t,
                forall|k: int| 0 <= k < t ==> (#[trigger] cur_fr[k]).block_size == cbs,
                cond == (no_lpc_from(lpc) && num_tracks == 1 && bps <= 26 && tracks_fit(tracks@, total as nat, bps as nat)),
                offset + cbs <= total,
                forall|k: int| 0 <= k < num_tracks ==> track_ok(#[trigger] tracks@[k]@, total as nat),
                cond && t >= 1 ==> flac_frame_readable(cur_fr[0], offset as u64, bps as nat, ae),
                t >= 1 ==> cur_lb[0] == Seq::<u8>::empty(),
                t >= 1 ==> frame_recovers(cur_fr[0], 0, None, block_of(tracks@[0]@, offset as nat, cbs as nat)),
                t >= 1 ==> framed(cur_fb0, flac_frame_bits(cur_fr[0], offset as u64, bps as nat, ae)),
                cur_ref matches Some(v) ==> v == coded_values(cur_fr[0].subframes[0].mode, cbs as nat),
                forall|k: int|
                    1 <= k < t ==> frame_recovers(#[trigger] cur_fr[k], k as nat, cur_ref, block_of(tracks@[k]@, offset as nat, cbs as nat))
                        && framed(cur_lb[k], loom_frame_bits(cur_fr[k], k as u16, bps as nat, ae)),
                track0_frames_buf@ == cat(fb) + (if t >= 1 { cur_fb0 } else { Seq::<u8>::empty() }),
                t >= 1 ==> fsize_nat == (cur_fb0.len() as u32) as nat,
                t >= 1 ==> min_frame_size as nat == seq_min(frame_sizes(fb.push(cur_fb0)), 0xFFFF_FFFF),
                t >= 1 ==> max_frame_size as nat == seq_max(frame_sizes(fb.push(cur_fb0)), 0),
                t == 0 ==> min_frame_size as nat == seq_min(frame_sizes(fb), 0xFFFF_FFFF),
                t == 0 ==> max_frame_size as nat == seq_max(frame_sizes(fb), 0),
                loom_before == loom_cat(lb, nt, i),
                loom_frames_buf@ == loom_before + loom_round(cur_lb, t as int),
                pts_before == seek_points(sz, fb, lb, nt),
                i == sz.len(),
                forall|k: int| t <= k < nt ==> #[trigger] points@[k]@ == pts_before[k],
                forall|k: int|
                    0 <= k < t ==> #[trigger] points@[k]@ == pts_before[k].push(
                        SeekPoint {
                            sample_number: offset as u64,
                            byte_offset: (if k == 0 {
                                cat(fb).len()
                            } else {
                                (loom_before + loom_round(cur_lb, k)).len()
                            }) as u64,
                            frame_samples: cbs as u32,
                        },
                    ),
            decreases num_tracks - t,
        {
            proof {
                assert(track_ok(tracks@[t as int]@, (offset + cbs) as nat));
            }
            let ghost lb_prev = cur_lb;
            let (frame, new_ref) = encode_block(
                &tracks[t],
                offset,
                cbs,
                bps,
                level,
                lpc,
                t,
                frame_seq,
                &ref_residuals,
            );
            proof {
                lemma_frame_writable(frame, cbs as nat, bps as nat);
            }
            if t == 0 {
                proof {
                    if cond {
                        assert forall|ch: int| 0 <= ch < tracks@[0]@.len() implies fits(
                            #[trigger] block_of(tracks@[0]@, offset as nat, cbs as nat)[ch],
                            bps as nat,
                        ) by {
                            let tk = tracks@[0]@[ch]@.take(total as int);
                            assert(track_ok(tracks@[0]@, total as nat));
                            assert(tracks@[0]@[ch]@.len() >= total);
                            assert(fits(tk, bps as nat));
                            let bl = block_of(tracks@[0]@, offset as nat, cbs as nat)[ch];
                            assert forall|j: int| 0 <= j < bl.len() implies -pow2((bps - 1) as nat) <= #[trigger] bl[j]
                                < pow2((bps - 1) as nat) by {
                                assert(bl[j] == tk[offset + j]);
                            }
                        }
                        lemma_frame_readable(frame@, offset as u64, bps as nat, ae);
                    }
                }
                ref_residuals = new_ref;
                let pt = SeekPoint {
                    sample_number: offset as u64,
                    byte_offset: track0_frames_buf.len() as u64,
                    frame_samples: cbs as u32,
                };
                points[t].push(pt);
                let frame_bytes = frame.serialize_flac(offset as u64, bps, allow_escape);
                let fsize = frame_bytes.len() as u32;
                proof {
                    cur_fb0 = frame_bytes@;
                    fsize_nat = fsize as nat;
                    assert(frame_sizes(fb.push(cur_fb0)) =~= frame_sizes(fb).push(fsize as nat));
                    assert(frame_sizes(fb.push(cur_fb0)).drop_last() =~= frame_sizes(fb));
                }
                if fsize < min_frame_size {
                    min_frame_size = fsize;
                }
                if fsize > max_frame_size {
                    max_frame_size = fsize;
                }
                push_all(&mut track0_frames_buf, frame_bytes.as_slice());
                proof {
                    cur_ref = ref_view(ref_residuals);
                    cur_fr = cur_fr.push(frame@);
                    cur_lb = cur_lb.push(Seq::<u8>::empty());
                }
            } else {
                let pt = SeekPoint {
                    sample_number: offset as u64,
                    byte_offset: loom_frames_buf.len() as u64,
                    frame_samples: cbs as u32,
                };
                points[t].push(pt);
                let frame_bytes = frame.serialize_loom(t as u16, bps, allow_escape);
                push_be(&mut loom_frames_buf, frame_bytes.len() as u64, 4);
                push_all(&mut loom_frames_buf, frame_bytes.as_slice());
                proof {
                    lemma_loom_round_push(cur_lb, frame_bytes@, t as int);
                    assert forall|k: int| 1 <= k < t implies #[trigger] cur_lb.push(frame_bytes@)[k] == cur_lb[k] by {}
                    cur_fr = cur_fr.push(frame@);
                    cur_lb = cur_lb.push(frame_bytes@);
                    assert(loom_frames_buf@ =~= loom_before + loom_round(cur_lb, t + 1));
                }
            }
            proof {
                assert forall|k: int| 1 <= k <= t implies #[trigger] loom_round(cur_lb, k) == loom_round(
                    lb_prev,
                    k,
                ) by {
                    lemma_loom_round_push(lb_prev, cur_lb.last(), k);
                    assert(lb_prev.push(cur_lb.last()) =~= cur_lb);
                }
            }
            t = t + 1;
        }
        proof {
            let pv = points@.map_values(|v: Vec<SeekPoint>| v@);
            assert forall|k: int| 0 <= k < nt implies #[trigger] pv[k] == points@[k]@ by {}
            lemma_round_done(
                tracks@,
                sz,
                fr,
                refs,
                fb,
                lb,
                bps as nat,
                ae,
                offset as nat,
                split as nat,
                cur_fr,
                cur_ref,
                cur_fb0,
                cur_lb,
                pv,
            );
            assert forall|k: int| 0 <= k < nt implies #[trigger] points@[k]@ == seek_points(
                sz.push(split as nat),
                fb.push(cur_fb0),
                lb.push(cur_lb),
                nt,
            )[k] by {
                assert(pv[k] == points@[k]@);
            }
            assert(full =~= sz.push(split as nat) + block_sizes(tracks@, total as nat, bs as nat, (offset + split) as nat));
            assert(frame_sizes(fb.push(cur_fb0)) =~= frame_sizes(fb).push((cur_fb0.len() as u32) as nat));
            assert(sz.push(split as nat).drop_last() =~= sz);
            if cond {
                let s_new = sz.push(split as nat);
                lemma_block_start_push(sz, split as nat, sz.len() as int);
                assert(round_readable(tracks@, s_new, sz.len() as int, bps as nat, ae, cur_fr, cur_lb));
                assert forall|j: int| 0 <= j < s_new.len() implies #[trigger] round_readable(
                    tracks@,
                    s_new,
                    j,
                    bps as nat,
                    ae,
                    fr.push(cur_fr)[j],
                    lb.push(cur_lb)[j],
                ) by {
                    if j < sz.len() {
                        assert(round_readable(tracks@, sz, j, bps as nat, ae, fr[j], lb[j]));
                        lemma_block_start_push(sz, split as nat, j);
                    }
                }
            }
            sz = sz.push(split as nat);
            fb = fb.push(cur_fb0);
            lb = lb.push(cur_lb);
            fr = fr.push(cur_fr);
            refs = refs.push(cur_ref);
        }
        frame_seq = frame_seq + 1;
        offset = offset + cbs;
    }
    proof {
        assert(block_sizes(tracks@, total as nat, bs as nat, offset as nat) =~= Seq::<nat>::empty());
        assert(full =~= sz);
    }
    (
        track0_frames_buf,
        loom_frames_buf,
        points,
        min_block_size,
        max_block_size,
        min_frame_size,
        max_frame_size,
        Ghost((fr, refs, fb, lb)),
    )
}

/// No LPC candidates, whatever the samples: the predictor search then weighs the fixed
/// predictors only.
pub fn no_lpc_candidates(samples: &[i64]) -> (r: Vec<Vec<LpcCandidate>>)
    ensures
        r@.len() == 0,
{
    Vec::new()
}

/// Encodes a multitrack session with `config` as `encode_session_with_lpc` does, with no
/// LPC candidates: each channel of each block is predicted as constant, verbatim or with a
/// fixed predictor.
pub fn encode_session_with_config(
    tracks: &[Vec<Vec<i64>>],
    track_names: &[String],
    config: &EncoderConfig,
    edits: Option<&EditBlock>,
    tags: Option<&MetadataTags>,
    picture: Option<&PictureBlock>,
) -> (r: Result<Vec<u8>, LoomError>)
    requires
        session_input_ok(tracks@, track_names@.len(), config.bit_depth, config.block_size),
    ensures
        tracks@.len() == 0 ==> r == Err::<Vec<u8>, LoomError>(LoomError::InvalidInput),
        tracks@.len() > 0 ==> (r is Ok <==> session_names_fit(track_names@, tracks@.len())),
        tracks@.len() > 0 && !session_names_fit(track_names@, tracks@.len()) ==> r == Err::<
            Vec<u8>,
            LoomError,
        >(LoomError::InvalidInput),
        r matches Ok(b) ==> b@.take(4) == flac_magic(),
        r is Ok ==> header_writable(expected_header(tracks@, track_names@, config.sample_rate, config.bit_depth)),
        r matches Ok(b) ==> session_meta(
            b@,
            expected_header(tracks@, track_names@, config.sample_rate, config.bit_depth),
            match edits {
                Some(e) => e@,
                None => Seq::<(u16, TrackEditsSpec)>::empty(),
            },
            match tags {
                Some(t) => Some(t.spec_tags()),
                None => None,
            },
            match picture {
                Some(p) => Some(p@),
                None => None,
            },
        ),
        r matches Ok(b) ==> session_audio(
            b@,
            expected_header(tracks@, track_names@, config.sample_rate, config.bit_depth),
            match edits {
                Some(e) => e@,
                None => Seq::<(u16, TrackEditsSpec)>::empty(),
            },
            match tags {
                Some(t) => Some(t.spec_tags()),
                None => None,
            },
            match picture {
                Some(p) => Some(p@),
                None => None,
            },
            tracks@,
            tracks@[0]@[0]@.len(),
            config.block_size as nat,
            level_number(config.compression_level) >= 4,
        ),
        r matches Ok(b) ==> (roundtrip_input(
            tracks@,
            config.bit_depth,
            expected_header(tracks@, track_names@, config.sample_rate, config.bit_depth),
            match edits {
                Some(e) => e@,
                None => Seq::<(u16, TrackEditsSpec)>::empty(),
            },
            match tags {
                Some(t) => Some(t.spec_tags()),
                None => None,
            },
            match picture {
                Some(p) => Some(p@),
                None => None,
            },
        ) ==> decodes_to(
            b@,
            tracks@,
            tracks@[0]@[0]@.len(),
            expected_header(tracks@, track_names@, config.sample_rate, config.bit_depth),
            match edits {
                Some(e) => e@,
                None => Seq::<(u16, TrackEditsSpec)>::empty(),
            },
            match tags {
                Some(t) => Some(t.spec_tags()),
                None => None,
            },
            match picture {
                Some(p) => Some(p@),
                None => None,
            },
        )),
{
    proof {
        assert(no_lpc_from(&no_lpc_candidates));
    }
    encode_session_with_lpc(tracks, track_names, config, edits, tags, picture, &no_lpc_candidates)
}

/// Encodes a multitrack session with `config`, each channel of each block predicted with
/// the LPC candidate groups that `lpc` gives for its samples (after the wasted bits are
/// shifted out) besides the fixed predictors: track 0 as FLAC frames after FLAC metadata
/// (STREAMINFO, the tags and picture when given, the Loom payload in application blocks
/// and 4096 bytes of padding), the other tracks as Loom frames inside the payload, with the
/// session header, seek table and edit block (`edits`, or an empty one). No tracks is invalid input, and so is a track
/// name longer than 255 bytes.
#[verifier::rlimit(60)]
pub fn encode_session_with_lpc<F: Fn(&[i64]) -> Vec<Vec<LpcCandidate>>>(
    tracks: &[Vec<Vec<i64>>],
    track_names: &[String],
    config: &EncoderConfig,
    edits: Option<&EditBlock>,
    tags: Option<&MetadataTags>,
    picture: Option<&PictureBlock>,
    lpc: &F,
) -> (r: Result<Vec<u8>, LoomError>)
    requires
        forall|x: &[i64]| #[trigger] lpc.requires((x,)),
        session_input_ok(tracks@, track_names@.len(), config.bit_depth, config.block_size),
    ensures
        tracks@.len() == 0 ==> r == Err::<Vec<u8>, LoomError>(LoomError::InvalidInput),
        tracks@.len() > 0 ==> (r is Ok <==> session_names_fit(track_names@, tracks@.len())),
        tracks@.len() > 0 && !session_names_fit(track_names@, tracks@.len()) ==> r == Err::<
            Vec<u8>,
            LoomError,
        >(LoomError::InvalidInput),
        r matches Ok(b) ==> b@.take(4) == flac_magic(),
        r is Ok ==> header_writable(expected_header(tracks@, track_names@, config.sample_rate, config.bit_depth)),
        r matches Ok(b) ==> session_meta(
            b@,
            expected_header(tracks@, track_names@, config.sample_rate, config.bit_depth),
            match edits {
                Some(e) => e@,
                None => Seq::<(u16, TrackEditsSpec)>::empty(),
            },
            match tags {
                Some(t) => Some(t.spec_tags()),
                None => None,
            },
            match picture {
                Some(p) => Some(p@),
                None => None,
            },
        ),
        r matches Ok(b) ==> session_audio(
            b@,
            expected_header(tracks@, track_names@, config.sample_rate, config.bit_depth),
            match edits {
                Some(e) => e@,
                None => Seq::<(u16, TrackEditsSpec)>::empty(),
            },
            match tags {
                Some(t) => Some(t.spec_tags()),
                None => None,
            },
            match picture {
                Some(p) => Some(p@),
                None => None,
            },
            tracks@,
            tracks@[0]@[0]@.len(),
            config.block_size as nat,
            level_number(config.compression_level) >= 4,
        ),
        r matches Ok(b) ==> (no_lpc_from(lpc) && roundtrip_input(
            tracks@,
            config.bit_depth,
            expected_header(tracks@, track_names@, config.sample_rate, config.bit_depth),
            match edits {
                Some(e) => e@,
                None => Seq::<(u16, TrackEditsSpec)>::empty(),
            },
            match tags {
                Some(t) => Some(t.spec_tags()),
                None => None,
            },
            match picture {
                Some(p) => Some(p@),
                None => None,
            },
        ) ==> decodes_to(
            b@,
            tracks@,
            tracks@[0]@[0]@.len(),
            expected_header(tracks@, track_names@, config.sample_rate, config.bit_depth),
            match edits {
                Some(e) => e@,
                None => Seq::<(u16, TrackEditsSpec)>::empty(),
            },
            match tags {
                Some(t) => Some(t.spec_tags()),
                None => None,
            },
            match picture {
                Some(p) => Some(p@),
                None => None,
            },
        )),
{
    if tracks.len() == 0 || tracks[0].len() == 0 {
        return Err(LoomError::InvalidInput);
    }
    let num_tracks = tracks.len();
    let total_samples = tracks[0][0].len();
    let bit_depth = config.bit_depth;
    let bps = bit_depth as usize;
    let level = config.compression_level;
    let allow_escape = level.escape_coding();
    let mut track_infos: Vec<TrackInfo> = Vec::new();
    let mut t: usize = 0;
    while t < num_tracks
        invariant
            t <= num_tracks,
            num_tracks == tracks@.len(),
            track_names@.len() >= num_tracks,
            track_infos@.len() == t,
            forall|k: int| 0 <= k < num_tracks ==> track_ok(#[trigger] tracks@[k]@, total_samples as nat),
            forall|k: int| 0 <= k < t ==> #[trigger] track_infos@[k].name@ == track_names@[k]@,
            total_samples == tracks@[0]@[0]@.len(),
            forall|k: int| 0 <= k < t ==> #[trigger] track_infos@[k]@ == expected_header(
                tracks@,
                track_names@,
                config.sample_rate,
                config.bit_depth,
            ).tracks[k],
            bit_depth == config.bit_depth,
        decreases num_tracks - t,
    {
        proof {
            assert(track_ok(tracks@[t as int]@, total_samples as nat));
        }
        let interleaved = interleave(&tracks[t], total_samples);
        let md5 = compute_pcm_md5(interleaved.as_slice(), bit_depth);
        let name = track_names[t].clone();
        track_infos.push(TrackInfo { name, total_samples: total_samples as u64, md5 });
        proof {
            assert(track_infos@[t as int]@ == expected_header(
                tracks@,
                track_names@,
                config.sample_rate,
                config.bit_depth,
            ).tracks[t as int]);
        }
        t = t + 1;
    }
    let md5_0 = track_infos[0].md5;
    let header = SessionHeader { sample_rate: config.sample_rate, bit_depth, tracks: track_infos };
    let (track0_frames_buf, loom_frames_buf, points, min_block_size, max_block_size, min_frame_size, max_frame_size, Ghost(
        audio,
    )) = encode_blocks(tracks, total_samples, config.block_size, bps, level, lpc);
    let ghost (fr, refs, fb, lb) = audio;
    let ghost sz = block_sizes(tracks@, total_samples as nat, config.block_size as nat, 0);
    let seek_table = SeekTable { tracks_points: points };
    let ghost pts = seek_table@;
    let ghost h = header@;
    proof {
        assert(h.tracks =~= expected_header(tracks@, track_names@, config.sample_rate, config.bit_depth).tracks);
        assert(pts.len() == num_tracks);
        assert(pts =~= seek_points(sz, fb, lb, num_tracks as nat)) by {
            assert forall|k: int| 0 <= k < pts.len() implies #[trigger] pts[k] == seek_points(sz, fb, lb, num_tracks as nat)[k] by {
                assert(pts[k] == seek_table.tracks_points@[k]@);
            }
        }
        assert forall|k: int| 0 <= k < pts.len() implies #[trigger] pts[k].len() <= 0xFFFF_FFFF by {
            assert(pts[k] == seek_points(sz, fb, lb, num_tracks as nat)[k]);
        }
    }
    let streaminfo = StreamInfo {
        min_block_size,
        max_block_size,
        min_frame_size,
        max_frame_size,
        sample_rate: config.sample_rate,
        channels: tracks[0].len() as u8,
        bit_depth,
        total_samples: total_samples as u64,
        md5: md5_0,
    };
    proof {
        assert(track_ok(tracks@[0]@, total_samples as nat));
    }
    let mut loom_payload: Vec<u8> = Vec::new();
    match header.serialize(&mut loom_payload) {
        Ok(()) => {},
        Err(e) => {
            proof {
                assert(header@.tracks.len() == num_tracks);
                assert(!session_names_fit(track_names@, tracks@.len())) by {
                    assert(!names_fit(header@.tracks));
                    let i = choose|i: int| 0 <= i < header@.tracks.len() && !(#[trigger] encode_utf8(header@.tracks[i].name).len() <= 255);
                    assert(header@.tracks[i].name == track_names@[i]@);
                }
            }
            return Err(e);
        },
    }
    proof {
        assert(session_names_fit(track_names@, tracks@.len())) by {
            assert forall|i: int| 0 <= i < num_tracks implies #[trigger] encode_utf8(track_names@[i]@).len() <= 255 by {
                assert(header@.tracks[i].name == track_names@[i]@);
                assert(encode_utf8(header@.tracks[i].name).len() <= 255);
            }
        }
    }
    seek_table.serialize(&mut loom_payload);
    let ghost es = match edits {
        Some(eb) => eb@,
        None => Seq::<(u16, TrackEditsSpec)>::empty(),
    };
    match edits {
        Some(eb) => {
            eb.serialize(&mut loom_payload);
        },
        None => {
            let empty = EditBlock::new();
            proof {
                assert(empty@ =~= Seq::<(u16, TrackEditsSpec)>::empty());
            }
            empty.serialize(&mut loom_payload);
        },
    }
    push_all(&mut loom_payload, loom_frames_buf.as_slice());
    proof {
        assert(loom_payload@ =~= session_payload(h, pts, es, loom_frames_buf@));
        lemma_streaminfo_len(streaminfo);
    }
    proof {
        assert forall|k: int| 0 <= k < h.tracks.len() implies #[trigger] h.tracks[k].md5.len() == 16 by {
            assert(h.tracks[k] == header.tracks@[k]@);
        }
        assert(names_fit(h.tracks));
        assert(header_writable(h));
    }
    let out = assemble_session(&streaminfo, tags, picture, &loom_payload, &track0_frames_buf);
    proof {
        assert(out@.take(4) =~= flac_magic());
        assert(md5_0@ == h.tracks[0].md5);
        assert(streaminfo_bytes(streaminfo) == streaminfo_fields(
            seq_min(sz, 0xFFFF) as u16,
            seq_max(sz, 0) as u16,
            seq_min(frame_sizes(fb), 0xFFFF_FFFF) as u32,
            seq_max(frame_sizes(fb), 0) as u32,
            h.sample_rate,
            tracks@[0]@.len() as u8,
            h.bit_depth,
            total_samples as u64,
            h.tracks[0].md5,
        ));
        assert(audio_written(
            out@,
            h,
            es,
            match tags {
                Some(t) => Some(t.spec_tags()),
                None => None,
            },
            match picture {
                Some(p) => Some(p@),
                None => None,
            },
            tracks@,
            total_samples as nat,
            config.block_size as nat,
            level_number(config.compression_level) >= 4,
            fr,
            refs,
            fb,
            lb,
        ));
        let tg = match tags {
            Some(t) => Some(t.spec_tags()),
            None => None,
        };
        let pic = match picture {
            Some(p) => Some(p@),
            None => None,
        };
        if no_lpc_from(lpc) && roundtrip_input(tracks@, config.bit_depth, h, es, tg, pic) {
            assert(tracks_fit(tracks@, total_samples as nat, bps as nat));
            assert(h.tracks[0].total_samples == total_samples);
            lemma_session_roundtrip(
                out@,
                h,
                es,
                tg,
                pic,
                tracks@,
                total_samples as nat,
                config.block_size as nat,
                level_number(config.compression_level) >= 4,
                fr,
                refs,
                fb,
                lb,
            );
        }
    }
    Ok(out)
}

/// Encodes a multitrack session at compression level 5 with blocks of `block_size`.
pub fn encode_session(
    tracks: &[Vec<Vec<i64>>],
    track_names: &[String],
    sample_rate: u32,
    bit_depth: u8,
    block_size: usize,
    edits: Option<&EditBlock>,
    tags: Option<&MetadataTags>,
    picture: Option<&PictureBlock>,
) -> (r: Result<Vec<u8>, LoomError>)
    requires
        session_input_ok(tracks@, track_names@.len(), bit_depth, block_size),
    ensures
        tracks@.len() == 0 ==> r == Err::<Vec<u8>, LoomError>(LoomError::InvalidInput),
        tracks@.len() > 0 ==> (r is Ok <==> session_names_fit(track_names@, tracks@.len())),
        r matches Ok(b) ==> b@.take(4) == flac_magic(),
        r is Ok ==> header_writable(expected_header(tracks@, track_names@, sample_rate, bit_depth)),
        r matches Ok(b) ==> session_meta(
            b@,
            expected_header(tracks@, track_names@, sample_rate, bit_depth),
            match edits {
                Some(e) => e@,
                None => Seq::<(u16, TrackEditsSpec)>::empty(),
            },
            match tags {
                Some(t) => Some(t.spec_tags()),
                None => None,
            },
            match picture {
                Some(p) => Some(p@),
                None => None,
            },
        ),
        r matches Ok(b) ==> session_audio(
            b@,
            expected_header(tracks@, track_names@, sample_rate, bit_depth),
            match edits {
                Some(e) => e@,
                None => Seq::<(u16, TrackEditsSpec)>::empty(),
            },
            match tags {
                Some(t) => Some(t.spec_tags()),
                None => None,
            },
            match picture {
                Some(p) => Some(p@),
                None => None,
            },
            tracks@,
            tracks@[0]@[0]@.len(),
            block_size as nat,
            true,
        ),
        r matches Ok(b) ==> (roundtrip_input(
            tracks@,
            bit_depth,
            expected_header(tracks@, track_names@, sample_rate, bit_depth),
            match edits {
                Some(e) => e@,
                None => Seq::<(u16, TrackEditsSpec)>::empty(),
            },
            match tags {
                Some(t) => Some(t.spec_tags()),
                None => None,
            },
            match picture {
                Some(p) => Some(p@),
                None => None,
            },
        ) ==> decodes_to(
            b@,
            tracks@,
            tracks@[0]@[0]@.len(),
            expected_header(tracks@, track_names@, sample_rate, bit_depth),
            match edits {
                Some(e) => e@,
                None => Seq::<(u16, TrackEditsSpec)>::empty(),
            },
            match tags {
                Some(t) => Some(t.spec_tags()),
                None => None,
            },
            match picture {
                Some(p) => Some(p@),
                None => None,
            },
        )),
{
    let config = EncoderConfig::new(5, block_size, sample_rate, bit_depth);
    encode_session_with_config(tracks, track_names, &config, edits, tags, picture)
}

} // verus!
