//! When the frames the encoder writes read back: samples that fit the bit depth give
//! subframes whose raw values fit their widths and whose residuals fit 31 bits.
use crate::container::frame_roundtrip::{all_fit, flac_frame_readable, flac_mode_readable, flac_sub_readable};
use crate::container::frame::{side_channel, ChannelLayout, FrameSpec, SubframeSpec};
use crate::decorrelate::stereo::{stereo_fwd, stereo_fwd_seq, StereoMode};
use crate::entropy::rice::{bit_len, lemma_bit_len_bound, max_min_bits, min_bits_spec, rice_lossless};
use crate::predict::fixed::{fixed_pred, fixed_residuals};
use crate::predict::{fixed_stage, lpc_stage, mode_is, search_pick, LpcCandidate, ModeSpec, PredictionMode, SearchPick};
use crate::config::CompressionLevel;
use vstd::arithmetic::power2::{lemma2_to64, lemma_pow2_adds, lemma_pow2_pos, lemma_pow2_strictly_increases, lemma_pow2_unfold, pow2};
use vstd::prelude::*;

verus! {

/// Every sample of `s` fits `b` bits in two's complement.
pub open spec fn fits(s: Seq<i64>, b: nat) -> bool {
    forall|i: int| 0 <= i < s.len() ==> -pow2((b - 1) as nat) <= #[trigger] s[i] < pow2((b - 1) as nat)
}

/// A value within `b` bits needs at most `b` bits.
pub proof fn lemma_fits_bits(v: int, b: nat)
    requires
        b >= 1,
        -pow2((b - 1) as nat) <= v < pow2((b - 1) as nat),
    ensures
        min_bits_spec(v) <= b,
{
    if v >= 0 {
        lemma_bit_len_bound(v as nat, (b - 1) as nat);
    } else {
        lemma_bit_len_bound((-v - 1) as nat, (b - 1) as nat);
    }
}

/// Samples within `b` bits all need at most `b` bits.
pub proof fn lemma_fits_all(s: Seq<i64>, b: nat)
    requires
        b >= 1,
        fits(s, b),
    ensures
        all_fit(s, b),
{
    assert forall|j: int| 0 <= j < s.len() implies min_bits_spec(#[trigger] s[j] as int) <= b by {
        lemma_fits_bits(s[j] as int, b);
    }
}

/// Samples within `b` bits are within any wider width.
pub proof fn lemma_fits_widen(s: Seq<i64>, b: nat, c: nat)
    requires
        1 <= b <= c,
        fits(s, b),
    ensures
        fits(s, c),
{
    if b < c {
        lemma_pow2_strictly_increases((b - 1) as nat, (c - 1) as nat);
    }
}

/// The widest value of a run bounds every one.
proof fn lemma_max_min_bits_le(s: Seq<i64>, m: nat)
    requires
        forall|j: int| 0 <= j < s.len() ==> min_bits_spec(#[trigger] s[j] as int) <= m,
    ensures
        max_min_bits(s) <= m,
    decreases s.len(),
{
    if s.len() > 0 {
        assert forall|j: int| 0 <= j < s.drop_last().len() implies min_bits_spec(#[trigger] s.drop_last()[j] as int) <= m by {
            assert(s.drop_last()[j] == s[j]);
        }
        lemma_max_min_bits_le(s.drop_last(), m);
        assert(min_bits_spec(s[s.len() - 1] as int) <= m);
    }
}

/// Residuals that all need at most 31 bits can be Rice coded losslessly, escaped or not.
pub proof fn lemma_rice_ok(r: Seq<i64>, o: nat, p: nat, ae: bool)
    requires
        forall|j: int| 0 <= j < r.len() ==> min_bits_spec(#[trigger] r[j] as int) <= 31,
    ensures
        rice_lossless(r, o, p, ae),
{
    assert forall|q: nat| q < pow2(p) && #[trigger] crate::entropy::rice::part_begin(r.len(), p, o, q)
        < crate::entropy::rice::part_end(r.len(), p, q) implies max_min_bits(
        r.subrange(
            crate::entropy::rice::part_begin(r.len(), p, o, q) as int,
            crate::entropy::rice::part_end(r.len(), p, q) as int,
        ),
    ) <= 31 || !ae by {
        let a = crate::entropy::rice::part_begin(r.len(), p, o, q) as int;
        let e = crate::entropy::rice::part_end(r.len(), p, q) as int;
        let t = r.len() as int;
        let pp = pow2(p) as int;
        lemma_pow2_pos(p);
        let d = t / pp;
        vstd::arithmetic::div_mod::lemma_fundamental_div_mod(t, pp);
        vstd::arithmetic::div_mod::lemma_mod_pos_bound(t, pp);
        assert(pp * d <= t);
        assert(d >= 0) by {
            vstd::arithmetic::div_mod::lemma_div_pos_is_pos(t, pp);
        }
        if q + 1 != pp {
            assert((q + 1) * d <= pp * d) by (nonlinear_arith)
                requires
                    q + 1 <= pp,
                    d >= 0,
            ;
        }
        assert(e <= t);
        let sub = r.subrange(a, e);
        assert forall|j: int| 0 <= j < sub.len() implies min_bits_spec(#[trigger] sub[j] as int) <= 31 by {
            assert(sub[j] == r[a + j]);
        }
        lemma_max_min_bits_le(sub, 31);
    }
}

/// Fixed residuals of samples within `b <= 27` bits: the warm-up samples stay as they are,
/// and every residual needs at most 31 bits.
pub proof fn lemma_fixed_fits(s: Seq<i64>, b: nat, o: nat)
    requires
        1 <= b <= 27,
        o <= 4,
        fits(s, b),
    ensures
        fixed_residuals(s, o).take(o as int) =~= s.take(o as int) || o > s.len(),
        forall|j: int| 0 <= j < s.len() ==> min_bits_spec(#[trigger] fixed_residuals(s, o)[j] as int) <= 31,
{
    let r = fixed_residuals(s, o);
    let p = pow2((b - 1) as nat) as int;
    lemma2_to64();
    if b - 1 < 26 {
        lemma_pow2_strictly_increases((b - 1) as nat, 26);
    }
    assert(p <= 0x400_0000);
    assert forall|j: int| 0 <= j < s.len() implies min_bits_spec(#[trigger] fixed_residuals(s, o)[j] as int) <= 31 by {
        assert(-p <= s[j] < p);
        if j >= o {
            if o >= 1 {
                assert(-p <= s[j - 1] < p);
            }
            if o >= 2 {
                assert(-p <= s[j - 2] < p);
            }
            if o >= 3 {
                assert(-p <= s[j - 3] < p);
            }
            if o >= 4 {
                assert(-p <= s[j - 4] < p);
            }
            let v = s[j] - fixed_pred(s, j, o);
            assert(-16 * p <= v <= 16 * p);
            assert(r[j] == v);
        }
        assert(-0x4000_0000 <= r[j] < 0x4000_0000);
        lemma_fits_bits(r[j] as int, 31);
    }
}

/// With no LPC candidates the fixed search keeps a verbatim block or a fixed order below `m`.
proof fn lemma_fixed_stage_shape(s: Seq<i64>, bps: nat, rs: crate::config::RiceSearch, mpo: nat, m: nat)
    ensures
        fixed_stage(s, bps, rs, mpo, m).0 is Verbatim || (fixed_stage(s, bps, rs, mpo, m).0 matches SearchPick::Fixed(o)
            && o < m && o <= s.len()),
    decreases m,
{
    if m > 0 {
        lemma_fixed_stage_shape(s, bps, rs, mpo, (m - 1) as nat);
    }
}

/// With no LPC candidates the LPC stages keep the pick they start from.
proof fn lemma_lpc_stage_none(
    s: Seq<i64>,
    bps: nat,
    rs: crate::config::RiceSearch,
    mpo: nat,
    maxlpc: nat,
    m: nat,
    pk0: SearchPick,
    mb0: nat,
)
    ensures
        lpc_stage(s, bps, rs, mpo, maxlpc, seq![], m, pk0, mb0).0 == pk0,
    decreases m,
{
    if m > 0 {
        lemma_lpc_stage_none(s, bps, rs, mpo, maxlpc, (m - 1) as nat, pk0, mb0);
        let j = (m - 1) as nat;
        assert(crate::predict::group(seq![], j) =~= Seq::<LpcCandidate>::empty());
    }
}

/// A prediction picked with no LPC candidates, of samples within `b <= 27` bits, reads
/// back from `b`-bit samples.
pub proof fn lemma_pick_readable(s: Seq<i64>, b: nat, bps: nat, level: CompressionLevel, m: PredictionMode)
    requires
        s.len() > 0,
        1 <= b <= 27,
        fits(s, b),
        mode_is(m, search_pick(s, bps, level, seq![]), s, seq![]),
    ensures
        flac_mode_readable(m@, b, s.len(), true),
{
    let rs = crate::config::rice_search_spec(level);
    let mpo = crate::config::max_porder_spec(level);
    lemma_fixed_stage_shape(s, bps, rs, mpo, 1);
    lemma_fixed_stage_shape(s, bps, rs, mpo, 5);
    let (pk, mb) = fixed_stage(s, bps, rs, mpo, 5);
    lemma_lpc_stage_none(s, bps, rs, mpo, crate::config::max_lpc_spec(level), 12, pk, mb);
    lemma_fits_all(s, b);
    match search_pick(s, bps, level, seq![]) {
        SearchPick::Constant => {
            lemma_fits_bits(s[0] as int, b);
        },
        SearchPick::Verbatim => {},
        SearchPick::Fixed(o) => {
            let r = fixed_residuals(s, o);
            lemma_fixed_fits(s, b, o);
            assert(o <= s.len());
            assert forall|j: int| 0 <= j < r.take(o as int).len() implies min_bits_spec(#[trigger] r.take(o as int)[j] as int) <= b by {
                lemma_fits_bits(s[j] as int, b);
            }
            lemma_rice_ok(r, o, 2, true);
        },
        SearchPick::Lpc(_, _) => {},
    }
}

/// `2^k` as a `u64` shifted one.
proof fn lemma_one_shl(k: u64)
    requires
        k < 63,
    ensures
        (1u64 << k) as int == pow2(k as nat),
        ((1u64 << k) as i64) as int == pow2(k as nat),
{
    lemma2_to64();
    vstd::arithmetic::power2::lemma2_to64_rest();
    lemma_pow2_strictly_increases(k as nat, 63);
    assert(pow2(63) == 0x8000_0000_0000_0000);
    assert(pow2(k as nat) < 0x8000_0000_0000_0000);
    assert(1u64 * pow2(k as nat) == pow2(k as nat));
    vstd::bits::lemma_u64_shl_is_mul(1u64, k);
    assert((1u64 << k) as int == pow2(k as nat));
    assert((1u64 << k) < 0x8000_0000_0000_0000u64);
}

/// A sample within `b` bits whose low `w` bits are zero (it shifts back to itself) is zero
/// when `w >= b`, and otherwise, shifted right by `w`, is within `b - w` bits.
pub proof fn lemma_shr_fits(x: i64, w: u64, b: u64)
    requires
        1 <= b <= 40,
        w < 64,
        -pow2((b - 1) as nat) <= x < pow2((b - 1) as nat),
        (((x >> w) as u64) << w) as i64 == x,
    ensures
        w >= b ==> x == 0,
        w < b ==> -pow2((b - 1 - w) as nat) <= (x >> w) < pow2((b - 1 - w) as nat),
{
    lemma_one_shl((b - 1) as u64);
    if w < b {
        lemma_one_shl((b - 1 - w) as u64);
    }
    assert(1 <= b && b <= 40 && w < 64 && -((1u64 << ((b - 1) as u64)) as i64) <= x && x < ((1u64 << ((
    b - 1) as u64)) as i64) && (((x >> w) as u64) << w) as i64 == x ==> (w >= b ==> x == 0) && (w < b
        ==> -((1u64 << ((b - 1 - w) as u64)) as i64) <= (x >> w) && (x >> w) < ((1u64 << ((b - 1 - w)
        as u64)) as i64))) by (bit_vector);
}

/// A run of zeros has no wasted bits.
proof fn lemma_zeros_wasted(s: Seq<i64>)
    requires
        forall|i: int| 0 <= i < s.len() ==> #[trigger] s[i] == 0,
    ensures
        crate::verify::min_trailing_zeros(s) == 64,
        crate::verify::wasted_bits_spec(s) == 0,
    decreases s.len(),
{
    if s.len() > 0 {
        assert forall|i: int| 0 <= i < s.drop_last().len() implies #[trigger] s.drop_last()[i] == 0 by {
            assert(s.drop_last()[i] == s[i]);
        }
        lemma_zeros_wasted(s.drop_last());
        assert(s[s.len() - 1] == 0);
    }
}

/// A channel within `b <= 27` bits, its wasted bits shifted out and predicted with no LPC
/// candidates: fewer wasted bits than `b`, and a prediction that reads back from
/// `b - wasted`-bit samples.
pub proof fn lemma_channel_readable(
    data: Seq<i64>,
    shifted: Seq<i64>,
    w: u8,
    b: nat,
    bps: nat,
    level: CompressionLevel,
    m: PredictionMode,
)
    requires
        data.len() > 0,
        1 <= b <= 27,
        fits(data, b),
        w as nat == crate::verify::wasted_bits_spec(data),
        w < 64,
        shifted.len() == data.len(),
        forall|i: int| 0 <= i < data.len() ==> #[trigger] shifted[i] == data[i] >> (w as u64),
        crate::container::block_decode::unshift(shifted, w) == data,
        mode_is(m, search_pick(shifted, bps, level, seq![]), shifted, seq![]),
    ensures
        w < b,
        flac_mode_readable(m@, (b - w) as nat, data.len(), true),
{
    assert forall|i: int| 0 <= i < data.len() implies (w >= b ==> #[trigger] data[i] == 0) && (w < b ==> -pow2(
        (b - 1 - w) as nat,
    ) <= shifted[i] < pow2((b - 1 - w) as nat)) by {
        assert(crate::container::block_decode::unshift(shifted, w)[i] == data[i]);
        lemma_shr_fits(data[i], w as u64, b as u64);
    }
    if w >= b {
        lemma_zeros_wasted(data);
    }
    assert(fits(shifted, (b - w) as nat));
    lemma_pick_readable(shifted, (b - w) as nat, bps, level, m);
}

/// `lpc` gives no LPC candidates, whatever the samples.
pub open spec fn no_lpc_from<F: Fn(&[i64]) -> Vec<Vec<LpcCandidate>>>(lpc: &F) -> bool {
    forall|x: &[i64], c: Vec<Vec<LpcCandidate>>| #[trigger] lpc.ensures((x,), c) ==> c@.len() == 0
}

/// A subframe without a reference whose prediction reads back from `b`-bit samples less
/// its wasted bits, fewer than `b`.
pub open spec fn sub_fits(sf: SubframeSpec, b: nat, n: nat) -> bool {
    &&& sf.ref_track is None
    &&& sf.ref_weight == 0
    &&& sf.wasted_bits < b
    &&& flac_mode_readable(sf.mode, (b - sf.wasted_bits) as nat, n, true)
}

/// The width channel `ch` of layout `l` holds at bit depth `bps`: one more on a side
/// channel.
pub open spec fn chan_width(l: ChannelLayout, ch: nat, bps: nat) -> nat {
    if side_channel(l, ch) {
        bps + 1
    } else {
        bps
    }
}

/// Every channel of a FLAC frame reads back, with escaped partitions allowed.
pub open spec fn flac_subs_ok(f: FrameSpec, bps: nat) -> bool {
    forall|ch: int|
        0 <= ch < f.subframes.len() ==> flac_sub_readable(
            #[trigger] f.subframes[ch],
            f.channel_layout,
            ch as nat,
            bps,
            f.block_size as nat,
            true,
        )
}

/// A subframe that fits its channel's width reads back as that channel.
pub proof fn lemma_sub_fits_readable(sf: SubframeSpec, l: ChannelLayout, ch: nat, bps: nat, n: nat)
    requires
        chan_width(l, ch, bps) <= 27,
        sub_fits(sf, chan_width(l, ch, bps), n),
    ensures
        flac_sub_readable(sf, l, ch, bps, n, true),
{
}

/// The coded channels of a stereo pair within `bps` bits: the side channel within one bit
/// more, the others within `bps`.
pub proof fn lemma_stereo_fits(l: Seq<i64>, r: Seq<i64>, m: StereoMode, bps: nat)
    requires
        1 <= bps <= 26,
        l.len() == r.len(),
        fits(l, bps),
        fits(r, bps),
    ensures
        fits(stereo_fwd_seq(l, r, m).0, if m == StereoMode::RightSide { bps + 1 } else { bps }),
        fits(stereo_fwd_seq(l, r, m).1, if m == StereoMode::LeftSide || m == StereoMode::MidSide { bps + 1 } else { bps }),
{
    let p = pow2((bps - 1) as nat) as int;
    lemma_pow2_unfold(bps);
    assert(pow2(bps) == 2 * p);
    lemma2_to64();
    if bps - 1 < 26 {
        lemma_pow2_strictly_increases((bps - 1) as nat, 26);
    }
    let (c0, c1) = stereo_fwd_seq(l, r, m);
    assert forall|i: int| 0 <= i < c0.len() implies -pow2(((if m == StereoMode::RightSide { bps + 1 } else { bps }) - 1) as nat) <= #[trigger] c0[i] < pow2(((if m == StereoMode::RightSide { bps + 1 } else { bps }) - 1) as nat) by {
        assert(-p <= l[i] < p && -p <= r[i] < p);
    }
    assert forall|i: int| 0 <= i < c1.len() implies -pow2(((if m == StereoMode::LeftSide || m == StereoMode::MidSide { bps + 1 } else { bps }) - 1) as nat) <= #[trigger] c1[i] < pow2(((if m == StereoMode::LeftSide || m == StereoMode::MidSide { bps + 1 } else { bps }) - 1) as nat) by {
        assert(-p <= l[i] < p && -p <= r[i] < p);
    }
}

/// Every channel of every track, its first `total` samples within `bps` bits.
pub open spec fn tracks_fit(ts: Seq<Vec<Vec<i64>>>, total: nat, bps: nat) -> bool {
    forall|t: int, ch: int|
        0 <= t < ts.len() && 0 <= ch < ts[t]@.len() ==> fits(#[trigger] ts[t]@[ch]@.take(total as int), bps)
}

/// A FLAC frame whose channels read back with escaped partitions allowed reads back as a
/// whole, escaped partitions allowed or not.
pub proof fn lemma_frame_readable(f: FrameSpec, sn: u64, bps: nat, ae: bool)
    requires
        flac_subs_ok(f, bps),
        1 <= f.block_size <= 0x10000,
        sn < 0x10_0000_0000,
        f.subframes.len() == crate::container::frame::layout_channels(f.channel_layout),
    ensures
        flac_frame_readable(f, sn, bps, ae),
{
    assert forall|ch: int| 0 <= ch < f.subframes.len() implies flac_sub_readable(
        #[trigger] f.subframes[ch],
        f.channel_layout,
        ch as nat,
        bps,
        f.block_size as nat,
        ae,
    ) by {
        assert(flac_sub_readable(f.subframes[ch], f.channel_layout, ch as nat, bps, f.block_size as nat, true));
    }
}

} // verus!
