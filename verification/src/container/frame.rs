use crate::bitstream::{
    bits_of, bits_to_bytes, bytes_to_bits, lemma_bits_of_len, lemma_bits_to_bytes_inv,
    lemma_mask_bits, pad_len, unary_bits, utf8_encode, utf8_read, utf8_read_len, zero_run, zeros,
    BitReader, BitWriter,
};
use crate::crc::{crc16_spec, crc8_spec, flac_crc16, flac_crc8};
use crate::entropy::rice::{
    decode_residuals, dec_raw, encode_residuals, raw_codes, read_val, rice_decode, rice_stream,
    rice_stream_fits, sign_extend,
};
use vstd::arithmetic::power2::lemma2_to64;
use crate::error::LoomError;
use crate::predict::{ModeSpec, PredictionMode};
use vstd::prelude::*;

verus! {

/// The channel arrangement of a frame; the `Stereo*Side` layouts are stereo pairs coded as
/// a channel and a side channel.
#[derive(Clone, Copy, Debug, PartialEq, Eq, Structural)]
pub enum ChannelLayout {
    Mono,
    Stereo,
    Surround3_0,
    Quad,
    Surround5_0,
    Surround5_1,
    Surround7_0,
    Surround7_1,
    StereoLeftSide,
    StereoRightSide,
    StereoMidSide,
}

/// How many channels a layout has.
pub open spec fn layout_channels(l: ChannelLayout) -> nat {
    match l {
        ChannelLayout::Mono => 1,
        ChannelLayout::Stereo | ChannelLayout::StereoLeftSide | ChannelLayout::StereoRightSide
        | ChannelLayout::StereoMidSide => 2,
        ChannelLayout::Surround3_0 => 3,
        ChannelLayout::Quad => 4,
        ChannelLayout::Surround5_0 => 5,
        ChannelLayout::Surround5_1 => 6,
        ChannelLayout::Surround7_0 => 7,
        ChannelLayout::Surround7_1 => 8,
    }
}

/// The 4-bit code of a layout.
pub open spec fn layout_code(l: ChannelLayout) -> u8 {
    match l {
        ChannelLayout::Mono => 0,
        ChannelLayout::Stereo => 1,
        ChannelLayout::Surround3_0 => 2,
        ChannelLayout::Quad => 3,
        ChannelLayout::Surround5_0 => 4,
        ChannelLayout::Surround5_1 => 5,
        ChannelLayout::Surround7_0 => 6,
        ChannelLayout::Surround7_1 => 7,
        ChannelLayout::StereoLeftSide => 8,
        ChannelLayout::StereoRightSide => 9,
        ChannelLayout::StereoMidSide => 10,
    }
}

/// The layout with code `c`, if any.
pub open spec fn layout_of_code(c: u8) -> Option<ChannelLayout> {
    if c == 0 {
        Some(ChannelLayout::Mono)
    } else if c == 1 {
        Some(ChannelLayout::Stereo)
    } else if c == 2 {
        Some(ChannelLayout::Surround3_0)
    } else if c == 3 {
        Some(ChannelLayout::Quad)
    } else if c == 4 {
        Some(ChannelLayout::Surround5_0)
    } else if c == 5 {
        Some(ChannelLayout::Surround5_1)
    } else if c == 6 {
        Some(ChannelLayout::Surround7_0)
    } else if c == 7 {
        Some(ChannelLayout::Surround7_1)
    } else if c == 8 {
        Some(ChannelLayout::StereoLeftSide)
    } else if c == 9 {
        Some(ChannelLayout::StereoRightSide)
    } else if c == 10 {
        Some(ChannelLayout::StereoMidSide)
    } else {
        None
    }
}

impl ChannelLayout {
    pub fn channels(&self) -> (r: u8)
        ensures
            r == layout_channels(*self),
    {
        match self {
            ChannelLayout::Mono => 1,
            ChannelLayout::Stereo | ChannelLayout::StereoLeftSide | ChannelLayout::StereoRightSide
            | ChannelLayout::StereoMidSide => 2,
            ChannelLayout::Surround3_0 => 3,
            ChannelLayout::Quad => 4,
            ChannelLayout::Surround5_0 => 5,
            ChannelLayout::Surround5_1 => 6,
            ChannelLayout::Surround7_0 => 7,
            ChannelLayout::Surround7_1 => 8,
        }
    }

    pub fn to_code(&self) -> (r: u8)
        ensures
            r == layout_code(*self),
    {
        match self {
            ChannelLayout::Mono => 0,
            ChannelLayout::Stereo => 1,
            ChannelLayout::Surround3_0 => 2,
            ChannelLayout::Quad => 3,
            ChannelLayout::Surround5_0 => 4,
            ChannelLayout::Surround5_1 => 5,
            ChannelLayout::Surround7_0 => 6,
            ChannelLayout::Surround7_1 => 7,
            ChannelLayout::StereoLeftSide => 8,
            ChannelLayout::StereoRightSide => 9,
            ChannelLayout::StereoMidSide => 10,
        }
    }

    pub fn from_code(code: u8) -> (r: Option<Self>)
        ensures
            r == layout_of_code(code),
    {
        match code {
            0 => Some(ChannelLayout::Mono),
            1 => Some(ChannelLayout::Stereo),
            2 => Some(ChannelLayout::Surround3_0),
            3 => Some(ChannelLayout::Quad),
            4 => Some(ChannelLayout::Surround5_0),
            5 => Some(ChannelLayout::Surround5_1),
            6 => Some(ChannelLayout::Surround7_0),
            7 => Some(ChannelLayout::Surround7_1),
            8 => Some(ChannelLayout::StereoLeftSide),
            9 => Some(ChannelLayout::StereoRightSide),
            10 => Some(ChannelLayout::StereoMidSide),
            _ => None,
        }
    }
}

/// A layout's code reads back as the layout, and every code of a layout is below 11.
pub proof fn lemma_layout_code_roundtrip(l: ChannelLayout)
    ensures
        layout_of_code(layout_code(l)) == Some(l),
        layout_code(l) < 11,
{
}

/// A subframe as plain values.
pub struct SubframeSpec {
    pub mode: ModeSpec,
    pub ref_track: Option<u16>,
    pub ref_weight: i8,
    pub wasted_bits: u8,
}

/// A frame as plain values.
pub struct FrameSpec {
    pub frame_seq: u32,
    pub block_size: u32,
    pub channel_layout: ChannelLayout,
    pub subframes: Seq<SubframeSpec>,
}

/// One channel of a frame: its prediction, the track its residuals are predicted from (if
/// any) with the weight, and the low zero bits shifted out of every sample.
#[derive(Clone, Debug)]
pub struct Subframe {
    pub mode: PredictionMode,
    pub ref_track: Option<u16>,
    pub ref_weight: i8,
    pub wasted_bits: u8,
}

impl View for Subframe {
    type V = SubframeSpec;

    open spec fn view(&self) -> SubframeSpec {
        SubframeSpec {
            mode: self.mode@,
            ref_track: self.ref_track,
            ref_weight: self.ref_weight,
            wasted_bits: self.wasted_bits,
        }
    }
}

/// One block of one track, every channel of it.
#[derive(Clone, Debug)]
pub struct Frame {
    pub frame_seq: u32,
    pub block_size: u32,
    pub channel_layout: ChannelLayout,
    pub subframes: Vec<Subframe>,
}

impl View for Frame {
    type V = FrameSpec;

    open spec fn view(&self) -> FrameSpec {
        FrameSpec {
            frame_seq: self.frame_seq,
            block_size: self.block_size,
            channel_layout: self.channel_layout,
            subframes: self.subframes@.map_values(|s: Subframe| s@),
        }
    }
}

/// Channel `ch` of layout `l` is a side channel, which takes one bit more than the others:
/// the second of left/side and mid/side, the first of side/right.
pub open spec fn side_channel(l: ChannelLayout, ch: nat) -> bool {
    ||| (l == ChannelLayout::StereoLeftSide && ch == 1)
    ||| (l == ChannelLayout::StereoRightSide && ch == 0)
    ||| (l == ChannelLayout::StereoMidSide && ch == 1)
}

/// The bits per sample channel `ch` is written with: one more for a side channel, less the
/// wasted bits, at least 1.
pub open spec fn sub_bps(l: ChannelLayout, ch: nat, bps: nat, wasted: u8) -> nat {
    let b = if side_channel(l, ch) {
        bps + 1
    } else {
        bps
    };
    if b > wasted {
        (b - wasted) as nat
    } else {
        1
    }
}

/// Computes `sub_bps`.
pub fn subframe_bps(l: ChannelLayout, ch: usize, bps: usize, wasted: u8) -> (r: usize)
    requires
        bps <= 64,
    ensures
        r == sub_bps(l, ch as nat, bps as nat, wasted),
        1 <= r <= 65,
{
    let is_side = (l == ChannelLayout::StereoLeftSide && ch == 1) || (l
        == ChannelLayout::StereoRightSide && ch == 0) || (l == ChannelLayout::StereoMidSide && ch
        == 1);
    let b = if is_side {
        bps + 1
    } else {
        bps
    };
    if b > wasted as usize {
        b - wasted as usize
    } else {
        1
    }
}

/// LPC coefficients written in `prec` bits apiece.
pub open spec fn coeff_codes(c: Seq<i32>, prec: nat) -> Seq<bool>
    decreases c.len(),
{
    if c.len() == 0 {
        Seq::empty()
    } else {
        coeff_codes(c.drop_last(), prec) + bits_of(c.last() as u64 as nat, prec)
    }
}

/// The bits of a Loom subframe's prediction: a 3-bit mode, then its fields.
pub open spec fn loom_mode_bits(m: ModeSpec, sbps: nat, ae: bool) -> Seq<bool> {
    match m {
        ModeSpec::Constant(v) => bits_of(0, 3) + bits_of(v as u64 as nat, sbps),
        ModeSpec::Verbatim(s) => bits_of(1, 3) + raw_codes(s, sbps),
        ModeSpec::Fixed(o, r) => bits_of(2, 3) + bits_of(o, 3) + raw_codes(r.take(o as int), sbps)
            + rice_stream(r, o, 2, ae),
        ModeSpec::Lpc(o, c, sh, p, r) => bits_of(3, 3) + bits_of(o, 6) + bits_of(p, 8) + bits_of(
            sh as u8 as nat,
            8,
        ) + coeff_codes(c, p) + raw_codes(r.take(o as int), sbps) + rice_stream(r, o, 2, ae),
    }
}

/// A prediction the Loom frame writer can write with `sbps` bits per sample.
pub open spec fn loom_mode_ok(m: ModeSpec, sbps: nat) -> bool {
    &&& sbps <= 64
    &&& match m {
        ModeSpec::Constant(_) => true,
        ModeSpec::Verbatim(_) => true,
        ModeSpec::Fixed(o, r) => o <= r.len() && rice_stream_fits(r, o, 2),
        ModeSpec::Lpc(o, c, sh, p, r) => o <= r.len() && p < 64 && rice_stream_fits(r, o, 2),
    }
}

/// The bits of channel `ch` of a Loom frame: the cross-track reference, the wasted bits,
/// and the prediction.
pub open spec fn loom_sub_bits(sf: SubframeSpec, l: ChannelLayout, ch: nat, bps: nat, ae: bool) -> Seq<
    bool,
> {
    (match sf.ref_track {
        Some(t) => seq![true] + bits_of(t as nat, 16) + bits_of(sf.ref_weight as u8 as nat, 8),
        None => seq![false],
    }) + (if sf.wasted_bits > 0 {
        seq![true] + bits_of(sf.wasted_bits as nat, 5)
    } else {
        seq![false]
    }) + loom_mode_bits(sf.mode, sub_bps(l, ch, bps, sf.wasted_bits), ae)
}

/// The bits of the first `m` channels of a Loom frame.
pub open spec fn loom_subs_bits(f: FrameSpec, bps: nat, ae: bool, m: nat) -> Seq<bool>
    decreases m,
{
    if m == 0 {
        Seq::empty()
    } else {
        loom_subs_bits(f, bps, ae, (m - 1) as nat) + loom_sub_bits(
            f.subframes[m - 1],
            f.channel_layout,
            (m - 1) as nat,
            bps,
            ae,
        )
    }
}

/// The bits of a Loom frame: a 16-bit sync word 0xF8A5, the track, the frame number, the
/// block size, the 4-bit layout code, and the channels.
pub open spec fn loom_frame_bits(f: FrameSpec, track: u16, bps: nat, ae: bool) -> Seq<bool> {
    bits_of(0xF8A5, 16) + bits_of(track as nat, 16) + bits_of(f.frame_seq as nat, 32) + bits_of(
        f.block_size as nat,
        16,
    ) + bits_of(layout_code(f.channel_layout) as nat, 4) + loom_subs_bits(
        f,
        bps,
        ae,
        f.subframes.len(),
    )
}

/// Every channel of `f` can be written as a Loom frame.
pub open spec fn loom_frame_ok(f: FrameSpec, bps: nat) -> bool {
    &&& bps <= 64
    &&& forall|ch: int|
        0 <= ch < f.subframes.len() ==> loom_mode_ok(
            #[trigger] f.subframes[ch].mode,
            sub_bps(f.channel_layout, ch as nat, bps, f.subframes[ch].wasted_bits),
        )
}

/// The 6-bit FLAC subframe type of a prediction.
pub open spec fn flac_mode_code(m: ModeSpec) -> nat {
    match m {
        ModeSpec::Constant(_) => 0,
        ModeSpec::Verbatim(_) => 1,
        ModeSpec::Fixed(o, _) => 8 + o % 8,
        ModeSpec::Lpc(o, _, _, _, _) => (32 + (o - 1) % 32) as nat,
    }
}

/// The bits of a FLAC subframe's prediction after its header.
pub open spec fn flac_mode_bits(m: ModeSpec, sbps: nat, ae: bool) -> Seq<bool> {
    match m {
        ModeSpec::Constant(v) => bits_of(v as u64 as nat, sbps),
        ModeSpec::Verbatim(s) => raw_codes(s, sbps),
        ModeSpec::Fixed(o, r) => raw_codes(r.take(o as int), sbps) + rice_stream(r, o, 2, ae),
        ModeSpec::Lpc(o, c, sh, p, r) => raw_codes(r.take(o as int), sbps) + bits_of(
            (p - 1) as nat,
            4,
        ) + bits_of(sh as u64 as nat, 5) + coeff_codes(c, p) + rice_stream(r, o, 2, ae),
    }
}

/// A prediction the FLAC frame writer can write with `sbps` bits per sample.
pub open spec fn flac_mode_ok(m: ModeSpec, sbps: nat) -> bool {
    &&& sbps <= 64
    &&& match m {
        ModeSpec::Constant(_) => true,
        ModeSpec::Verbatim(_) => true,
        ModeSpec::Fixed(o, r) => o <= r.len() && rice_stream_fits(r, o, 2),
        ModeSpec::Lpc(o, c, sh, p, r) => 1 <= o <= r.len() && 1 <= p < 64 && rice_stream_fits(
            r,
            o,
            2,
        ),
    }
}

/// The bits of channel `ch` of a FLAC frame: a zero bit, the subframe type, the wasted bits
/// (a flag, then their count less one in unary), and the prediction.
pub open spec fn flac_sub_bits(sf: SubframeSpec, l: ChannelLayout, ch: nat, bps: nat, ae: bool) -> Seq<
    bool,
> {
    seq![false] + bits_of(flac_mode_code(sf.mode), 6) + (if sf.wasted_bits > 0 {
        seq![true] + unary_bits((sf.wasted_bits - 1) as nat)
    } else {
        seq![false]
    }) + flac_mode_bits(sf.mode, sub_bps(l, ch, bps, sf.wasted_bits), ae)
}

/// The bits of the first `m` channels of a FLAC frame.
pub open spec fn flac_subs_bits(f: FrameSpec, bps: nat, ae: bool, m: nat) -> Seq<bool>
    decreases m,
{
    if m == 0 {
        Seq::empty()
    } else {
        flac_subs_bits(f, bps, ae, (m - 1) as nat) + flac_sub_bits(
            f.subframes[m - 1],
            f.channel_layout,
            (m - 1) as nat,
            bps,
            ae,
        )
    }
}

/// The bits of a FLAC frame header up to its CRC-8: the 14-bit sync code 0x3FFE, a reserved
/// zero bit, the variable-blocksize bit, block size code 7, sample rate code 0, the layout
/// code, sample size code 0, a reserved zero bit, the first sample's number in the UTF-8
/// style code, and the block size less one in 16 bits.
pub open spec fn flac_header_bits(f: FrameSpec, sample_number: u64) -> Seq<bool> {
    bits_of(0x3FFE, 14) + seq![false, true] + bits_of(7, 4) + bits_of(0, 4) + bits_of(
        layout_code(f.channel_layout) as nat,
        4,
    ) + bits_of(0, 3) + seq![false] + bytes_to_bits(utf8_encode(sample_number)) + bits_of(
        (f.block_size - 1) as nat,
        16,
    )
}

/// The bits of a FLAC frame: the header, its CRC-8, and the channels.
pub open spec fn flac_frame_bits(f: FrameSpec, sample_number: u64, bps: nat, ae: bool) -> Seq<bool> {
    let h = flac_header_bits(f, sample_number);
    h + bits_of(crc8_spec(bits_to_bytes(h)) as nat, 8) + flac_subs_bits(f, bps, ae, f.subframes.len())
}

/// Every channel of `f` can be written as a FLAC frame.
pub open spec fn flac_frame_ok(f: FrameSpec, bps: nat) -> bool {
    &&& bps <= 64
    &&& f.block_size >= 1
    &&& forall|ch: int|
        0 <= ch < f.subframes.len() ==> flac_mode_ok(
            #[trigger] f.subframes[ch].mode,
            sub_bps(f.channel_layout, ch as nat, bps, f.subframes[ch].wasted_bits),
        )
}

/// `r` is `bits` padded with zero bits to whole bytes, followed by the big-endian CRC-16 of
/// those bytes.
pub open spec fn framed(r: Seq<u8>, bits: Seq<bool>) -> bool {
    &&& r.len() >= 2
    &&& bytes_to_bits(r.take(r.len() - 2)) == bits + zeros(pad_len(bits.len() % 8))
    &&& r[r.len() - 2] == (crc16_spec(r.take(r.len() - 2)) >> 8u16) as u8
    &&& r[r.len() - 1] == (crc16_spec(r.take(r.len() - 2)) & 0xFFu16) as u8
}

/// The low `n` bits of `x`, which spell the same `n` bits as `x` does.
fn low_bits(x: u64, n: usize) -> (r: u64)
    requires
        n <= 64,
    ensures
        bits_of(r as nat, n as nat) == bits_of(x as nat, n as nat),
{
    if n == 64 {
        return x;
    }
    proof {
        lemma_mask_bits(x, n as u64);
    }
    x & ((1u64 << (n as u64)) - 1)
}

/// Writes the first `n` of `vals` raw, `bps` bits apiece.
fn write_raw(writer: &mut BitWriter, vals: &[i64], n: usize, bps: usize)
    requires
        old(writer).wf(),
        n <= vals@.len(),
        bps <= 64,
    ensures
        final(writer).wf(),
        final(writer).bits() == old(writer).bits() + raw_codes(vals@.take(n as int), bps as nat),
{
    let mut j: usize = 0;
    let ghost w0 = writer.bits();
    proof {
        assert(vals@.take(0) =~= Seq::<i64>::empty());
        assert(w0 + raw_codes(Seq::<i64>::empty(), bps as nat) =~= w0);
    }
    while j < n
        invariant
            j <= n,
            n <= vals@.len(),
            bps <= 64,
            writer.wf(),
            writer.bits() == w0 + raw_codes(vals@.take(j as int), bps as nat),
        decreases n - j,
    {
        let val = vals[j];
        proof {
            assert(vals@.take(j + 1).drop_last() =~= vals@.take(j as int));
        }
        writer.write_bits(low_bits(val as u64, bps), bps);
        proof {
            assert(writer.bits() =~= w0 + raw_codes(vals@.take(j + 1), bps as nat));
        }
        j = j + 1;
    }
}

/// Writes LPC coefficients, `prec` bits apiece.
fn write_coeffs(writer: &mut BitWriter, c: &[i32], prec: usize)
    requires
        old(writer).wf(),
        prec < 64,
    ensures
        final(writer).wf(),
        final(writer).bits() == old(writer).bits() + coeff_codes(c@, prec as nat),
{
    let mut j: usize = 0;
    let ghost w0 = writer.bits();
    proof {
        assert(c@.take(0) =~= Seq::<i32>::empty());
        assert(w0 + coeff_codes(Seq::<i32>::empty(), prec as nat) =~= w0);
    }
    while j < c.len()
        invariant
            j <= c@.len(),
            prec < 64,
            writer.wf(),
            writer.bits() == w0 + coeff_codes(c@.take(j as int), prec as nat),
        decreases c@.len() - j,
    {
        let val = c[j];
        proof {
            lemma_mask_bits(val as u64, prec as u64);
        }
        let mask = (1u64 << (prec as u64)) - 1;
        proof {
            assert(c@.take(j + 1).drop_last() =~= c@.take(j as int));
        }
        writer.write_bits((val as u64) & mask, prec);
        proof {
            assert(writer.bits() =~= w0 + coeff_codes(c@.take(j + 1), prec as nat));
        }
        j = j + 1;
    }
    proof {
        assert(c@.take(c@.len() as int) =~= c@);
    }
}

/// Writes the prediction of a Loom subframe.
fn write_mode_loom(writer: &mut BitWriter, mode: &PredictionMode, sbps: usize, allow_escape: bool)
    requires
        old(writer).wf(),
        loom_mode_ok(mode@, sbps as nat),
    ensures
        final(writer).wf(),
        final(writer).bits() == old(writer).bits() + loom_mode_bits(mode@, sbps as nat, allow_escape),
{
    let ghost w0 = writer.bits();
    match mode {
        PredictionMode::Constant(val) => {
            writer.write_bits(0, 3);
            writer.write_bits(low_bits(*val as u64, sbps), sbps);
            proof {
                assert(writer.bits() =~= w0 + loom_mode_bits(mode@, sbps as nat, allow_escape));
            }
        },
        PredictionMode::Verbatim(samples) => {
            writer.write_bits(1, 3);
            write_raw(writer, samples, samples.len(), sbps);
            proof {
                assert(samples@.take(samples@.len() as int) =~= samples@);
                assert(writer.bits() =~= w0 + loom_mode_bits(mode@, sbps as nat, allow_escape));
            }
        },
        PredictionMode::Fixed { order, residuals } => {
            writer.write_bits(2, 3);
            writer.write_bits(*order as u64, 3);
            write_raw(writer, residuals, *order, sbps);
            encode_residuals(writer, residuals, *order, 2, allow_escape);
            proof {
                assert(writer.bits() =~= w0 + loom_mode_bits(mode@, sbps as nat, allow_escape));
            }
        },
        PredictionMode::Lpc { order, qlp_coeffs, qlp_shift, qlp_precision, residuals } => {
            writer.write_bits(3, 3);
            writer.write_bits(*order as u64, 6);
            writer.write_bits(*qlp_precision as u64, 8);
            writer.write_bits((*qlp_shift as u8) as u64, 8);
            write_coeffs(writer, qlp_coeffs, *qlp_precision);
            write_raw(writer, residuals, *order, sbps);
            encode_residuals(writer, residuals, *order, 2, allow_escape);
            proof {
                assert(writer.bits() =~= w0 + loom_mode_bits(mode@, sbps as nat, allow_escape));
            }
        },
    }
}

/// Pads `writer`'s bits to whole bytes and appends their big-endian CRC-16.
fn finish_with_crc(writer: BitWriter) -> (r: Vec<u8>)
    requires
        writer.wf(),
    ensures
        framed(r@, writer.bits()),
{
    proof {
        writer.lemma_wf_bits();
        assert(writer.bits().len() % 8 == writer.pending()) by (nonlinear_arith)
            requires
                writer.bits().len() == 8 * writer.flushed().len() + writer.pending(),
                writer.pending() < 8,
        ;
    }
    let ghost bits = writer.bits();
    let mut bytes = writer.into_bytes();
    let ghost payload = bytes@;
    let crc = flac_crc16(&bytes);
    bytes.push((crc >> 8) as u8);
    bytes.push((crc & 0xFF) as u8);
    proof {
        assert(bytes@.take(bytes@.len() - 2) =~= payload);
    }
    bytes
}

/// Writes channel `ch` of a Loom frame.
#[verifier::rlimit(90)]
fn write_subframe_loom(
    writer: &mut BitWriter,
    subframe: &Subframe,
    layout: ChannelLayout,
    ch: usize,
    bps: usize,
    allow_escape: bool,
)
    requires
        old(writer).wf(),
        bps <= 64,
        loom_mode_ok(subframe@.mode, sub_bps(layout, ch as nat, bps as nat, subframe.wasted_bits)),
    ensures
        final(writer).wf(),
        final(writer).bits() == old(writer).bits() + loom_sub_bits(
            subframe@,
            layout,
            ch as nat,
            bps as nat,
            allow_escape,
        ),
{
    let ghost w0 = writer.bits();
    if let Some(ref_tr) = subframe.ref_track {
        writer.write_bit(true);
        writer.write_bits(ref_tr as u64, 16);
        writer.write_bits((subframe.ref_weight as u8) as u64, 8);
    } else {
        writer.write_bit(false);
    }
    let ghost w1 = writer.bits();
    if subframe.wasted_bits > 0 {
        writer.write_bit(true);
        writer.write_bits(subframe.wasted_bits as u64, 5);
    } else {
        writer.write_bit(false);
    }
    let ghost w2 = writer.bits();
    let sbps = subframe_bps(layout, ch, bps, subframe.wasted_bits);
    write_mode_loom(writer, &subframe.mode, sbps, allow_escape);
    proof {
        assert(w1 =~= w0 + (match subframe.ref_track {
            Some(t) => seq![true] + bits_of(t as nat, 16) + bits_of(subframe.ref_weight as u8 as nat, 8),
            None => seq![false],
        }));
        assert(w2 =~= w1 + (if subframe.wasted_bits > 0 {
            seq![true] + bits_of(subframe.wasted_bits as nat, 5)
        } else {
            seq![false]
        }));
        assert(writer.bits() =~= w0 + loom_sub_bits(subframe@, layout, ch as nat, bps as nat, allow_escape));
    }
}

/// Writes the prediction of a FLAC subframe after its header.
fn write_mode_flac(writer: &mut BitWriter, mode: &PredictionMode, sbps: usize, allow_escape: bool)
    requires
        old(writer).wf(),
        flac_mode_ok(mode@, sbps as nat),
    ensures
        final(writer).wf(),
        final(writer).bits() == old(writer).bits() + flac_mode_bits(mode@, sbps as nat, allow_escape),
{
    let ghost w0 = writer.bits();
    match mode {
        PredictionMode::Constant(val) => {
            writer.write_bits(low_bits(*val as u64, sbps), sbps);
        },
        PredictionMode::Verbatim(samples) => {
            write_raw(writer, samples, samples.len(), sbps);
            proof {
                assert(samples@.take(samples@.len() as int) =~= samples@);
            }
        },
        PredictionMode::Fixed { order, residuals } => {
            write_raw(writer, residuals, *order, sbps);
            encode_residuals(writer, residuals, *order, 2, allow_escape);
            proof {
                assert(writer.bits() =~= w0 + flac_mode_bits(mode@, sbps as nat, allow_escape));
            }
        },
        PredictionMode::Lpc { order, qlp_coeffs, qlp_shift, qlp_precision, residuals } => {
            write_raw(writer, residuals, *order, sbps);
            writer.write_bits(*qlp_precision as u64 - 1, 4);
            let shift = *qlp_shift;
            proof {
                lemma_mask_bits(shift as u64, 5);
                assert((1u64 << 5u64) - 1 == 0x1Fu64) by (bit_vector);
            }
            writer.write_bits((shift as u64) & 0x1F, 5);
            write_coeffs(writer, qlp_coeffs, *qlp_precision);
            encode_residuals(writer, residuals, *order, 2, allow_escape);
            proof {
                assert(writer.bits() =~= w0 + flac_mode_bits(mode@, sbps as nat, allow_escape));
            }
        },
    }
}

/// Writes channel `ch` of a FLAC frame.
#[verifier::rlimit(40)]
fn write_subframe_flac(
    writer: &mut BitWriter,
    subframe: &Subframe,
    layout: ChannelLayout,
    ch: usize,
    bps: usize,
    allow_escape: bool,
)
    requires
        old(writer).wf(),
        bps <= 64,
        flac_mode_ok(subframe@.mode, sub_bps(layout, ch as nat, bps as nat, subframe.wasted_bits)),
    ensures
        final(writer).wf(),
        final(writer).bits() == old(writer).bits() + flac_sub_bits(
            subframe@,
            layout,
            ch as nat,
            bps as nat,
            allow_escape,
        ),
{
    let ghost w0 = writer.bits();
    writer.write_bit(false);
    let mode_code: u64 = match &subframe.mode {
        PredictionMode::Constant(_) => 0x00,
        PredictionMode::Verbatim(_) => 0x01,
        PredictionMode::Fixed { order, .. } => 0x08 | (*order as u64 & 0x07),
        PredictionMode::Lpc { order, .. } => 0x20 | ((*order as u64 - 1) & 0x1F),
    };
    proof {
        match subframe.mode {
            PredictionMode::Fixed { order, .. } => {
                let o = order as u64;
                assert(0x08u64 | (o & 0x07u64) == 8 + o % 8) by (bit_vector);
            },
            PredictionMode::Lpc { order, .. } => {
                let o = (order as u64 - 1) as u64;
                assert(0x20u64 | (o & 0x1Fu64) == 32 + o % 32) by (bit_vector);
            },
            _ => {},
        }
        assert(mode_code == flac_mode_code(subframe@.mode));
    }
    writer.write_bits(mode_code, 6);
    let ghost w1 = writer.bits();
    if subframe.wasted_bits > 0 {
        writer.write_bit(true);
        writer.write_unary((subframe.wasted_bits - 1) as u64);
    } else {
        writer.write_bit(false);
    }
    let ghost w2 = writer.bits();
    let sbps = subframe_bps(layout, ch, bps, subframe.wasted_bits);
    write_mode_flac(writer, &subframe.mode, sbps, allow_escape);
    proof {
        assert(w2 =~= w1 + (if subframe.wasted_bits > 0 {
            seq![true] + unary_bits((subframe.wasted_bits - 1) as nat)
        } else {
            seq![false]
        }));
        assert(writer.bits() =~= w0 + flac_sub_bits(subframe@, layout, ch as nat, bps as nat, allow_escape));
    }
}

impl Frame {
    /// Serializes the frame in the Loom format for track `track_idx`, with `bps` bits per
    /// sample, allowing raw partitions when `allow_escape` holds.
    pub fn serialize_loom(&self, track_idx: u16, bps: usize, allow_escape: bool) -> (r: Vec<u8>)
        requires
            loom_frame_ok(self@, bps as nat),
        ensures
            framed(r@, loom_frame_bits(self@, track_idx, bps as nat, allow_escape)),
    {
        let mut writer = BitWriter::new();
        writer.write_bits(0xF8A5, 16);
        writer.write_bits(track_idx as u64, 16);
        writer.write_bits(self.frame_seq as u64, 32);
        writer.write_bits(self.block_size as u64, 16);
        writer.write_bits(self.channel_layout.to_code() as u64, 4);
        let ghost head = writer.bits();
        let ghost f = self@;
        let mut ch: usize = 0;
        proof {
            assert(head + loom_subs_bits(f, bps as nat, allow_escape, 0) =~= head);
        }
        while ch < self.subframes.len()
            invariant
                ch <= self.subframes@.len(),
                f == self@,
                loom_frame_ok(f, bps as nat),
                writer.wf(),
                writer.bits() == head + loom_subs_bits(f, bps as nat, allow_escape, ch as nat),
            decreases self.subframes@.len() - ch,
        {
            let subframe = &self.subframes[ch];
            proof {
                assert(f.subframes[ch as int] == subframe@);
            }
            write_subframe_loom(&mut writer, subframe, self.channel_layout, ch, bps, allow_escape);
            proof {
                assert(writer.bits() =~= head + loom_subs_bits(
                    f,
                    bps as nat,
                    allow_escape,
                    (ch + 1) as nat,
                ));
            }
            ch = ch + 1;
        }
        proof {
            assert(writer.bits() =~= loom_frame_bits(f, track_idx, bps as nat, allow_escape));
        }
        finish_with_crc(writer)
    }

    /// Serializes the frame as a FLAC frame whose first sample is `sample_number`, with `bps`
    /// bits per sample, allowing raw partitions when `allow_escape` holds.
    pub fn serialize_flac(&self, sample_number: u64, bps: usize, allow_escape: bool) -> (r: Vec<u8>)
        requires
            flac_frame_ok(self@, bps as nat),
        ensures
            framed(r@, flac_frame_bits(self@, sample_number, bps as nat, allow_escape)),
    {
        let mut writer = BitWriter::new();
        writer.write_bits(0x3FFE, 14);
        writer.write_bit(false);
        writer.write_bit(true);
        writer.write_bits(7, 4);
        writer.write_bits(0, 4);
        writer.write_bits(self.channel_layout.to_code() as u64, 4);
        writer.write_bits(0, 3);
        writer.write_bit(false);
        writer.write_utf8_uint(sample_number);
        writer.write_bits((self.block_size - 1) as u64, 16);
        let ghost f = self@;
        let ghost h = flac_header_bits(f, sample_number);
        proof {
            assert(writer.bits() =~= h);
            assert(writer.pending() == 0);
        }
        writer.flush();
        proof {
            assert(zeros(0) =~= Seq::<bool>::empty());
            assert(writer.bits() =~= h);
            lemma_bits_to_bytes_inv(writer.flushed());
        }
        let crc8 = flac_crc8(writer.flushed_bytes());
        writer.write_bits(crc8 as u64, 8);
        let ghost head = writer.bits();
        let mut ch: usize = 0;
        proof {
            assert(head + flac_subs_bits(f, bps as nat, allow_escape, 0) =~= head);
        }
        while ch < self.subframes.len()
            invariant
                ch <= self.subframes@.len(),
                f == self@,
                flac_frame_ok(f, bps as nat),
                writer.wf(),
                writer.bits() == head + flac_subs_bits(f, bps as nat, allow_escape, ch as nat),
            decreases self.subframes@.len() - ch,
        {
            let subframe = &self.subframes[ch];
            proof {
                assert(f.subframes[ch as int] == subframe@);
            }
            write_subframe_flac(&mut writer, subframe, self.channel_layout, ch, bps, allow_escape);
            proof {
                assert(writer.bits() =~= head + flac_subs_bits(
                    f,
                    bps as nat,
                    allow_escape,
                    (ch + 1) as nat,
                ));
            }
            ch = ch + 1;
        }
        proof {
            assert(writer.bits() =~= flac_frame_bits(f, sample_number, bps as nat, allow_escape));
        }
        let ghost fb = writer.bits();
        proof {
            writer.lemma_wf_bits();
            assert(fb.len() % 8 == writer.pending()) by (nonlinear_arith)
                requires
                    fb.len() == 8 * writer.flushed().len() + writer.pending(),
                    writer.pending() < 8,
            ;
        }
        writer.align_to_byte();
        let ghost ab = writer.bits();
        proof {
            writer.lemma_wf_bits();
            assert(ab.len() % 8 == 0) by (nonlinear_arith)
                requires
                    ab.len() == 8 * writer.flushed().len() + writer.pending(),
                    writer.pending() == 0,
            ;
            assert(ab + zeros(pad_len(ab.len() % 8)) =~= fb + zeros(pad_len(fb.len() % 8)));
        }
        finish_with_crc(writer)
    }
}


/// Reading one bit at `pos`.
pub open spec fn rbit(bits: Seq<bool>, pos: int) -> Result<(bool, int), LoomError> {
    if pos + 1 > bits.len() {
        Err(LoomError::UnexpectedEof)
    } else {
        Ok((bits[pos], pos + 1))
    }
}

/// Reading an `n`-bit number at `pos`.
pub open spec fn rd(bits: Seq<bool>, pos: int, n: nat) -> Result<(nat, int), LoomError> {
    if pos + n > bits.len() {
        Err(LoomError::UnexpectedEof)
    } else {
        Ok((read_val(bits, pos, n), pos + n))
    }
}

/// `n` zero samples.
pub open spec fn zero_block(n: nat) -> Seq<i64> {
    Seq::new(n, |i: int| 0i64)
}

/// `pos` moved up to the next byte boundary.
pub open spec fn align8(pos: int) -> int {
    if pos % 8 == 0 {
        pos
    } else {
        pos + 8 - pos % 8
    }
}

/// Reading `n` more `prec`-bit two's complement coefficients after `acc`.
pub open spec fn dec_coeffs(bits: Seq<bool>, pos: int, acc: Seq<i32>, n: nat, prec: nat) -> Result<
    (Seq<i32>, int),
    LoomError,
>
    decreases n,
{
    if n == 0 {
        Ok((acc, pos))
    } else {
        match rd(bits, pos, prec) {
            Err(e) => Err(e),
            Ok((u, p)) => dec_coeffs(
                bits,
                p,
                acc.push(sign_extend(u as u64, prec as u64) as i32),
                (n - 1) as nat,
                prec,
            ),
        }
    }
}

/// Reading a block's warm-up samples and partitioned Rice residuals.
pub open spec fn parse_residuals(bits: Seq<bool>, pos: int, bs: nat, order: nat, sbps: nat) -> Result<
    (Seq<i64>, int),
    LoomError,
> {
    match dec_raw(bits, pos, zero_block(bs), 0, order as int, sbps) {
        Err(e) => Err(e),
        Ok((o, p)) => rice_decode(bits, p, o, order),
    }
}

/// Reading a constant block's value.
pub open spec fn parse_const(bits: Seq<bool>, p: int, sbps: nat) -> Result<(ModeSpec, int), LoomError> {
    match rd(bits, p, sbps) {
        Err(e) => Err(e),
        Ok((u, p2)) => Ok((ModeSpec::Constant(sign_extend(u as u64, sbps as u64)), p2)),
    }
}

/// Reading a verbatim block of `bs` samples.
pub open spec fn parse_verbatim(bits: Seq<bool>, p: int, sbps: nat, bs: nat) -> Result<
    (ModeSpec, int),
    LoomError,
> {
    match dec_raw(bits, p, zero_block(bs), 0, bs as int, sbps) {
        Err(e) => Err(e),
        Ok((o, p2)) => Ok((ModeSpec::Verbatim(o), p2)),
    }
}

/// Reading the fields of a Loom fixed-predictor subframe after its mode: a 3-bit order,
/// warm-up samples and residuals.
pub open spec fn parse_fixed_loom(bits: Seq<bool>, p: int, sbps: nat, bs: nat) -> Result<
    (ModeSpec, int),
    LoomError,
> {
    match rd(bits, p, 3) {
        Err(e) => Err(e),
        Ok((order, p2)) => if order > bs {
            Err(LoomError::InvalidData)
        } else {
            match parse_residuals(bits, p2, bs, order, sbps) {
                Err(e) => Err(e),
                Ok((r, p3)) => Ok((ModeSpec::Fixed(order, r), p3)),
            }
        },
    }
}

/// Reading the prediction of a Loom subframe of `bs` samples at `sbps` bits: a 3-bit mode
/// (constant, verbatim, fixed, LPC), then its fields.
pub open spec fn parse_mode_loom(bits: Seq<bool>, pos: int, sbps: nat, bs: nat) -> Result<
    (ModeSpec, int),
    LoomError,
> {
    match rd(bits, pos, 3) {
        Err(e) => Err(e),
        Ok((code, p)) => if code == 0 {
            parse_const(bits, p, sbps)
        } else if code == 1 {
            parse_verbatim(bits, p, sbps, bs)
        } else if code == 2 {
            parse_fixed_loom(bits, p, sbps, bs)
        } else if code == 3 {
            parse_lpc_loom(bits, p, sbps, bs)
        } else {
            Err(LoomError::InvalidData)
        },
    }
}

/// Reading the fields of a Loom LPC subframe after its mode.
pub open spec fn parse_lpc_loom(bits: Seq<bool>, p: int, sbps: nat, bs: nat) -> Result<
    (ModeSpec, int),
    LoomError,
> {
    match rd(bits, p, 6) {
        Err(e) => Err(e),
        Ok((order, p2)) => match rd(bits, p2, 8) {
            Err(e) => Err(e),
            Ok((prec, p3)) => match rd(bits, p3, 8) {
                Err(e) => Err(e),
                Ok((sh, p4)) => if prec == 0 || prec > 63 {
                    Err(LoomError::InvalidData)
                } else {
                    match dec_coeffs(bits, p4, seq![], order, prec) {
                        Err(e) => Err(e),
                        Ok((c, p5)) => if order > bs {
                            Err(LoomError::InvalidData)
                        } else {
                            match parse_residuals(bits, p5, bs, order, sbps) {
                                Err(e) => Err(e),
                                Ok((r, p6)) => Ok(
                                    (ModeSpec::Lpc(order, c, sh as u8 as i8, prec, r), p6),
                                ),
                            }
                        },
                    }
                },
            },
        },
    }
}

/// Reading the cross-track reference of a Loom subframe: a flag, then a 16-bit track and an
/// 8-bit weight.
pub open spec fn parse_ref(bits: Seq<bool>, pos: int) -> Result<(Option<u16>, i8, int), LoomError> {
    match rbit(bits, pos) {
        Err(e) => Err(e),
        Ok((has, p)) => if has {
            match rd(bits, p, 16) {
                Err(e) => Err(e),
                Ok((t, p2)) => match rd(bits, p2, 8) {
                    Err(e) => Err(e),
                    Ok((w, p3)) => Ok((Some(t as u16), w as u8 as i8, p3)),
                },
            }
        } else {
            Ok((None, 0i8, p))
        },
    }
}

/// Reading the wasted bits of a Loom subframe: a flag, then a 5-bit count.
pub open spec fn parse_wasted_loom(bits: Seq<bool>, pos: int) -> Result<(u8, int), LoomError> {
    match rbit(bits, pos) {
        Err(e) => Err(e),
        Ok((has, p)) => if has {
            match rd(bits, p, 5) {
                Err(e) => Err(e),
                Ok((w, p2)) => Ok((w as u8, p2)),
            }
        } else {
            Ok((0u8, p))
        },
    }
}

/// Reading channel `ch` of a Loom frame.
pub open spec fn parse_sub_loom(
    bits: Seq<bool>,
    pos: int,
    l: ChannelLayout,
    ch: nat,
    bps: nat,
    bs: nat,
) -> Result<(SubframeSpec, int), LoomError> {
    match parse_ref(bits, pos) {
        Err(e) => Err(e),
        Ok((rt, rw, p)) => match parse_wasted_loom(bits, p) {
            Err(e) => Err(e),
            Ok((w, p2)) => match parse_mode_loom(bits, p2, sub_bps(l, ch, bps, w), bs) {
                Err(e) => Err(e),
                Ok((m, p3)) => Ok(
                    (SubframeSpec { mode: m, ref_track: rt, ref_weight: rw, wasted_bits: w }, p3),
                ),
            },
        },
    }
}

/// Reading channels `ch .. n` of a Loom frame after `acc`.
pub open spec fn parse_subs_loom(
    bits: Seq<bool>,
    pos: int,
    l: ChannelLayout,
    bps: nat,
    bs: nat,
    ch: nat,
    n: nat,
    acc: Seq<SubframeSpec>,
) -> Result<(Seq<SubframeSpec>, int), LoomError>
    decreases n - ch,
{
    if ch >= n {
        Ok((acc, pos))
    } else {
        match parse_sub_loom(bits, pos, l, ch, bps, bs) {
            Err(e) => Err(e),
            Ok((sf, p)) => parse_subs_loom(bits, p, l, bps, bs, ch + 1, n, acc.push(sf)),
        }
    }
}

/// Reading a Loom frame at `pos`: the frame, its track, and the position after it (moved to
/// a byte boundary).
pub open spec fn parse_frame_loom(bits: Seq<bool>, pos: int, bps: nat) -> Result<
    (FrameSpec, u16, int),
    LoomError,
> {
    match rd(bits, pos, 16) {
        Err(e) => Err(e),
        Ok((sync, p)) => if sync != 0xF8A5 {
            Err(LoomError::InvalidData)
        } else {
            match rd(bits, p, 16) {
                Err(e) => Err(e),
                Ok((track, p2)) => match rd(bits, p2, 32) {
                    Err(e) => Err(e),
                    Ok((seq_no, p3)) => match rd(bits, p3, 16) {
                        Err(e) => Err(e),
                        Ok((bs, p4)) => match rd(bits, p4, 4) {
                            Err(e) => Err(e),
                            Ok((code, p5)) => match layout_of_code(code as u8) {
                                None => Err(LoomError::InvalidData),
                                Some(l) => match parse_subs_loom(
                                    bits,
                                    p5,
                                    l,
                                    bps,
                                    bs,
                                    0,
                                    layout_channels(l),
                                    seq![],
                                ) {
                                    Err(e) => Err(e),
                                    Ok((subs, p6)) => Ok(
                                        (
                                            FrameSpec {
                                                frame_seq: seq_no as u32,
                                                block_size: bs as u32,
                                                channel_layout: l,
                                                subframes: subs,
                                            },
                                            track as u16,
                                            align8(p6),
                                        ),
                                    ),
                                },
                            },
                        },
                    },
                },
            }
        },
    }
}

/// The bytes from the reader's position on end with a big-endian CRC-16 of the bytes before
/// it (or are fewer than two).
pub open spec fn crc_tail_ok(rest: Seq<u8>) -> bool {
    rest.len() < 2 || crc16_spec(rest.take(rest.len() - 2)) as nat == rest[rest.len() - 2] as nat
        * 256 + rest[rest.len() - 1] as nat
}

/// `u` read as a `b`-bit two's complement number.
fn sign_ext(u: u64, b: usize) -> (r: i64)
    requires
        1 <= b <= 64,
    ensures
        r == sign_extend(u, b as u64),
{
    if b == 64 {
        assert(sign_extend(u, 64) == u as i64) by (bit_vector);
        return u as i64;
    }
    proof {
        lemma_mask_bits(0, b as u64);
        lemma_mask_bits(0, (b - 1) as u64);
    }
    let sign_bit = 1u64 << ((b - 1) as u64);
    let mask = ((1u64 << (b as u64)) - 1) as u64;
    if (u & sign_bit) != 0 {
        (u | !mask) as i64
    } else {
        u as i64
    }
}

/// Reads an `n`-bit number, as `rd` says.
fn read_num(reader: &mut BitReader, n: usize) -> (r: Result<u64, LoomError>)
    requires
        old(reader).wf(),
        n <= 64,
    ensures
        final(reader).wf(),
        final(reader).data() == old(reader).data(),
        match rd(old(reader).bits(), old(reader).pos() as int, n as nat) {
            Ok((v, p)) => r == Ok::<u64, LoomError>(v as u64) && final(reader).pos() == p && v
                < vstd::arithmetic::power2::pow2(n as nat),
            Err(e) => r == Err::<u64, LoomError>(e),
        },
{
    proof {
        reader.lemma_wf();
    }
    let r = reader.read_bits(n);
    proof {
        if old(reader).pos() + n <= old(reader).total() {
            crate::bitstream::lemma_bits_of_val(
                old(reader).bits().subrange(old(reader).pos() as int, old(reader).pos() + n),
            );
            assert(old(reader).bits().subrange(old(reader).pos() as int, old(reader).pos() + n).len() == n);
        }
    }
    r
}

/// Reads one bit, as `rbit` says.
fn read_flag(reader: &mut BitReader) -> (r: Result<bool, LoomError>)
    requires
        old(reader).wf(),
    ensures
        final(reader).wf(),
        final(reader).data() == old(reader).data(),
        match rbit(old(reader).bits(), old(reader).pos() as int) {
            Ok((v, p)) => r == Ok::<bool, LoomError>(v) && final(reader).pos() == p,
            Err(e) => r == Err::<bool, LoomError>(e),
        },
{
    proof {
        reader.lemma_wf();
    }
    reader.read_bit()
}

/// Reads raw values into `out[start..end]`, as `dec_raw` says.
fn read_raw(reader: &mut BitReader, out: &mut Vec<i64>, start: usize, end: usize, bps: usize) -> (r:
    Result<(), LoomError>)
    requires
        old(reader).wf(),
        start <= end <= old(out)@.len(),
        1 <= bps <= 64,
    ensures
        final(reader).wf(),
        final(reader).data() == old(reader).data(),
        final(out)@.len() == old(out)@.len(),
        match dec_raw(old(reader).bits(), old(reader).pos() as int, old(out)@, start as int, end as int, bps as nat) {
            Ok((o, p)) => r is Ok && final(out)@ == o && final(reader).pos() == p,
            Err(e) => r == Err::<(), LoomError>(e),
        },
{
    let mut i = start;
    while i < end
        invariant
            reader.wf(),
            reader.data() == old(reader).data(),
            out@.len() == old(out)@.len(),
            start <= i <= end,
            end <= out@.len(),
            1 <= bps <= 64,
            dec_raw(old(reader).bits(), old(reader).pos() as int, old(out)@, start as int, end as int, bps as nat)
                == dec_raw(reader.bits(), reader.pos() as int, out@, i as int, end as int, bps as nat),
        decreases end - i,
    {
        let uval = match read_num(reader, bps) {
            Ok(v) => v,
            Err(e) => {
                return Err(e);
            },
        };
        out.set(i, sign_ext(uval, bps));
        i = i + 1;
    }
    Ok(())
}

/// Reads `n` LPC coefficients of `prec` bits, as `dec_coeffs` says.
fn read_coeffs(reader: &mut BitReader, n: usize, prec: usize) -> (r: Result<Vec<i32>, LoomError>)
    requires
        old(reader).wf(),
        1 <= prec <= 63,
    ensures
        final(reader).wf(),
        final(reader).data() == old(reader).data(),
        match dec_coeffs(old(reader).bits(), old(reader).pos() as int, seq![], n as nat, prec as nat) {
            Ok((c, p)) => r is Ok && r->Ok_0@ == c && final(reader).pos() == p,
            Err(e) => r == Err::<Vec<i32>, LoomError>(e),
        },
{
    let mut c: Vec<i32> = Vec::new();
    let mut i: usize = 0;
    proof {
        assert(c@ =~= seq![]);
    }
    while i < n
        invariant
            reader.wf(),
            reader.data() == old(reader).data(),
            i <= n,
            1 <= prec <= 63,
            dec_coeffs(old(reader).bits(), old(reader).pos() as int, seq![], n as nat, prec as nat)
                == dec_coeffs(reader.bits(), reader.pos() as int, c@, (n - i) as nat, prec as nat),
        decreases n - i,
    {
        let uval = match read_num(reader, prec) {
            Ok(v) => v,
            Err(e) => {
                return Err(e);
            },
        };
        let v = sign_ext(uval, prec) as i32;
        c.push(v);
        i = i + 1;
    }
    Ok(c)
}

/// `n` zero samples.
fn zeros_vec(n: usize) -> (r: Vec<i64>)
    ensures
        r@ == zero_block(n as nat),
{
    let mut v: Vec<i64> = Vec::with_capacity(n);
    let mut i: usize = 0;
    while i < n
        invariant
            i <= n,
            v@ =~= zero_block(i as nat),
        decreases n - i,
    {
        v.push(0);
        i = i + 1;
    }
    v
}

/// Reads a block's warm-up samples and residuals, as `parse_residuals` says.
fn read_residuals(reader: &mut BitReader, bs: usize, order: usize, sbps: usize) -> (r: Result<
    Vec<i64>,
    LoomError,
>)
    requires
        old(reader).wf(),
        order <= bs,
        1 <= sbps <= 64,
    ensures
        final(reader).wf(),
        final(reader).data() == old(reader).data(),
        match parse_residuals(old(reader).bits(), old(reader).pos() as int, bs as nat, order as nat, sbps as nat) {
            Ok((res, p)) => r is Ok && r->Ok_0@ == res && final(reader).pos() == p,
            Err(e) => r == Err::<Vec<i64>, LoomError>(e),
        },
{
    let mut residuals = zeros_vec(bs);
    match read_raw(reader, &mut residuals, 0, order, sbps) {
        Ok(()) => {},
        Err(e) => {
            return Err(e);
        },
    }
    match decode_residuals(reader, residuals.as_mut_slice(), order) {
        Ok(()) => Ok(residuals),
        Err(e) => Err(e),
    }
}


/// Reads a constant block's value, as `parse_const` says.
fn read_const(reader: &mut BitReader, sbps: usize) -> (r: Result<PredictionMode, LoomError>)
    requires
        old(reader).wf(),
        1 <= sbps <= 64,
    ensures
        final(reader).wf(),
        final(reader).data() == old(reader).data(),
        match parse_const(old(reader).bits(), old(reader).pos() as int, sbps as nat) {
            Ok((m, p)) => r is Ok && r->Ok_0@ == m && final(reader).pos() == p,
            Err(e) => r == Err::<PredictionMode, LoomError>(e),
        },
{
    match read_num(reader, sbps) {
        Ok(uval) => Ok(PredictionMode::Constant(sign_ext(uval, sbps))),
        Err(e) => Err(e),
    }
}

/// Reads a verbatim block, as `parse_verbatim` says.
fn read_verbatim(reader: &mut BitReader, sbps: usize, bs: usize) -> (r: Result<PredictionMode, LoomError>)
    requires
        old(reader).wf(),
        1 <= sbps <= 64,
    ensures
        final(reader).wf(),
        final(reader).data() == old(reader).data(),
        match parse_verbatim(old(reader).bits(), old(reader).pos() as int, sbps as nat, bs as nat) {
            Ok((m, p)) => r is Ok && r->Ok_0@ == m && final(reader).pos() == p,
            Err(e) => r == Err::<PredictionMode, LoomError>(e),
        },
{
    let mut samples = zeros_vec(bs);
    match read_raw(reader, &mut samples, 0, bs, sbps) {
        Ok(()) => Ok(PredictionMode::Verbatim(samples)),
        Err(e) => Err(e),
    }
}

/// Reads the fields of a Loom fixed-predictor subframe, as `parse_fixed_loom` says.
fn read_fixed_loom(reader: &mut BitReader, sbps: usize, bs: usize) -> (r: Result<PredictionMode, LoomError>)
    requires
        old(reader).wf(),
        1 <= sbps <= 64,
    ensures
        final(reader).wf(),
        final(reader).data() == old(reader).data(),
        match parse_fixed_loom(old(reader).bits(), old(reader).pos() as int, sbps as nat, bs as nat) {
            Ok((m, p)) => r is Ok && r->Ok_0@ == m && final(reader).pos() == p,
            Err(e) => r == Err::<PredictionMode, LoomError>(e),
        },
{
    proof {
        lemma2_to64();
    }
    let order = match read_num(reader, 3) {
        Ok(v) => v as usize,
        Err(e) => {
            return Err(e);
        },
    };
    if order > bs {
        return Err(LoomError::InvalidData);
    }
    match read_residuals(reader, bs, order, sbps) {
        Ok(residuals) => Ok(PredictionMode::Fixed { order, residuals }),
        Err(e) => Err(e),
    }
}

/// Reads the prediction of a Loom subframe, as `parse_mode_loom` says.
fn read_mode_loom(reader: &mut BitReader, sbps: usize, bs: usize) -> (r: Result<PredictionMode, LoomError>)
    requires
        old(reader).wf(),
        1 <= sbps <= 64,
    ensures
        final(reader).wf(),
        final(reader).data() == old(reader).data(),
        match parse_mode_loom(old(reader).bits(), old(reader).pos() as int, sbps as nat, bs as nat) {
            Ok((m, p)) => r is Ok && r->Ok_0@ == m && final(reader).pos() == p,
            Err(e) => r == Err::<PredictionMode, LoomError>(e),
        },
{
    proof {
        lemma2_to64();
    }
    let mode_code = match read_num(reader, 3) {
        Ok(v) => v,
        Err(e) => {
            return Err(e);
        },
    };
    if mode_code == 0 {
        read_const(reader, sbps)
    } else if mode_code == 1 {
        read_verbatim(reader, sbps, bs)
    } else if mode_code == 2 {
        read_fixed_loom(reader, sbps, bs)
    } else if mode_code == 3 {
        read_lpc_loom(reader, sbps, bs)
    } else {
        Err(LoomError::InvalidData)
    }
}

/// Reads the fields of a Loom LPC subframe, as `parse_lpc_loom` says.
fn read_lpc_loom(reader: &mut BitReader, sbps: usize, bs: usize) -> (r: Result<PredictionMode, LoomError>)
    requires
        old(reader).wf(),
        1 <= sbps <= 64,
    ensures
        final(reader).wf(),
        final(reader).data() == old(reader).data(),
        match parse_lpc_loom(old(reader).bits(), old(reader).pos() as int, sbps as nat, bs as nat) {
            Ok((m, p)) => r is Ok && r->Ok_0@ == m && final(reader).pos() == p,
            Err(e) => r == Err::<PredictionMode, LoomError>(e),
        },
{
    proof {
        lemma2_to64();
    }
    let order = match read_num(reader, 6) {
        Ok(v) => v as usize,
        Err(e) => {
            return Err(e);
        },
    };
    let qlp_precision = match read_num(reader, 8) {
        Ok(v) => v as usize,
        Err(e) => {
            return Err(e);
        },
    };
    let shift_raw = match read_num(reader, 8) {
        Ok(v) => v,
        Err(e) => {
            return Err(e);
        },
    };
    let qlp_shift = shift_raw as u8 as i8;
    if qlp_precision == 0 || qlp_precision > 63 {
        return Err(LoomError::InvalidData);
    }
    let qlp_coeffs = match read_coeffs(reader, order, qlp_precision) {
        Ok(c) => c,
        Err(e) => {
            return Err(e);
        },
    };
    if order > bs {
        return Err(LoomError::InvalidData);
    }
    match read_residuals(reader, bs, order, sbps) {
        Ok(residuals) => Ok(PredictionMode::Lpc { order, qlp_coeffs, qlp_shift, qlp_precision, residuals }),
        Err(e) => Err(e),
    }
}

/// Reads the cross-track reference of a Loom subframe, as `parse_ref` says.
fn read_ref(reader: &mut BitReader) -> (r: Result<(Option<u16>, i8), LoomError>)
    requires
        old(reader).wf(),
    ensures
        final(reader).wf(),
        final(reader).data() == old(reader).data(),
        match parse_ref(old(reader).bits(), old(reader).pos() as int) {
            Ok((t, w, p)) => r == Ok::<(Option<u16>, i8), LoomError>((t, w)) && final(reader).pos() == p,
            Err(e) => r == Err::<(Option<u16>, i8), LoomError>(e),
        },
{
    proof {
        lemma2_to64();
    }
    let has_cross_ref = match read_flag(reader) {
        Ok(b) => b,
        Err(e) => {
            return Err(e);
        },
    };
    if has_cross_ref {
        let t = match read_num(reader, 16) {
            Ok(v) => v as u16,
            Err(e) => {
                return Err(e);
            },
        };
        let w = match read_num(reader, 8) {
            Ok(v) => v as u8 as i8,
            Err(e) => {
                return Err(e);
            },
        };
        Ok((Some(t), w))
    } else {
        Ok((None, 0))
    }
}

/// Reads channel `ch` of a Loom frame, as `parse_sub_loom` says.
fn read_subframe_loom(reader: &mut BitReader, l: ChannelLayout, ch: usize, bps: usize, bs: usize) -> (r:
    Result<Subframe, LoomError>)
    requires
        old(reader).wf(),
        bps <= 63,
    ensures
        final(reader).wf(),
        final(reader).data() == old(reader).data(),
        match parse_sub_loom(old(reader).bits(), old(reader).pos() as int, l, ch as nat, bps as nat, bs as nat) {
            Ok((sf, p)) => r is Ok && r->Ok_0@ == sf && final(reader).pos() == p,
            Err(e) => r == Err::<Subframe, LoomError>(e),
        },
{
    proof {
        lemma2_to64();
    }
    let (ref_track, ref_weight) = match read_ref(reader) {
        Ok(x) => x,
        Err(e) => {
            return Err(e);
        },
    };
    let has_wasted_bits = match read_flag(reader) {
        Ok(b) => b,
        Err(e) => {
            return Err(e);
        },
    };
    let wasted_bits: u8 = if has_wasted_bits {
        match read_num(reader, 5) {
            Ok(v) => v as u8,
            Err(e) => {
                return Err(e);
            },
        }
    } else {
        0
    };
    let sbps = subframe_bps(l, ch, bps, wasted_bits);
    match read_mode_loom(reader, sbps, bs) {
        Ok(mode) => Ok(Subframe { mode, ref_track, ref_weight, wasted_bits }),
        Err(e) => Err(e),
    }
}

/// Reads every channel of a Loom frame, as `parse_subs_loom` says.
fn read_subframes_loom(reader: &mut BitReader, channel_layout: ChannelLayout, bps: usize, bs: usize) -> (r:
    Result<Vec<Subframe>, LoomError>)
    requires
        old(reader).wf(),
        bps <= 63,
    ensures
        final(reader).wf(),
        final(reader).data() == old(reader).data(),
        match parse_subs_loom(
            old(reader).bits(),
            old(reader).pos() as int,
            channel_layout,
            bps as nat,
            bs as nat,
            0,
            layout_channels(channel_layout),
            seq![],
        ) {
            Ok((subs, p)) => r is Ok && r->Ok_0@.map_values(|s: Subframe| s@) == subs && final(reader).pos() == p,
            Err(e) => r == Err::<Vec<Subframe>, LoomError>(e),
        },
{
    let channels = channel_layout.channels() as usize;
    let mut subframes: Vec<Subframe> = Vec::with_capacity(channels);
    let mut ch: usize = 0;
    let ghost bits = reader.bits();
    let ghost p0 = reader.pos() as int;
    proof {
        assert(subframes@.map_values(|s: Subframe| s@) =~= seq![]);
    }
    while ch < channels
        invariant
            reader.wf(),
            reader.data() == old(reader).data(),
            bits == reader.bits(),
            bits == old(reader).bits(),
            p0 == old(reader).pos(),
            bps <= 63,
            ch <= channels,
            channels == layout_channels(channel_layout),
            parse_subs_loom(bits, p0, channel_layout, bps as nat, bs as nat, 0, channels as nat, seq![])
                == parse_subs_loom(
                bits,
                reader.pos() as int,
                channel_layout,
                bps as nat,
                bs as nat,
                ch as nat,
                channels as nat,
                subframes@.map_values(|s: Subframe| s@),
            ),
        decreases channels - ch,
    {
        let sf = match read_subframe_loom(reader, channel_layout, ch, bps, bs) {
            Ok(sf) => sf,
            Err(e) => {
                return Err(e);
            },
        };
        let ghost before = subframes@.map_values(|s: Subframe| s@);
        subframes.push(sf);
        proof {
            assert(subframes@.map_values(|s: Subframe| s@) =~= before.push(sf@));
        }
        ch = ch + 1;
    }
    Ok(subframes)
}

impl Frame {
    /// Reads a Loom frame that the rest of the reader's data holds, ending with its CRC-16:
    /// fewer than 100 bits left is a truncated frame, a CRC-16 that does not match is
    /// invalid data, and otherwise the frame is read as `parse_frame_loom` says, with its
    /// side channels at `bps + 1` bits. Gives back the frame and its track.
    pub fn deserialize_loom(reader: &mut BitReader, bps: usize, _decoded_pcm: &mut [Vec<i64>]) -> (r:
        Result<(Frame, u16), LoomError>)
        requires
            old(reader).wf(),
            bps <= 63,
        ensures
            final(reader).wf(),
            final(reader).data() == old(reader).data(),
            final(_decoded_pcm)@ == old(_decoded_pcm)@,
            old(reader).total() - old(reader).pos() < 100 ==> r == Err::<(Frame, u16), LoomError>(
                LoomError::UnexpectedEof,
            ),
            old(reader).total() - old(reader).pos() >= 100 && !crc_tail_ok(
                old(reader).data().subrange(
                    (old(reader).pos() / 8) as int,
                    old(reader).data().len() as int,
                ),
            ) ==> r == Err::<(Frame, u16), LoomError>(LoomError::InvalidData),
            old(reader).total() - old(reader).pos() >= 100 && crc_tail_ok(
                old(reader).data().subrange(
                    (old(reader).pos() / 8) as int,
                    old(reader).data().len() as int,
                ),
            ) ==> match parse_frame_loom(old(reader).bits(), old(reader).pos() as int, bps as nat) {
                Ok((f, t, p)) => r is Ok && r->Ok_0.0@ == f && r->Ok_0.1 == t && final(reader).pos() == p,
                Err(e) => r == Err::<(Frame, u16), LoomError>(e),
            },
    {
        if reader.bits_left() < 100 {
            return Err(LoomError::UnexpectedEof);
        }
        let all_bytes = reader.peek_remaining_bytes();
        if all_bytes.len() >= 2 {
            let n = all_bytes.len();
            let (payload, _) = all_bytes.split_at(n - 2);
            let stored_crc = ((all_bytes[n - 2] as u16) << 8) | (all_bytes[n - 1] as u16);
            let computed_crc = crc16(payload);
            proof {
                let a = all_bytes@[n - 2];
                let b = all_bytes@[n - 1];
                assert(((a as u16) << 8u16) | (b as u16) == a * 256 + b) by (bit_vector);
                assert(payload@ == all_bytes@.take(n - 2));
            }
            if stored_crc != computed_crc {
                return Err(LoomError::InvalidData);
            }
        }
        proof {
            lemma2_to64();
        }
        let sync_word = match read_num(reader, 16) {
            Ok(v) => v,
            Err(e) => {
                return Err(e);
            },
        };
        if sync_word != 0xF8A5 {
            return Err(LoomError::InvalidData);
        }
        let track_idx = match read_num(reader, 16) {
            Ok(v) => v as u16,
            Err(e) => {
                return Err(e);
            },
        };
        let frame_seq = match read_num(reader, 32) {
            Ok(v) => v as u32,
            Err(e) => {
                return Err(e);
            },
        };
        let block_size = match read_num(reader, 16) {
            Ok(v) => v as u32,
            Err(e) => {
                return Err(e);
            },
        };
        let layout_code = match read_num(reader, 4) {
            Ok(v) => v as u8,
            Err(e) => {
                return Err(e);
            },
        };
        let channel_layout = match ChannelLayout::from_code(layout_code) {
            Some(l) => l,
            None => {
                return Err(LoomError::InvalidData);
            },
        };
        let subframes = match read_subframes_loom(reader, channel_layout, bps, block_size as usize) {
            Ok(v) => v,
            Err(e) => {
                return Err(e);
            },
        };
        reader.align_to_byte();
        Ok((Frame { frame_seq, block_size, channel_layout, subframes }, track_idx))
    }
}

/// The CRC-16 of `data`.
pub fn crc16(data: &[u8]) -> (r: u16)
    ensures
        r == crc16_spec(data@),
{
    flac_crc16(data)
}


/// The header fields of a FLAC frame: its number, block size and layout.
pub struct FlacHeader {
    pub frame_seq: u32,
    pub block_size: u32,
    pub layout: ChannelLayout,
}

/// The block size a FLAC block size code stands for, `v` being the number that follows the
/// header for codes 6 (8 bits) and 7 (16 bits).
pub open spec fn flac_bs_field_len(code: nat) -> nat {
    if code == 7 {
        16
    } else if code == 6 {
        8
    } else {
        0
    }
}

/// The block size of a FLAC block size code and the number after the header.
pub open spec fn flac_block_size(code: nat, v: nat) -> u32 {
    if code == 7 || code == 6 {
        (v + 1) as u32
    } else if code == 1 {
        192
    } else {
        0
    }
}

/// Reading a FLAC frame header up to and with its CRC-8, which is not checked.
pub open spec fn parse_header_flac(bits: Seq<bool>, pos: int) -> Result<(FlacHeader, int), LoomError> {
    match rd(bits, pos, 14) {
        Err(e) => Err(e),
        Ok((sync, p)) => if sync != 0x3FFE {
            Err(LoomError::InvalidData)
        } else {
            match rd(bits, p, 2) {
                Err(e) => Err(e),
                Ok((_, p2)) => match rd(bits, p2, 4) {
                    Err(e) => Err(e),
                    Ok((bsc, p3)) => match rd(bits, p3, 4) {
                        Err(e) => Err(e),
                        Ok((_, p4)) => match rd(bits, p4, 4) {
                            Err(e) => Err(e),
                            Ok((lc, p5)) => match rd(bits, p5, 4) {
                                Err(e) => Err(e),
                                Ok((_, p6)) => match utf8_read(bits, p6) {
                                    Err(e) => Err(e),
                                    Ok(fs) => {
                                        let p7 = p6 + utf8_read_len(bits, p6);
                                        match rd(bits, p7, flac_bs_field_len(bsc)) {
                                            Err(e) => Err(e),
                                            Ok((v, p8)) => match rd(bits, p8, 8) {
                                                Err(e) => Err(e),
                                                Ok((_, p9)) => match layout_of_code(lc as u8) {
                                                    None => Err(LoomError::InvalidData),
                                                    Some(l) => Ok(
                                                        (
                                                            FlacHeader {
                                                                frame_seq: fs as u32,
                                                                block_size: flac_block_size(bsc, v),
                                                                layout: l,
                                                            },
                                                            p9,
                                                        ),
                                                    ),
                                                },
                                            },
                                        }
                                    },
                                },
                            },
                        },
                    },
                },
            }
        },
    }
}

/// Reading the wasted bits of a FLAC subframe: a flag, then the count less one in unary.
pub open spec fn parse_wasted_flac(bits: Seq<bool>, pos: int) -> Result<(u8, int), LoomError> {
    match rbit(bits, pos) {
        Err(e) => Err(e),
        Ok((has, p)) => if has {
            match zero_run(bits, p) {
                None => Err(LoomError::UnexpectedEof),
                Some(q) => Ok((((q + 1) % 256) as u8, p + q + 1)),
            }
        } else {
            Ok((0u8, p))
        },
    }
}

/// A 5-bit FLAC LPC shift read as two's complement.
pub open spec fn shift5(v: nat) -> i8 {
    if v >= 16 {
        (v - 32) as i8
    } else {
        v as i8
    }
}

/// Reading the fields of a FLAC LPC subframe of order `order`: warm-up samples, the
/// precision less one (4 bits), the shift (5 bits), the coefficients and the residuals.
pub open spec fn parse_lpc_flac(bits: Seq<bool>, p: int, order: nat, sbps: nat, bs: nat) -> Result<
    (ModeSpec, int),
    LoomError,
> {
    if order > bs {
        Err(LoomError::InvalidData)
    } else {
        match dec_raw(bits, p, zero_block(bs), 0, order as int, sbps) {
            Err(e) => Err(e),
            Ok((w, p2)) => match rd(bits, p2, 4) {
                Err(e) => Err(e),
                Ok((pm1, p3)) => match rd(bits, p3, 5) {
                    Err(e) => Err(e),
                    Ok((sh, p4)) => match dec_coeffs(bits, p4, seq![], order, pm1 + 1) {
                        Err(e) => Err(e),
                        Ok((c, p5)) => match rice_decode(bits, p5, w, order) {
                            Err(e) => Err(e),
                            Ok((r, p6)) => Ok(
                                (ModeSpec::Lpc(order, c, shift5(sh), pm1 + 1, r), p6),
                            ),
                        },
                    },
                },
            },
        }
    }
}

/// Reading the prediction of a FLAC subframe with type `code`: constant (0), verbatim (1),
/// fixed of order `code - 8` (8 to 15), LPC of order `code - 31` (from 32).
pub open spec fn parse_mode_flac(bits: Seq<bool>, p: int, code: nat, sbps: nat, bs: nat) -> Result<
    (ModeSpec, int),
    LoomError,
> {
    if code == 0 {
        parse_const(bits, p, sbps)
    } else if code == 1 {
        parse_verbatim(bits, p, sbps, bs)
    } else if 8 <= code <= 15 {
        let order = (code - 8) as nat;
        if order > bs {
            Err(LoomError::InvalidData)
        } else {
            match parse_residuals(bits, p, bs, order, sbps) {
                Err(e) => Err(e),
                Ok((r, p2)) => Ok((ModeSpec::Fixed(order, r), p2)),
            }
        }
    } else if code >= 32 {
        parse_lpc_flac(bits, p, (code - 31) as nat, sbps, bs)
    } else {
        Err(LoomError::InvalidData)
    }
}

/// Reading channel `ch` of a FLAC frame.
pub open spec fn parse_sub_flac(
    bits: Seq<bool>,
    pos: int,
    l: ChannelLayout,
    ch: nat,
    bps: nat,
    bs: nat,
) -> Result<(SubframeSpec, int), LoomError> {
    match rbit(bits, pos) {
        Err(e) => Err(e),
        Ok((_, p)) => match rd(bits, p, 6) {
            Err(e) => Err(e),
            Ok((code, p2)) => match parse_wasted_flac(bits, p2) {
                Err(e) => Err(e),
                Ok((w, p3)) => match parse_mode_flac(bits, p3, code, sub_bps(l, ch, bps, w), bs) {
                    Err(e) => Err(e),
                    Ok((m, p4)) => Ok(
                        (SubframeSpec { mode: m, ref_track: None, ref_weight: 0, wasted_bits: w }, p4),
                    ),
                },
            },
        },
    }
}

/// Reading channels `ch .. n` of a FLAC frame after `acc`.
pub open spec fn parse_subs_flac(
    bits: Seq<bool>,
    pos: int,
    l: ChannelLayout,
    bps: nat,
    bs: nat,
    ch: nat,
    n: nat,
    acc: Seq<SubframeSpec>,
) -> Result<(Seq<SubframeSpec>, int), LoomError>
    decreases n - ch,
{
    if ch >= n {
        Ok((acc, pos))
    } else {
        match parse_sub_flac(bits, pos, l, ch, bps, bs) {
            Err(e) => Err(e),
            Ok((sf, p)) => parse_subs_flac(bits, p, l, bps, bs, ch + 1, n, acc.push(sf)),
        }
    }
}

/// Reading a FLAC frame at `pos`: the header, the channels, padding to a byte boundary, and
/// a 16-bit CRC, which is not checked; gives the frame and the position after it.
pub open spec fn parse_frame_flac(bits: Seq<bool>, pos: int, bps: nat) -> Result<(FrameSpec, int), LoomError> {
    match parse_header_flac(bits, pos) {
        Err(e) => Err(e),
        Ok((h, p)) => match parse_subs_flac(
            bits,
            p,
            h.layout,
            bps,
            h.block_size as nat,
            0,
            layout_channels(h.layout),
            seq![],
        ) {
            Err(e) => Err(e),
            Ok((subs, p2)) => match rd(bits, align8(p2), 16) {
                Err(e) => Err(e),
                Ok((_, p3)) => Ok(
                    (
                        FrameSpec {
                            frame_seq: h.frame_seq,
                            block_size: h.block_size,
                            channel_layout: h.layout,
                            subframes: subs,
                        },
                        p3,
                    ),
                ),
            },
        },
    }
}

/// Reads a FLAC frame header, as `parse_header_flac` says.
fn read_header_flac(reader: &mut BitReader) -> (r: Result<(u32, u32, ChannelLayout), LoomError>)
    requires
        old(reader).wf(),
    ensures
        final(reader).wf(),
        final(reader).data() == old(reader).data(),
        match parse_header_flac(old(reader).bits(), old(reader).pos() as int) {
            Ok((h, p)) => r == Ok::<(u32, u32, ChannelLayout), LoomError>(
                (h.frame_seq, h.block_size, h.layout),
            ) && final(reader).pos() == p,
            Err(e) => r == Err::<(u32, u32, ChannelLayout), LoomError>(e),
        },
{
    proof {
        lemma2_to64();
    }
    let sync_word = match read_num(reader, 14) {
        Ok(v) => v,
        Err(e) => {
            return Err(e);
        },
    };
    if sync_word != 0x3FFE {
        return Err(LoomError::InvalidData);
    }
    match read_num(reader, 2) {
        Ok(_) => {},
        Err(e) => {
            return Err(e);
        },
    }
    let block_size_code = match read_num(reader, 4) {
        Ok(v) => v,
        Err(e) => {
            return Err(e);
        },
    };
    match read_num(reader, 4) {
        Ok(_) => {},
        Err(e) => {
            return Err(e);
        },
    }
    let layout_code = match read_num(reader, 4) {
        Ok(v) => v as u8,
        Err(e) => {
            return Err(e);
        },
    };
    match read_num(reader, 4) {
        Ok(_) => {},
        Err(e) => {
            return Err(e);
        },
    }
    let frame_seq = match reader.read_utf8_uint() {
        Ok(v) => v as u32,
        Err(e) => {
            return Err(e);
        },
    };
    let field_len: usize = if block_size_code == 7 {
        16
    } else if block_size_code == 6 {
        8
    } else {
        0
    };
    let v = match read_num(reader, field_len) {
        Ok(v) => v,
        Err(e) => {
            return Err(e);
        },
    };
    let block_size: u32 = if block_size_code == 7 || block_size_code == 6 {
        (v + 1) as u32
    } else if block_size_code == 1 {
        192
    } else {
        0
    };
    match read_num(reader, 8) {
        Ok(_) => {},
        Err(e) => {
            return Err(e);
        },
    }
    match ChannelLayout::from_code(layout_code) {
        Some(l) => Ok((frame_seq, block_size, l)),
        None => Err(LoomError::InvalidData),
    }
}

/// Reads the wasted bits of a FLAC subframe, as `parse_wasted_flac` says.
fn read_wasted_flac(reader: &mut BitReader) -> (r: Result<u8, LoomError>)
    requires
        old(reader).wf(),
    ensures
        final(reader).wf(),
        final(reader).data() == old(reader).data(),
        match parse_wasted_flac(old(reader).bits(), old(reader).pos() as int) {
            Ok((w, p)) => r == Ok::<u8, LoomError>(w) && final(reader).pos() == p,
            Err(e) => r == Err::<u8, LoomError>(e),
        },
{
    let has_wasted_bits = match read_flag(reader) {
        Ok(b) => b,
        Err(e) => {
            return Err(e);
        },
    };
    if has_wasted_bits {
        match reader.read_unary() {
            Ok(q) => {
                proof {
                    reader.lemma_wf();
                    vstd::arithmetic::div_mod::lemma_add_mod_noop(q as int, 1, 256);
                }
                let m = q % 256;
                let w: u8 = if m == 255 {
                    0
                } else {
                    (m + 1) as u8
                };
                Ok(w)
            },
            Err(e) => Err(e),
        }
    } else {
        Ok(0)
    }
}

/// Reads the fields of a FLAC LPC subframe, as `parse_lpc_flac` says.
fn read_lpc_flac(reader: &mut BitReader, order: usize, sbps: usize, bs: usize) -> (r: Result<
    PredictionMode,
    LoomError,
>)
    requires
        old(reader).wf(),
        1 <= sbps <= 64,
    ensures
        final(reader).wf(),
        final(reader).data() == old(reader).data(),
        match parse_lpc_flac(old(reader).bits(), old(reader).pos() as int, order as nat, sbps as nat, bs as nat) {
            Ok((m, p)) => r is Ok && r->Ok_0@ == m && final(reader).pos() == p,
            Err(e) => r == Err::<PredictionMode, LoomError>(e),
        },
{
    proof {
        lemma2_to64();
    }
    if order > bs {
        return Err(LoomError::InvalidData);
    }
    let mut residuals = zeros_vec(bs);
    match read_raw(reader, &mut residuals, 0, order, sbps) {
        Ok(()) => {},
        Err(e) => {
            return Err(e);
        },
    }
    let qlp_precision = match read_num(reader, 4) {
        Ok(v) => (v + 1) as usize,
        Err(e) => {
            return Err(e);
        },
    };
    let shift_u = match read_num(reader, 5) {
        Ok(v) => v,
        Err(e) => {
            return Err(e);
        },
    };
    let qlp_shift = if (shift_u & 0x10) != 0 {
        (shift_u | !0x1F) as i8
    } else {
        shift_u as i8
    };
    proof {
        assert(shift_u < 32 ==> (if (shift_u & 0x10u64) != 0 {
            (shift_u | !0x1Fu64) as i8
        } else {
            shift_u as i8
        }) == (if shift_u >= 16 {
            (shift_u - 32) as i8
        } else {
            shift_u as i8
        })) by (bit_vector);
    }
    let qlp_coeffs = match read_coeffs(reader, order, qlp_precision) {
        Ok(c) => c,
        Err(e) => {
            return Err(e);
        },
    };
    match decode_residuals(reader, residuals.as_mut_slice(), order) {
        Ok(()) => Ok(PredictionMode::Lpc { order, qlp_coeffs, qlp_shift, qlp_precision, residuals }),
        Err(e) => Err(e),
    }
}

/// Reads the prediction of a FLAC subframe with type `code`, as `parse_mode_flac` says.
fn read_mode_flac(reader: &mut BitReader, code: u64, sbps: usize, bs: usize) -> (r: Result<
    PredictionMode,
    LoomError,
>)
    requires
        old(reader).wf(),
        1 <= sbps <= 64,
        code < 64,
    ensures
        final(reader).wf(),
        final(reader).data() == old(reader).data(),
        match parse_mode_flac(old(reader).bits(), old(reader).pos() as int, code as nat, sbps as nat, bs as nat) {
            Ok((m, p)) => r is Ok && r->Ok_0@ == m && final(reader).pos() == p,
            Err(e) => r == Err::<PredictionMode, LoomError>(e),
        },
{
    if code == 0 {
        read_const(reader, sbps)
    } else if code == 1 {
        read_verbatim(reader, sbps, bs)
    } else if code >= 0x08 && code <= 0x0F {
        let order = (code & 0x07) as usize;
        proof {
            assert(8 <= code <= 15 ==> code & 0x07u64 == code - 8) by (bit_vector);
        }
        if order > bs {
            return Err(LoomError::InvalidData);
        }
        match read_residuals(reader, bs, order, sbps) {
            Ok(residuals) => Ok(PredictionMode::Fixed { order, residuals }),
            Err(e) => Err(e),
        }
    } else if code >= 0x20 {
        proof {
            assert(code & 0x1Fu64 <= 31) by (bit_vector);
        }
        let order = ((code & 0x1F) + 1) as usize;
        proof {
            assert(32 <= code < 64 ==> (code & 0x1Fu64) + 1 == code - 31) by (bit_vector);
        }
        read_lpc_flac(reader, order, sbps, bs)
    } else {
        Err(LoomError::InvalidData)
    }
}

/// Reads channel `ch` of a FLAC frame, as `parse_sub_flac` says.
fn read_subframe_flac(reader: &mut BitReader, l: ChannelLayout, ch: usize, bps: usize, bs: usize) -> (r:
    Result<Subframe, LoomError>)
    requires
        old(reader).wf(),
        bps <= 63,
    ensures
        final(reader).wf(),
        final(reader).data() == old(reader).data(),
        match parse_sub_flac(old(reader).bits(), old(reader).pos() as int, l, ch as nat, bps as nat, bs as nat) {
            Ok((sf, p)) => r is Ok && r->Ok_0@ == sf && final(reader).pos() == p,
            Err(e) => r == Err::<Subframe, LoomError>(e),
        },
{
    proof {
        lemma2_to64();
    }
    match read_flag(reader) {
        Ok(_) => {},
        Err(e) => {
            return Err(e);
        },
    }
    let mode_code = match read_num(reader, 6) {
        Ok(v) => v,
        Err(e) => {
            return Err(e);
        },
    };
    let wasted_bits = match read_wasted_flac(reader) {
        Ok(w) => w,
        Err(e) => {
            return Err(e);
        },
    };
    let sbps = subframe_bps(l, ch, bps, wasted_bits);
    match read_mode_flac(reader, mode_code, sbps, bs) {
        Ok(mode) => Ok(Subframe { mode, ref_track: None, ref_weight: 0, wasted_bits }),
        Err(e) => Err(e),
    }
}

/// Reads every channel of a FLAC frame, as `parse_subs_flac` says.
fn read_subframes_flac(reader: &mut BitReader, channel_layout: ChannelLayout, bps: usize, bs: usize) -> (r:
    Result<Vec<Subframe>, LoomError>)
    requires
        old(reader).wf(),
        bps <= 63,
    ensures
        final(reader).wf(),
        final(reader).data() == old(reader).data(),
        match parse_subs_flac(
            old(reader).bits(),
            old(reader).pos() as int,
            channel_layout,
            bps as nat,
            bs as nat,
            0,
            layout_channels(channel_layout),
            seq![],
        ) {
            Ok((subs, p)) => r is Ok && r->Ok_0@.map_values(|s: Subframe| s@) == subs && final(reader).pos() == p,
            Err(e) => r == Err::<Vec<Subframe>, LoomError>(e),
        },
{
    let channels = channel_layout.channels() as usize;
    let mut subframes: Vec<Subframe> = Vec::with_capacity(channels);
    let mut ch: usize = 0;
    let ghost bits = reader.bits();
    let ghost p0 = reader.pos() as int;
    proof {
        assert(subframes@.map_values(|s: Subframe| s@) =~= seq![]);
    }
    while ch < channels
        invariant
            reader.wf(),
            reader.data() == old(reader).data(),
            bits == reader.bits(),
            bits == old(reader).bits(),
            p0 == old(reader).pos(),
            bps <= 63,
            ch <= channels,
            channels == layout_channels(channel_layout),
            parse_subs_flac(bits, p0, channel_layout, bps as nat, bs as nat, 0, channels as nat, seq![])
                == parse_subs_flac(
                bits,
                reader.pos() as int,
                channel_layout,
                bps as nat,
                bs as nat,
                ch as nat,
                channels as nat,
                subframes@.map_values(|s: Subframe| s@),
            ),
        decreases channels - ch,
    {
        let sf = match read_subframe_flac(reader, channel_layout, ch, bps, bs) {
            Ok(sf) => sf,
            Err(e) => {
                return Err(e);
            },
        };
        let ghost before = subframes@.map_values(|s: Subframe| s@);
        subframes.push(sf);
        proof {
            assert(subframes@.map_values(|s: Subframe| s@) =~= before.push(sf@));
        }
        ch = ch + 1;
    }
    Ok(subframes)
}

impl Frame {
    /// Reads a FLAC frame as `parse_frame_flac` says, with its side channels at `bps + 1`
    /// bits; neither CRC is checked.
    pub fn deserialize_flac(reader: &mut BitReader, bps: usize, _decoded_pcm: &mut [Vec<i64>]) -> (r:
        Result<Frame, LoomError>)
        requires
            old(reader).wf(),
            bps <= 63,
        ensures
            final(reader).wf(),
            final(reader).data() == old(reader).data(),
            final(_decoded_pcm)@ == old(_decoded_pcm)@,
            match parse_frame_flac(old(reader).bits(), old(reader).pos() as int, bps as nat) {
                Ok((f, p)) => r is Ok && r->Ok_0@ == f && final(reader).pos() == p,
                Err(e) => r == Err::<Frame, LoomError>(e),
            },
    {
        let (frame_seq, block_size, channel_layout) = match read_header_flac(reader) {
            Ok(h) => h,
            Err(e) => {
                return Err(e);
            },
        };
        let subframes = match read_subframes_flac(reader, channel_layout, bps, block_size as usize) {
            Ok(v) => v,
            Err(e) => {
                return Err(e);
            },
        };
        reader.align_to_byte();
        match read_num(reader, 16) {
            Ok(_) => {},
            Err(e) => {
                return Err(e);
            },
        }
        Ok(Frame { frame_seq, block_size, channel_layout, subframes })
    }

    /// The first index from `start_offset` on where the Loom sync bytes 0xF8 0xA5 start, if
    /// any.
    pub fn scan_for_sync(data: &[u8], start_offset: usize) -> (r: Option<usize>)
        ensures
            match r {
                Some(i) => start_offset <= i && i + 1 < data@.len() && data@[i as int] == 0xF8
                    && data@[i + 1] == 0xA5 && forall|j: int|
                    start_offset <= j < i ==> !(#[trigger] data@[j] == 0xF8 && data@[j + 1] == 0xA5),
                None => forall|j: int|
                    start_offset <= j && j + 1 < data@.len() ==> !(#[trigger] data@[j] == 0xF8
                        && data@[j + 1] == 0xA5),
            },
    {
        let n = data.len();
        if start_offset >= n || n - start_offset < 2 {
            return None;
        }
        let mut i = start_offset;
        while i <= n - 2
            invariant
                start_offset <= i <= n - 1,
                n == data@.len(),
                n >= 2,
                forall|j: int| start_offset <= j < i ==> !(#[trigger] data@[j] == 0xF8 && data@[j + 1] == 0xA5),
            decreases n - i,
        {
            if data[i] == 0xF8 && data[i + 1] == 0xA5 {
                return Some(i);
            }
            i = i + 1;
        }
        None
    }
}

} // verus!
