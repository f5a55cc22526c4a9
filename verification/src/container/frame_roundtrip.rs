//! What reading a written frame gives back.
use crate::bitstream::{
    byte_at, bits_of, bytes_to_bits, lemma_bits_of_len, lemma_bits_val_of, lemma_bytes_to_bits_index,
    lemma_bytes_to_bits_len, lemma_window_split, utf8_byte_spec, utf8_cont, utf8_encode,
    utf8_extra_spec, utf8_len, utf8_payload_spec, utf8_read, utf8_read_len, unary_bits,
    lemma_zero_run_unary, lemma_unary_len, lemma_bytes_to_bits_append, pad_len, zeros,
};
use crate::container::frame::{
    align8, flac_frame_bits, flac_header_bits, flac_mode_bits, flac_mode_code, flac_sub_bits,
    flac_subs_bits, parse_frame_flac, parse_header_flac, parse_lpc_flac, parse_mode_flac,
    parse_sub_flac, parse_subs_flac, parse_wasted_flac, shift5, FlacHeader, coeff_codes, crc_tail_ok,
    framed, dec_coeffs, layout_channels, layout_code, lemma_layout_code_roundtrip,
    loom_frame_bits, loom_frame_ok, loom_mode_bits, loom_sub_bits, loom_subs_bits, parse_const,
    parse_fixed_loom, parse_frame_loom, parse_lpc_loom, parse_mode_loom, parse_ref,
    parse_residuals, parse_sub_loom, parse_subs_loom, parse_verbatim, parse_wasted_loom, rbit, rd,
    sub_bps, zero_block, FrameSpec, SubframeSpec,
};
use crate::entropy::rice::{
    lemma_dec_raw, lemma_raw_value, lemma_rice_roundtrip, min_bits_spec, raw_codes, rice_lossless,
    rice_skip, rice_stream, sign_extend, splice, rice_decode,
};
use crate::error::LoomError;
use crate::predict::ModeSpec;
use vstd::arithmetic::power2::{lemma2_to64, lemma2_to64_rest, pow2};
use vstd::prelude::*;

verus! {

/// `x` stands in `bits` at `pos`.
pub open spec fn written_at(bits: Seq<bool>, pos: int, x: Seq<bool>) -> bool {
    &&& 0 <= pos
    &&& pos + x.len() <= bits.len()
    &&& bits.subrange(pos, pos + x.len()) == x
}

/// Every value of `s` fits `b` bits in two's complement.
pub open spec fn all_fit(s: Seq<i64>, b: nat) -> bool {
    forall|j: int| 0 <= j < s.len() ==> min_bits_spec(#[trigger] s[j] as int) <= b
}

/// A prediction that reads back from `sbps`-bit samples in blocks of `bs`: every raw
/// value fits `sbps` bits, a verbatim or predicted block has `bs` samples, the order fits
/// its field, LPC coefficients fit their precision (1 to 63 bits), and every raw Rice
/// partition fits its width.
pub open spec fn mode_readable(m: ModeSpec, sbps: nat, bs: nat, ae: bool) -> bool {
    &&& 1 <= sbps <= 63
    &&& match m {
        ModeSpec::Constant(v) => min_bits_spec(v as int) <= sbps,
        ModeSpec::Verbatim(s) => s.len() == bs && all_fit(s, sbps),
        ModeSpec::Fixed(o, r) => o < 8 && o <= bs && r.len() == bs && all_fit(r.take(o as int), sbps)
            && rice_lossless(r, o, 2, ae),
        ModeSpec::Lpc(o, c, sh, p, r) => o < 64 && 1 <= p <= 63 && c.len() == o && (forall|j: int|
            0 <= j < c.len() ==> min_bits_spec(#[trigger] c[j] as int) <= p) && o <= bs && r.len()
            == bs && all_fit(r.take(o as int), sbps) && rice_lossless(r, o, 2, ae),
    }
}

/// An `i8` kept as its byte is the same `i8` again, and one between -16 and 15 kept in
/// five bits reads back as itself.
pub proof fn lemma_i8_byte(x: i8)
    by (bit_vector)
    ensures
        (x as u8) as i8 == x,
        0 <= x <= 15 ==> (x as u64) % 32u64 == x as u64,
        -16 <= x < 0 ==> (x as u64) % 32u64 == (x + 32) as u64,
{
}

/// Reading `n` bits that were written as `bits_of(v, n)` gives `v` modulo `2^n`.
pub proof fn lemma_rd_bits_of(bits: Seq<bool>, pos: int, v: nat, n: nat)
    requires
        written_at(bits, pos, bits_of(v, n)),
    ensures
        bits_of(v, n).len() == n,
        rd(bits, pos, n) == Ok::<(nat, int), LoomError>((v % pow2(n), pos + n)),
{
    lemma_bits_of_len(v, n);
    lemma_bits_val_of(v, n);
}

/// Splitting what stands at `pos` into its two parts.
pub proof fn lemma_written_split(bits: Seq<bool>, pos: int, x: Seq<bool>, y: Seq<bool>)
    requires
        written_at(bits, pos, x + y),
    ensures
        written_at(bits, pos, x),
        written_at(bits, pos + x.len(), y),
{
    lemma_window_split(bits, pos, x, y);
}

/// Reading one more coefficient after `n` of them.
proof fn lemma_dec_coeffs_last(bits: Seq<bool>, pos: int, acc: Seq<i32>, n: nat, prec: nat)
    ensures
        dec_coeffs(bits, pos, acc, n + 1, prec) == match dec_coeffs(bits, pos, acc, n, prec) {
            Err(e) => Err(e),
            Ok((a, p)) => dec_coeffs(bits, p, a, 1, prec),
        },
    decreases n,
{
    reveal_with_fuel(dec_coeffs, 2);
    if n > 0 {
        match rd(bits, pos, prec) {
            Err(e) => {},
            Ok((u, p)) => {
                lemma_dec_coeffs_last(
                    bits,
                    p,
                    acc.push(sign_extend(u as u64, prec as u64) as i32),
                    (n - 1) as nat,
                    prec,
                );
            },
        }
    }
}

/// LPC coefficients read back as they were written.
pub proof fn lemma_coeffs_roundtrip(bits: Seq<bool>, pos: int, c: Seq<i32>, p: nat)
    requires
        1 <= p <= 63,
        forall|j: int| 0 <= j < c.len() ==> min_bits_spec(#[trigger] c[j] as int) <= p,
        written_at(bits, pos, coeff_codes(c, p)),
    ensures
        coeff_codes(c, p).len() == p * c.len(),
        dec_coeffs(bits, pos, seq![], c.len(), p) == Ok::<(Seq<i32>, int), LoomError>(
            (c, pos + coeff_codes(c, p).len()),
        ),
    decreases c.len(),
{
    if c.len() == 0 {
        assert(c =~= seq![]);
    } else {
        let dl = c.drop_last();
        let x = c.last();
        let head = coeff_codes(dl, p);
        let tail = bits_of(x as u64 as nat, p);
        lemma_written_split(bits, pos, head, tail);
        assert forall|j: int| 0 <= j < dl.len() implies min_bits_spec(#[trigger] dl[j] as int) <= p by {
            assert(dl[j] == c[j]);
        }
        lemma_coeffs_roundtrip(bits, pos, dl, p);
        lemma_dec_coeffs_last(bits, pos, seq![], dl.len(), p);
        lemma_rd_bits_of(bits, pos + head.len(), x as u64 as nat, p);
        assert(min_bits_spec(c[c.len() - 1] as int) <= p);
        let w = x as i64;
        assert((x as i64) as u64 == x as u64);
        lemma_raw_value(w, p as u64);
        assert(sign_extend(((x as u64) as nat % pow2(p)) as u64, p as u64) as i32 == x);
        reveal_with_fuel(dec_coeffs, 2);
        assert(dl.push(x) =~= c);
        assert(p * dl.len() + p == p * c.len()) by (nonlinear_arith)
            requires
                dl.len() + 1 == c.len(),
        ;
    }
}

/// A block's warm-up samples and Rice residuals read back as the residuals.
pub proof fn lemma_residuals_roundtrip(
    bits: Seq<bool>,
    pos: int,
    r: Seq<i64>,
    o: nat,
    sbps: nat,
    ae: bool,
)
    requires
        1 <= sbps <= 63,
        o <= r.len(),
        all_fit(r.take(o as int), sbps),
        rice_lossless(r, o, 2, ae),
        written_at(bits, pos, raw_codes(r.take(o as int), sbps) + rice_stream(r, o, 2, ae)),
    ensures
        parse_residuals(bits, pos, r.len(), o, sbps) == Ok::<(Seq<i64>, int), LoomError>(
            (r, pos + (raw_codes(r.take(o as int), sbps) + rice_stream(r, o, 2, ae)).len()),
        ),
{
    let bs = r.len();
    let x = raw_codes(r.take(o as int), sbps);
    let y = rice_stream(r, o, 2, ae);
    lemma_written_split(bits, pos, x, y);
    assert(r.subrange(0, o as int) =~= r.take(o as int));
    assert forall|j: int| 0 <= j < o implies min_bits_spec(#[trigger] r[j] as int) <= sbps by {
        assert(r.take(o as int)[j] == r[j]);
    }
    lemma_dec_raw(bits, pos, zero_block(bs), r, 0, o as int, sbps);
    let out1 = splice(zero_block(bs), r, 0, o as int);
    lemma_rice_roundtrip(bits, pos + x.len(), out1, r, o, 2, ae);
    let sk = rice_skip(bs, o, 2) as int;
    assert(sk <= o);
    assert(splice(out1, r, sk, bs as int) =~= r);
}


/// A raw run of `bs` samples reads back as itself.
proof fn lemma_verbatim_roundtrip(bits: Seq<bool>, pos: int, s: Seq<i64>, sbps: nat)
    requires
        1 <= sbps <= 63,
        all_fit(s, sbps),
        written_at(bits, pos, raw_codes(s, sbps)),
    ensures
        parse_verbatim(bits, pos, sbps, s.len()) == Ok::<(ModeSpec, int), LoomError>(
            (ModeSpec::Verbatim(s), pos + raw_codes(s, sbps).len()),
        ),
{
    assert(s.subrange(0, s.len() as int) =~= s);
    lemma_dec_raw(bits, pos, zero_block(s.len()), s, 0, s.len() as int, sbps);
    assert(splice(zero_block(s.len()), s, 0, s.len() as int) =~= s);
}

/// A constant block's value reads back as itself.
proof fn lemma_const_roundtrip(bits: Seq<bool>, pos: int, v: i64, sbps: nat)
    requires
        1 <= sbps <= 63,
        min_bits_spec(v as int) <= sbps,
        written_at(bits, pos, bits_of(v as u64 as nat, sbps)),
    ensures
        parse_const(bits, pos, sbps) == Ok::<(ModeSpec, int), LoomError>(
            (ModeSpec::Constant(v), pos + sbps),
        ),
{
    lemma_rd_bits_of(bits, pos, v as u64 as nat, sbps);
    lemma_raw_value(v, sbps as u64);
}

/// A fixed-predictor subframe's fields read back as they were written.
proof fn lemma_fixed_loom_roundtrip(bits: Seq<bool>, pos: int, o: nat, r: Seq<i64>, sbps: nat, ae: bool)
    requires
        mode_readable(ModeSpec::Fixed(o, r), sbps, r.len(), ae),
        written_at(
            bits,
            pos,
            bits_of(o, 3) + (raw_codes(r.take(o as int), sbps) + rice_stream(r, o, 2, ae)),
        ),
    ensures
        parse_fixed_loom(bits, pos, sbps, r.len()) == Ok::<(ModeSpec, int), LoomError>(
            (
                ModeSpec::Fixed(o, r),
                pos + 3 + (raw_codes(r.take(o as int), sbps) + rice_stream(r, o, 2, ae)).len(),
            ),
        ),
{
    lemma2_to64();
    let b = bits_of(o, 3);
    let rr = raw_codes(r.take(o as int), sbps) + rice_stream(r, o, 2, ae);
    lemma_bits_of_len(o, 3);
    lemma_written_split(bits, pos, b, rr);
    lemma_rd_bits_of(bits, pos, o, 3);
    vstd::arithmetic::div_mod::lemma_small_mod(o, 8);
    lemma_residuals_roundtrip(bits, pos + 3, r, o, sbps, ae);
}

/// The fields of a Loom LPC subframe after its mode.
pub open spec fn lpc_fields_loom(o: nat, c: Seq<i32>, sh: i8, p: nat, r: Seq<i64>, sbps: nat, ae: bool) -> Seq<bool> {
    bits_of(o, 6) + (bits_of(p, 8) + (bits_of(sh as u8 as nat, 8) + (coeff_codes(c, p) + (raw_codes(
        r.take(o as int),
        sbps,
    ) + rice_stream(r, o, 2, ae)))))
}

/// A Loom LPC prediction is its mode code and then its fields.
proof fn lemma_lpc_loom_shape(o: nat, c: Seq<i32>, sh: i8, p: nat, r: Seq<i64>, sbps: nat, ae: bool)
    ensures
        loom_mode_bits(ModeSpec::Lpc(o, c, sh, p, r), sbps, ae) == bits_of(3, 3) + lpc_fields_loom(
            o,
            c,
            sh,
            p,
            r,
            sbps,
            ae,
        ),
{
    assert(loom_mode_bits(ModeSpec::Lpc(o, c, sh, p, r), sbps, ae) =~= bits_of(3, 3) + lpc_fields_loom(
        o,
        c,
        sh,
        p,
        r,
        sbps,
        ae,
    ));
}

/// An LPC subframe's fields read back as they were written.
#[verifier::rlimit(40)]
proof fn lemma_lpc_loom_roundtrip(
    bits: Seq<bool>,
    pos: int,
    o: nat,
    c: Seq<i32>,
    sh: i8,
    p: nat,
    r: Seq<i64>,
    sbps: nat,
    ae: bool,
)
    requires
        mode_readable(ModeSpec::Lpc(o, c, sh, p, r), sbps, r.len(), ae),
        written_at(bits, pos, lpc_fields_loom(o, c, sh, p, r, sbps, ae)),
    ensures
        parse_lpc_loom(bits, pos, sbps, r.len()) == Ok::<(ModeSpec, int), LoomError>(
            (ModeSpec::Lpc(o, c, sh, p, r), pos + lpc_fields_loom(o, c, sh, p, r, sbps, ae).len()),
        ),
{
    lemma2_to64();
    let b = bits_of(o, 6);
    let b2 = bits_of(p, 8);
    let b3 = bits_of(sh as u8 as nat, 8);
    let cc = coeff_codes(c, p);
    let rr = raw_codes(r.take(o as int), sbps) + rice_stream(r, o, 2, ae);
    lemma_bits_of_len(o, 6);
    lemma_bits_of_len(p, 8);
    lemma_bits_of_len(sh as u8 as nat, 8);
    lemma_written_split(bits, pos, b, b2 + (b3 + (cc + rr)));
    lemma_written_split(bits, pos + 6, b2, b3 + (cc + rr));
    lemma_written_split(bits, pos + 14, b3, cc + rr);
    lemma_written_split(bits, pos + 22, cc, rr);
    lemma_rd_bits_of(bits, pos, o, 6);
    lemma_rd_bits_of(bits, pos + 6, p, 8);
    lemma_rd_bits_of(bits, pos + 14, sh as u8 as nat, 8);
    vstd::arithmetic::div_mod::lemma_small_mod(o, 64);
    vstd::arithmetic::div_mod::lemma_small_mod(p, 256);
    vstd::arithmetic::div_mod::lemma_small_mod(sh as u8 as nat, 256);
    lemma_i8_byte(sh);
    lemma_coeffs_roundtrip(bits, pos + 22, c, p);
    lemma_residuals_roundtrip(bits, pos + 22 + cc.len(), r, o, sbps, ae);
}

/// A constant or verbatim Loom prediction reads back as it was written.
proof fn lemma_mode_loom_plain(bits: Seq<bool>, pos: int, m: ModeSpec, sbps: nat, bs: nat, ae: bool)
    requires
        m is Constant || m is Verbatim,
        mode_readable(m, sbps, bs, ae),
        written_at(bits, pos, loom_mode_bits(m, sbps, ae)),
    ensures
        parse_mode_loom(bits, pos, sbps, bs) == Ok::<(ModeSpec, int), LoomError>(
            (m, pos + loom_mode_bits(m, sbps, ae).len()),
        ),
{
    lemma2_to64();
    match m {
        ModeSpec::Constant(v) => {
            let a = bits_of(0, 3);
            let b = bits_of(v as u64 as nat, sbps);
            lemma_bits_of_len(0, 3);
            lemma_bits_of_len(v as u64 as nat, sbps);
            lemma_written_split(bits, pos, a, b);
            lemma_rd_bits_of(bits, pos, 0, 3);
            lemma_const_roundtrip(bits, pos + 3, v, sbps);
        },
        ModeSpec::Verbatim(s) => {
            let a = bits_of(1, 3);
            let b = raw_codes(s, sbps);
            lemma_bits_of_len(1, 3);
            lemma_written_split(bits, pos, a, b);
            lemma_rd_bits_of(bits, pos, 1, 3);
            lemma_verbatim_roundtrip(bits, pos + 3, s, sbps);
        },
        _ => {},
    }
}

/// A fixed-predictor Loom prediction reads back as it was written.
proof fn lemma_mode_loom_fixed(bits: Seq<bool>, pos: int, o: nat, r: Seq<i64>, sbps: nat, bs: nat, ae: bool)
    requires
        mode_readable(ModeSpec::Fixed(o, r), sbps, bs, ae),
        written_at(bits, pos, loom_mode_bits(ModeSpec::Fixed(o, r), sbps, ae)),
    ensures
        parse_mode_loom(bits, pos, sbps, bs) == Ok::<(ModeSpec, int), LoomError>(
            (ModeSpec::Fixed(o, r), pos + loom_mode_bits(ModeSpec::Fixed(o, r), sbps, ae).len()),
        ),
{
    lemma2_to64();
    let a = bits_of(2, 3);
    let rest = bits_of(o, 3) + (raw_codes(r.take(o as int), sbps) + rice_stream(r, o, 2, ae));
    assert(loom_mode_bits(ModeSpec::Fixed(o, r), sbps, ae) =~= a + rest);
    lemma_bits_of_len(2, 3);
    lemma_bits_of_len(o, 3);
    lemma_written_split(bits, pos, a, rest);
    lemma_rd_bits_of(bits, pos, 2, 3);
    lemma_fixed_loom_roundtrip(bits, pos + 3, o, r, sbps, ae);
}

/// An LPC Loom prediction reads back as it was written.
#[verifier::rlimit(60)]
#[verifier::spinoff_prover]
proof fn lemma_mode_loom_lpc(
    bits: Seq<bool>,
    pos: int,
    o: nat,
    c: Seq<i32>,
    sh: i8,
    p: nat,
    r: Seq<i64>,
    sbps: nat,
    bs: nat,
    ae: bool,
)
    requires
        mode_readable(ModeSpec::Lpc(o, c, sh, p, r), sbps, bs, ae),
        written_at(bits, pos, loom_mode_bits(ModeSpec::Lpc(o, c, sh, p, r), sbps, ae)),
    ensures
        parse_mode_loom(bits, pos, sbps, bs) == Ok::<(ModeSpec, int), LoomError>(
            (
                ModeSpec::Lpc(o, c, sh, p, r),
                pos + loom_mode_bits(ModeSpec::Lpc(o, c, sh, p, r), sbps, ae).len(),
            ),
        ),
{
    lemma2_to64();
    let a = bits_of(3, 3);
    let rest = lpc_fields_loom(o, c, sh, p, r, sbps, ae);
    lemma_lpc_loom_shape(o, c, sh, p, r, sbps, ae);
    lemma_bits_of_len(3, 3);
    lemma_written_split(bits, pos, a, rest);
    lemma_rd_bits_of(bits, pos, 3, 3);
    lemma_lpc_loom_roundtrip(bits, pos + 3, o, c, sh, p, r, sbps, ae);
}

/// A Loom prediction reads back as it was written.
pub proof fn lemma_mode_loom_roundtrip(bits: Seq<bool>, pos: int, m: ModeSpec, sbps: nat, bs: nat, ae: bool)
    requires
        mode_readable(m, sbps, bs, ae),
        written_at(bits, pos, loom_mode_bits(m, sbps, ae)),
    ensures
        parse_mode_loom(bits, pos, sbps, bs) == Ok::<(ModeSpec, int), LoomError>(
            (m, pos + loom_mode_bits(m, sbps, ae).len()),
        ),
{
    match m {
        ModeSpec::Constant(_) => lemma_mode_loom_plain(bits, pos, m, sbps, bs, ae),
        ModeSpec::Verbatim(_) => lemma_mode_loom_plain(bits, pos, m, sbps, bs, ae),
        ModeSpec::Fixed(o, r) => lemma_mode_loom_fixed(bits, pos, o, r, sbps, bs, ae),
        ModeSpec::Lpc(o, c, sh, p, r) => lemma_mode_loom_lpc(bits, pos, o, c, sh, p, r, sbps, bs, ae),
    }
}

/// A subframe that reads back as channel `ch` of layout `l`: wasted bits below 32, no
/// weight without a reference track, and a readable prediction.
pub open spec fn sub_readable(sf: SubframeSpec, l: crate::container::frame::ChannelLayout, ch: nat, bps: nat, bs: nat, ae: bool) -> bool {
    &&& sf.wasted_bits < 32
    &&& sf.ref_track is None ==> sf.ref_weight == 0
    &&& mode_readable(sf.mode, sub_bps(l, ch, bps, sf.wasted_bits), bs, ae)
}

/// A Loom frame that reads back: a block size that fits 16 bits, one subframe per channel
/// of its layout, each readable.
pub open spec fn loom_frame_readable(f: FrameSpec, bps: nat, ae: bool) -> bool {
    &&& f.block_size <= 0xFFFF
    &&& f.subframes.len() == layout_channels(f.channel_layout)
    &&& forall|ch: int|
        0 <= ch < f.subframes.len() ==> sub_readable(
            #[trigger] f.subframes[ch],
            f.channel_layout,
            ch as nat,
            bps,
            f.block_size as nat,
            ae,
        )
}

/// The cross-track reference of a subframe reads back as written.
proof fn lemma_ref_roundtrip(bits: Seq<bool>, pos: int, sf: SubframeSpec) -> (n: nat)
    requires
        sf.ref_track is None ==> sf.ref_weight == 0,
        written_at(
            bits,
            pos,
            match sf.ref_track {
                Some(t) => seq![true] + bits_of(t as nat, 16) + bits_of(sf.ref_weight as u8 as nat, 8),
                None => seq![false],
            },
        ),
    ensures
        n == (match sf.ref_track {
            Some(t) => seq![true] + bits_of(t as nat, 16) + bits_of(sf.ref_weight as u8 as nat, 8),
            None => seq![false],
        }).len(),
        parse_ref(bits, pos) == Ok::<(Option<u16>, i8, int), LoomError>(
            (sf.ref_track, sf.ref_weight, pos + n),
        ),
{
    lemma2_to64();
    match sf.ref_track {
        Some(t) => {
            let a = seq![true];
            let b = bits_of(t as nat, 16);
            let c = bits_of(sf.ref_weight as u8 as nat, 8);
            lemma_bits_of_len(t as nat, 16);
            lemma_bits_of_len(sf.ref_weight as u8 as nat, 8);
            assert(a + b + c =~= a + (b + c));
            lemma_written_split(bits, pos, a, b + c);
            lemma_written_split(bits, pos + 1, b, c);
            assert(bits[pos] == a[0]);
            lemma_rd_bits_of(bits, pos + 1, t as nat, 16);
            lemma_rd_bits_of(bits, pos + 17, sf.ref_weight as u8 as nat, 8);
            vstd::arithmetic::div_mod::lemma_small_mod(t as nat, pow2(16));
            vstd::arithmetic::div_mod::lemma_small_mod(sf.ref_weight as u8 as nat, pow2(8));
            lemma_i8_byte(sf.ref_weight);
            25
        },
        None => {
            assert(bits[pos] == seq![false][0]);
            1
        },
    }
}

/// The wasted bits of a subframe read back as written.
proof fn lemma_wasted_roundtrip(bits: Seq<bool>, pos: int, w: u8)
    requires
        w < 32,
        written_at(
            bits,
            pos,
            if w > 0 {
                seq![true] + bits_of(w as nat, 5)
            } else {
                seq![false]
            },
        ),
    ensures
        parse_wasted_loom(bits, pos) == Ok::<(u8, int), LoomError>(
            (
                w,
                pos + (if w > 0 {
                    seq![true] + bits_of(w as nat, 5)
                } else {
                    seq![false]
                }).len(),
            ),
        ),
{
    lemma2_to64();
    if w > 0 {
        let a = seq![true];
        let b = bits_of(w as nat, 5);
        lemma_bits_of_len(w as nat, 5);
        lemma_written_split(bits, pos, a, b);
        assert(bits[pos] == a[0]);
        lemma_rd_bits_of(bits, pos + 1, w as nat, 5);
        vstd::arithmetic::div_mod::lemma_small_mod(w as nat, pow2(5));
    } else {
        assert(bits[pos] == seq![false][0]);
    }
}

/// One channel of a Loom frame reads back as it was written.
#[verifier::rlimit(60)]
#[verifier::spinoff_prover]
pub proof fn lemma_sub_loom_roundtrip(
    bits: Seq<bool>,
    pos: int,
    sf: SubframeSpec,
    l: crate::container::frame::ChannelLayout,
    ch: nat,
    bps: nat,
    bs: nat,
    ae: bool,
)
    requires
        sub_readable(sf, l, ch, bps, bs, ae),
        written_at(bits, pos, loom_sub_bits(sf, l, ch, bps, ae)),
    ensures
        parse_sub_loom(bits, pos, l, ch, bps, bs) == Ok::<(SubframeSpec, int), LoomError>(
            (sf, pos + loom_sub_bits(sf, l, ch, bps, ae).len()),
        ),
{
    let a = match sf.ref_track {
        Some(t) => seq![true] + bits_of(t as nat, 16) + bits_of(sf.ref_weight as u8 as nat, 8),
        None => seq![false],
    };
    let b = if sf.wasted_bits > 0 {
        seq![true] + bits_of(sf.wasted_bits as nat, 5)
    } else {
        seq![false]
    };
    let sbps = sub_bps(l, ch, bps, sf.wasted_bits);
    let c = loom_mode_bits(sf.mode, sbps, ae);
    assert(loom_sub_bits(sf, l, ch, bps, ae) =~= a + (b + c));
    lemma_written_split(bits, pos, a, b + c);
    lemma_written_split(bits, pos + a.len(), b, c);
    let n = lemma_ref_roundtrip(bits, pos, sf);
    lemma_wasted_roundtrip(bits, pos + a.len(), sf.wasted_bits);
    lemma_mode_loom_roundtrip(bits, pos + a.len() + b.len(), sf.mode, sbps, bs, ae);
}

/// Reading one more channel after the first `n`.
proof fn lemma_parse_subs_last(
    bits: Seq<bool>,
    pos: int,
    l: crate::container::frame::ChannelLayout,
    bps: nat,
    bs: nat,
    ch: nat,
    n: nat,
    acc: Seq<SubframeSpec>,
)
    requires
        ch <= n,
    ensures
        parse_subs_loom(bits, pos, l, bps, bs, ch, n + 1, acc) == match parse_subs_loom(
            bits,
            pos,
            l,
            bps,
            bs,
            ch,
            n,
            acc,
        ) {
            Err(e) => Err(e),
            Ok((a, p)) => match parse_sub_loom(bits, p, l, n, bps, bs) {
                Err(e) => Err(e),
                Ok((sf, q)) => Ok((a.push(sf), q)),
            },
        },
    decreases n - ch,
{
    reveal_with_fuel(parse_subs_loom, 2);
    if ch < n {
        match parse_sub_loom(bits, pos, l, ch, bps, bs) {
            Err(e) => {},
            Ok((sf, p)) => {
                lemma_parse_subs_last(bits, p, l, bps, bs, ch + 1, n, acc.push(sf));
            },
        }
    }
}

/// The first `m` channels of a Loom frame read back as they were written.
#[verifier::rlimit(60)]
#[verifier::spinoff_prover]
proof fn lemma_subs_loom_roundtrip(bits: Seq<bool>, pos: int, f: FrameSpec, bps: nat, ae: bool, m: nat)
    requires
        m <= f.subframes.len(),
        loom_frame_readable(f, bps, ae),
        written_at(bits, pos, loom_subs_bits(f, bps, ae, m)),
    ensures
        parse_subs_loom(bits, pos, f.channel_layout, bps, f.block_size as nat, 0, m, seq![]) == Ok::<
            (Seq<SubframeSpec>, int),
            LoomError,
        >((f.subframes.take(m as int), pos + loom_subs_bits(f, bps, ae, m).len())),
    decreases m,
{
    if m == 0 {
        assert(f.subframes.take(0) =~= seq![]);
    } else {
        let k = (m - 1) as nat;
        let head = loom_subs_bits(f, bps, ae, k);
        let sf = f.subframes[k as int];
        let tail = loom_sub_bits(sf, f.channel_layout, k, bps, ae);
        lemma_written_split(bits, pos, head, tail);
        lemma_subs_loom_roundtrip(bits, pos, f, bps, ae, k);
        lemma_parse_subs_last(bits, pos, f.channel_layout, bps, f.block_size as nat, 0, k, seq![]);
        assert(sub_readable(sf, f.channel_layout, k, bps, f.block_size as nat, ae));
        lemma_sub_loom_roundtrip(bits, pos + head.len(), sf, f.channel_layout, k, bps, f.block_size as nat, ae);
        assert(f.subframes.take(k as int).push(sf) =~= f.subframes.take(m as int));
    }
}

/// Reading a written Loom frame gives back the frame, its track, and the position after
/// it moved to a byte boundary, whatever bits follow it.
#[verifier::rlimit(60)]
#[verifier::spinoff_prover]
pub proof fn lemma_loom_frame_roundtrip(bits: Seq<bool>, pos: int, f: FrameSpec, track: u16, bps: nat, ae: bool)
    requires
        loom_frame_readable(f, bps, ae),
        written_at(bits, pos, loom_frame_bits(f, track, bps, ae)),
    ensures
        parse_frame_loom(bits, pos, bps) == Ok::<(FrameSpec, u16, int), LoomError>(
            (f, track, crate::container::frame::align8(pos + loom_frame_bits(f, track, bps, ae).len())),
        ),
{
    lemma2_to64();
    lemma2_to64_rest();
    let l = f.channel_layout;
    let a = bits_of(0xF8A5, 16);
    let b = bits_of(track as nat, 16);
    let c = bits_of(f.frame_seq as nat, 32);
    let d = bits_of(f.block_size as nat, 16);
    let e = bits_of(layout_code(l) as nat, 4);
    let g = loom_subs_bits(f, bps, ae, f.subframes.len());
    assert(loom_frame_bits(f, track, bps, ae) =~= a + (b + (c + (d + (e + g)))));
    lemma_bits_of_len(0xF8A5, 16);
    lemma_bits_of_len(track as nat, 16);
    lemma_bits_of_len(f.frame_seq as nat, 32);
    lemma_bits_of_len(f.block_size as nat, 16);
    lemma_bits_of_len(layout_code(l) as nat, 4);
    lemma_written_split(bits, pos, a, b + (c + (d + (e + g))));
    lemma_written_split(bits, pos + 16, b, c + (d + (e + g)));
    lemma_written_split(bits, pos + 32, c, d + (e + g));
    lemma_written_split(bits, pos + 64, d, e + g);
    lemma_written_split(bits, pos + 80, e, g);
    lemma_rd_bits_of(bits, pos, 0xF8A5, 16);
    lemma_rd_bits_of(bits, pos + 16, track as nat, 16);
    lemma_rd_bits_of(bits, pos + 32, f.frame_seq as nat, 32);
    lemma_rd_bits_of(bits, pos + 64, f.block_size as nat, 16);
    lemma_rd_bits_of(bits, pos + 80, layout_code(l) as nat, 4);
    lemma_layout_code_roundtrip(l);
    vstd::arithmetic::div_mod::lemma_small_mod(0xF8A5, pow2(16));
    vstd::arithmetic::div_mod::lemma_small_mod(track as nat, pow2(16));
    vstd::arithmetic::div_mod::lemma_small_mod(f.frame_seq as nat, pow2(32));
    vstd::arithmetic::div_mod::lemma_small_mod(f.block_size as nat, pow2(16));
    vstd::arithmetic::div_mod::lemma_small_mod(layout_code(l) as nat, pow2(4));
    lemma_subs_loom_roundtrip(bits, pos + 84, f, bps, ae, f.subframes.len());
    assert(f.subframes.take(f.subframes.len() as int) =~= f.subframes);
}


/// The bytes of the UTF-8 style code: what their high bits say and what their low bits
/// hold.
proof fn lemma_utf8_byte_facts(y: u8)
    by (bit_vector)
    ensures
        y < 64 ==> (0x80u8 | y) & 0xC0u8 == 0x80u8 && (0x80u8 | y) & 0x3Fu8 == y,
        y < 32 ==> (0xC0u8 | y) & 0xE0u8 == 0xC0u8 && (0xC0u8 | y) & 0x1Fu8 == y,
        y < 16 ==> (0xE0u8 | y) & 0xE0u8 != 0xC0u8 && (0xE0u8 | y) & 0xF0u8 == 0xE0u8 && (0xE0u8 | y)
            & 0x0Fu8 == y,
        y < 8 ==> (0xF0u8 | y) & 0xE0u8 != 0xC0u8 && (0xF0u8 | y) & 0xF0u8 != 0xE0u8 && (0xF0u8 | y)
            & 0xF8u8 == 0xF0u8 && (0xF0u8 | y) & 0x07u8 == y,
        y < 4 ==> (0xF8u8 | y) & 0xE0u8 != 0xC0u8 && (0xF8u8 | y) & 0xF0u8 != 0xE0u8 && (0xF8u8 | y)
            & 0xF8u8 != 0xF0u8 && (0xF8u8 | y) & 0xFCu8 == 0xF8u8 && (0xF8u8 | y) & 0x03u8 == y,
        y < 2 ==> (0xFCu8 | y) & 0xE0u8 != 0xC0u8 && (0xFCu8 | y) & 0xF0u8 != 0xE0u8 && (0xFCu8 | y)
            & 0xF8u8 != 0xF0u8 && (0xFCu8 | y) & 0xFCu8 != 0xF8u8 && (0xFCu8 | y) & 0xFEu8 == 0xFCu8 && (
        0xFCu8 | y) & 0x01u8 == y,
        y == 0 ==> (0xFEu8 | y) == 0xFEu8 && 0xFEu8 & 0xE0u8 != 0xC0u8 && 0xFEu8 & 0xF0u8 != 0xE0u8
            && 0xFEu8 & 0xF8u8 != 0xF0u8 && 0xFEu8 & 0xFCu8 != 0xF8u8 && 0xFEu8 & 0xFEu8 != 0xFCu8,
        (0xC0u8 | y) >= 0x80u8 && (0xE0u8 | y) >= 0x80u8 && (0xF0u8 | y) >= 0x80u8 && (0xF8u8 | y)
            >= 0x80u8 && (0xFCu8 | y) >= 0x80u8 && (0xFEu8 | y) >= 0x80u8,
        ((0xFFu64 << 6u64) & 0xFFu64) as u8 == 0xC0u8,
        ((0xFFu64 << 5u64) & 0xFFu64) as u8 == 0xE0u8,
        ((0xFFu64 << 4u64) & 0xFFu64) as u8 == 0xF0u8,
        ((0xFFu64 << 3u64) & 0xFFu64) as u8 == 0xF8u8,
        ((0xFFu64 << 2u64) & 0xFFu64) as u8 == 0xFCu8,
        ((0xFFu64 << 1u64) & 0xFFu64) as u8 == 0xFEu8,
{
}

/// The byte spelled by the bits of byte `k` of a written byte string.
proof fn lemma_byte_at_written(bits: Seq<bool>, p: int, s: Seq<u8>, k: int)
    requires
        written_at(bits, p, bytes_to_bits(s)),
        0 <= k < s.len(),
    ensures
        byte_at(bits, p + 8 * k) == s[k],
{
    lemma_bytes_to_bits_len(s);
    lemma_bits_of_len(s[k] as nat, 8);
    assert(bits.subrange(p + 8 * k, p + 8 * k + 8) =~= bits_of(s[k] as nat, 8)) by {
        assert forall|j: int| 0 <= j < 8 implies #[trigger] bits.subrange(p + 8 * k, p + 8 * k + 8)[j]
            == bits_of(s[k] as nat, 8)[j] by {
            lemma_bytes_to_bits_index(s, k, j);
            assert(bits[p + 8 * k + j] == bytes_to_bits(s)[8 * k + j]);
        }
    }
    lemma_bits_val_of(s[k] as nat, 8);
    lemma2_to64();
}

/// `v >> (a + 6)` is `(v >> a) / 64`, and `v >> a` is that times 64 plus its low six bits.
proof fn lemma_shift_step(v: u64, a: nat)
    requires
        a + 6 < 64,
    ensures
        (v >> ((a + 6) as u64)) as nat * 64 + ((v >> (a as u64)) & 0x3Fu64) as nat == (v >> (a as u64)) as nat,
        (v >> ((a + 6) as u64)) as nat == (v >> (a as u64)) as nat / 64,
{
    let x = v >> (a as u64);
    vstd::bits::lemma_u64_shr_is_div(v, a as u64);
    vstd::bits::lemma_u64_shr_is_div(v, (a + 6) as u64);
    vstd::arithmetic::power2::lemma_pow2_adds(a, 6);
    vstd::arithmetic::power2::lemma_pow2_pos(a);
    lemma2_to64();
    vstd::arithmetic::div_mod::lemma_div_denominator(v as int, pow2(a) as int, 64);
    vstd::bits::lemma_u64_low_bits_mask_is_mod(x, 6);
    assert(vstd::bits::low_bits_mask(6) == 0x3F);
    vstd::arithmetic::div_mod::lemma_fundamental_div_mod(x as int, 64);
}

/// Reading the continuation bytes `k ..` of the code of `v` after the value so far gives `v`.
proof fn lemma_utf8_cont_roundtrip(bits: Seq<bool>, p: int, v: u64, len: nat, k: nat)
    requires
        2 <= len <= 7,
        1 <= k <= len,
        v < 0x10_0000_0000,
        forall|j: int| 0 <= j < len ==> #[trigger] byte_at(bits, p + 8 * j) == utf8_byte_spec(v, len, j),
        p + 8 * len <= bits.len(),
    ensures
        utf8_cont(bits, p + 8 * k, (len - k) as nat, v >> ((6 * (len - k)) as u64)) == Ok::<u64, LoomError>(v),
    decreases len - k,
{
    if k == len {
        vstd::bits::lemma_u64_shr_is_div(v, 0);
        lemma2_to64();
    } else {
        let a = (6 * (len - 1 - k)) as nat;
        let x = v >> (a as u64);
        let y = (x & 0x3Fu64) as u8;
        lemma_shift_step(v, a);
        assert(((x & 0x3Fu64) as nat) < 64) by {
            vstd::bits::lemma_u64_low_bits_mask_is_mod(x, 6);
            lemma2_to64();
            assert(vstd::bits::low_bits_mask(6) == 0x3F);
        }
        lemma_utf8_byte_facts(y);
        let b = byte_at(bits, p + 8 * k);
        assert(b == utf8_byte_spec(v, len, k as int));
        assert(b == 0x80u8 | y);
        assert(6 * (len - k) == a + 6);
        let val = v >> ((6 * (len - k)) as u64);
        assert((val * 64 + (b & 0x3Fu8)) as u64 == x);
        lemma_utf8_cont_roundtrip(bits, p, v, len, k + 1);
        assert(p + 8 * k + 8 == p + 8 * (k + 1));
    }
}

/// Reading the UTF-8 style code of a number below `2^36` gives the number and takes its
/// bytes.
pub proof fn lemma_utf8_roundtrip(bits: Seq<bool>, p: int, v: u64)
    requires
        v < 0x10_0000_0000,
        written_at(bits, p, bytes_to_bits(utf8_encode(v))),
    ensures
        utf8_read(bits, p) == Ok::<u64, LoomError>(v),
        utf8_read_len(bits, p) == bytes_to_bits(utf8_encode(v)).len(),
        bytes_to_bits(utf8_encode(v)).len() == 8 * utf8_len(v),
{
    let enc = utf8_encode(v);
    let len = utf8_len(v);
    lemma_bytes_to_bits_len(enc);
    lemma2_to64();
    lemma2_to64_rest();
    assert forall|j: int| 0 <= j < len implies #[trigger] byte_at(bits, p + 8 * j) == utf8_byte_spec(v, len, j) by {
        lemma_byte_at_written(bits, p, enc, j);
    }
    assert(byte_at(bits, p + 8 * 0) == utf8_byte_spec(v, len, 0));
    assert(p + 8 * 0 == p);
    let first = byte_at(bits, p);
    if len == 1 {
        assert(first == v as u8);
        assert(first < 0x80);
        assert(first as u64 == v);
    } else {
        let a = (6 * (len - 1)) as nat;
        let top = v >> (a as u64);
        vstd::bits::lemma_u64_shr_is_div(v, a as u64);
        lemma_utf8_byte_facts(top as u8);
        let vn = v as nat;
        if len == 2 {
            assert(vn / 64 < 32) by (nonlinear_arith)
                requires
                    vn < 0x800,
            ;
        } else if len == 3 {
            assert(vn / 0x1000 < 16) by (nonlinear_arith)
                requires
                    vn < 0x10000,
            ;
        } else if len == 4 {
            assert(vn / 0x40000 < 8) by (nonlinear_arith)
                requires
                    vn < 0x200000,
            ;
        } else if len == 5 {
            assert(vn / 0x1000000 < 4) by (nonlinear_arith)
                requires
                    vn < 0x4000000,
            ;
        } else if len == 6 {
            assert(vn / 0x40000000 < 2) by (nonlinear_arith)
                requires
                    vn < 0x80000000,
            ;
        } else {
            assert(vn / 0x10_0000_0000 == 0) by (nonlinear_arith)
                requires
                    vn < 0x10_0000_0000,
            ;
        }
        assert(first == (((0xFFu64 << ((8 - len) as u64)) & 0xFFu64) as u8) | (top as u8));
        assert(first >= 0x80);
        assert(utf8_extra_spec(first) == len - 1);
        assert(utf8_payload_spec(first) == top);
        lemma_utf8_cont_roundtrip(bits, p, v, len, 1);
    }
}

/// A prediction that reads back from a FLAC subframe of `sbps`-bit samples in blocks of
/// `bs`: as for Loom, with a fixed order below 8, an LPC order from 1 to 32, a precision
/// from 1 to 16 bits and a shift from -16 to 15.
pub open spec fn flac_mode_readable(m: ModeSpec, sbps: nat, bs: nat, ae: bool) -> bool {
    &&& 1 <= sbps <= 63
    &&& match m {
        ModeSpec::Constant(v) => min_bits_spec(v as int) <= sbps,
        ModeSpec::Verbatim(s) => s.len() == bs && all_fit(s, sbps),
        ModeSpec::Fixed(o, r) => o < 8 && o <= bs && r.len() == bs && all_fit(r.take(o as int), sbps)
            && rice_lossless(r, o, 2, ae),
        ModeSpec::Lpc(o, c, sh, p, r) => 1 <= o <= 32 && 1 <= p <= 16 && -16 <= sh <= 15 && c.len()
            == o && (forall|j: int| 0 <= j < c.len() ==> min_bits_spec(#[trigger] c[j] as int) <= p)
            && o <= bs && r.len() == bs && all_fit(r.take(o as int), sbps) && rice_lossless(r, o, 2, ae),
    }
}

/// Rice residuals read onto warm-up samples already in place give the residuals.
proof fn lemma_rice_onto_warmup(bits: Seq<bool>, pos: int, r: Seq<i64>, o: nat, ae: bool)
    requires
        o <= r.len(),
        rice_lossless(r, o, 2, ae),
        written_at(bits, pos, rice_stream(r, o, 2, ae)),
    ensures
        rice_decode(bits, pos, splice(zero_block(r.len()), r, 0, o as int), o) == Ok::<
            (Seq<i64>, int),
            LoomError,
        >((r, pos + rice_stream(r, o, 2, ae).len())),
{
    let out1 = splice(zero_block(r.len()), r, 0, o as int);
    lemma_rice_roundtrip(bits, pos, out1, r, o, 2, ae);
    let sk = rice_skip(r.len(), o, 2) as int;
    assert(splice(out1, r, sk, r.len() as int) =~= r);
}

/// The fields of a FLAC LPC subframe.
pub open spec fn lpc_fields_flac(o: nat, c: Seq<i32>, sh: i8, p: nat, r: Seq<i64>, sbps: nat, ae: bool) -> Seq<bool> {
    raw_codes(r.take(o as int), sbps) + (bits_of((p - 1) as nat, 4) + (bits_of(sh as u64 as nat, 5) + (
    coeff_codes(c, p) + rice_stream(r, o, 2, ae))))
}

/// A FLAC LPC subframe's prediction bits are its fields.
proof fn lemma_lpc_flac_shape(o: nat, c: Seq<i32>, sh: i8, p: nat, r: Seq<i64>, sbps: nat, ae: bool)
    ensures
        flac_mode_bits(ModeSpec::Lpc(o, c, sh, p, r), sbps, ae) == lpc_fields_flac(o, c, sh, p, r, sbps, ae),
{
    assert(flac_mode_bits(ModeSpec::Lpc(o, c, sh, p, r), sbps, ae) =~= lpc_fields_flac(
        o,
        c,
        sh,
        p,
        r,
        sbps,
        ae,
    ));
}

/// A FLAC LPC subframe's fields read back as they were written.
#[verifier::rlimit(60)]
#[verifier::spinoff_prover]
proof fn lemma_lpc_flac_roundtrip(
    bits: Seq<bool>,
    pos: int,
    o: nat,
    c: Seq<i32>,
    sh: i8,
    p: nat,
    r: Seq<i64>,
    sbps: nat,
    ae: bool,
)
    requires
        flac_mode_readable(ModeSpec::Lpc(o, c, sh, p, r), sbps, r.len(), ae),
        written_at(bits, pos, lpc_fields_flac(o, c, sh, p, r, sbps, ae)),
    ensures
        parse_lpc_flac(bits, pos, o, sbps, r.len()) == Ok::<(ModeSpec, int), LoomError>(
            (ModeSpec::Lpc(o, c, sh, p, r), pos + lpc_fields_flac(o, c, sh, p, r, sbps, ae).len()),
        ),
{
    lemma2_to64();
    let bs = r.len();
    let w = raw_codes(r.take(o as int), sbps);
    let b1 = bits_of((p - 1) as nat, 4);
    let b2 = bits_of(sh as u64 as nat, 5);
    let cc = coeff_codes(c, p);
    let rs = rice_stream(r, o, 2, ae);
    lemma_bits_of_len((p - 1) as nat, 4);
    lemma_bits_of_len(sh as u64 as nat, 5);
    lemma_written_split(bits, pos, w, b1 + (b2 + (cc + rs)));
    let q1 = pos + w.len();
    lemma_written_split(bits, q1, b1, b2 + (cc + rs));
    lemma_written_split(bits, q1 + 4, b2, cc + rs);
    lemma_written_split(bits, q1 + 9, cc, rs);
    assert(r.subrange(0, o as int) =~= r.take(o as int));
    assert forall|j: int| 0 <= j < o implies min_bits_spec(#[trigger] r[j] as int) <= sbps by {
        assert(r.take(o as int)[j] == r[j]);
    }
    lemma_dec_raw(bits, pos, zero_block(bs), r, 0, o as int, sbps);
    lemma_rd_bits_of(bits, q1, (p - 1) as nat, 4);
    lemma_rd_bits_of(bits, q1 + 4, sh as u64 as nat, 5);
    vstd::arithmetic::div_mod::lemma_small_mod((p - 1) as nat, pow2(4));
    lemma_i8_byte(sh);
    assert(shift5((sh as u64 as nat) % pow2(5)) == sh);
    lemma_coeffs_roundtrip(bits, q1 + 9, c, p);
    lemma_rice_onto_warmup(bits, q1 + 9 + cc.len(), r, o, ae);
}

/// A FLAC prediction reads back as it was written, given its subframe type.
#[verifier::rlimit(60)]
#[verifier::spinoff_prover]
pub proof fn lemma_mode_flac_roundtrip(bits: Seq<bool>, pos: int, m: ModeSpec, sbps: nat, bs: nat, ae: bool)
    requires
        flac_mode_readable(m, sbps, bs, ae),
        written_at(bits, pos, flac_mode_bits(m, sbps, ae)),
    ensures
        parse_mode_flac(bits, pos, flac_mode_code(m), sbps, bs) == Ok::<(ModeSpec, int), LoomError>(
            (m, pos + flac_mode_bits(m, sbps, ae).len()),
        ),
{
    match m {
        ModeSpec::Constant(v) => {
            lemma_bits_of_len(v as u64 as nat, sbps);
            lemma_const_roundtrip(bits, pos, v, sbps);
        },
        ModeSpec::Verbatim(s) => {
            lemma_verbatim_roundtrip(bits, pos, s, sbps);
        },
        ModeSpec::Fixed(o, r) => {
            vstd::arithmetic::div_mod::lemma_small_mod(o, 8);
            lemma_residuals_roundtrip(bits, pos, r, o, sbps, ae);
        },
        ModeSpec::Lpc(o, c, sh, p, r) => {
            vstd::arithmetic::div_mod::lemma_small_mod((o - 1) as nat, 32);
            lemma_lpc_flac_shape(o, c, sh, p, r, sbps, ae);
            lemma_lpc_flac_roundtrip(bits, pos, o, c, sh, p, r, sbps, ae);
        },
    }
}

/// A FLAC subframe that reads back as channel `ch` of layout `l`: no reference track,
/// wasted bits below 32, and a readable prediction.
pub open spec fn flac_sub_readable(sf: SubframeSpec, l: crate::container::frame::ChannelLayout, ch: nat, bps: nat, bs: nat, ae: bool) -> bool {
    &&& sf.ref_track is None
    &&& sf.ref_weight == 0
    &&& sf.wasted_bits < 32
    &&& flac_mode_readable(sf.mode, sub_bps(l, ch, bps, sf.wasted_bits), bs, ae)
}

/// The wasted bits of a FLAC subframe read back as written.
proof fn lemma_wasted_flac_roundtrip(bits: Seq<bool>, pos: int, w: u8)
    requires
        w < 32,
        written_at(
            bits,
            pos,
            if w > 0 {
                seq![true] + unary_bits((w - 1) as nat)
            } else {
                seq![false]
            },
        ),
    ensures
        parse_wasted_flac(bits, pos) == Ok::<(u8, int), LoomError>(
            (
                w,
                pos + (if w > 0 {
                    seq![true] + unary_bits((w - 1) as nat)
                } else {
                    seq![false]
                }).len(),
            ),
        ),
{
    if w > 0 {
        let a = seq![true];
        let b = unary_bits((w - 1) as nat);
        lemma_unary_len((w - 1) as nat);
        lemma_written_split(bits, pos, a, b);
        assert(bits[pos] == a[0]);
        lemma_zero_run_unary(bits, pos + 1, (w - 1) as nat);
    } else {
        assert(bits[pos] == seq![false][0]);
    }
}

/// One channel of a FLAC frame reads back as it was written.
#[verifier::rlimit(60)]
#[verifier::spinoff_prover]
pub proof fn lemma_sub_flac_roundtrip(
    bits: Seq<bool>,
    pos: int,
    sf: SubframeSpec,
    l: crate::container::frame::ChannelLayout,
    ch: nat,
    bps: nat,
    bs: nat,
    ae: bool,
)
    requires
        flac_sub_readable(sf, l, ch, bps, bs, ae),
        written_at(bits, pos, flac_sub_bits(sf, l, ch, bps, ae)),
    ensures
        parse_sub_flac(bits, pos, l, ch, bps, bs) == Ok::<(SubframeSpec, int), LoomError>(
            (sf, pos + flac_sub_bits(sf, l, ch, bps, ae).len()),
        ),
{
    lemma2_to64();
    let a = seq![false];
    let code = flac_mode_code(sf.mode);
    let b = bits_of(code, 6);
    let wb = if sf.wasted_bits > 0 {
        seq![true] + unary_bits((sf.wasted_bits - 1) as nat)
    } else {
        seq![false]
    };
    let sbps = sub_bps(l, ch, bps, sf.wasted_bits);
    let mb = flac_mode_bits(sf.mode, sbps, ae);
    assert(flac_sub_bits(sf, l, ch, bps, ae) =~= a + (b + (wb + mb)));
    lemma_bits_of_len(code, 6);
    lemma_written_split(bits, pos, a, b + (wb + mb));
    lemma_written_split(bits, pos + 1, b, wb + mb);
    lemma_written_split(bits, pos + 7, wb, mb);
    lemma_rd_bits_of(bits, pos + 1, code, 6);
    assert(code < 64);
    vstd::arithmetic::div_mod::lemma_small_mod(code, pow2(6));
    lemma_wasted_flac_roundtrip(bits, pos + 7, sf.wasted_bits);
    lemma_mode_flac_roundtrip(bits, pos + 7 + wb.len(), sf.mode, sbps, bs, ae);
}

/// A FLAC frame that reads back: a block size from 1 to 65536, a first sample number
/// below `2^36`, one subframe per channel of its layout, each readable.
pub open spec fn flac_frame_readable(f: FrameSpec, sample_number: u64, bps: nat, ae: bool) -> bool {
    &&& 1 <= f.block_size <= 0x10000
    &&& sample_number < 0x10_0000_0000
    &&& f.subframes.len() == layout_channels(f.channel_layout)
    &&& forall|ch: int|
        0 <= ch < f.subframes.len() ==> flac_sub_readable(
            #[trigger] f.subframes[ch],
            f.channel_layout,
            ch as nat,
            bps,
            f.block_size as nat,
            ae,
        )
}

/// Reading one more FLAC channel after the first `n`.
proof fn lemma_parse_subs_flac_last(
    bits: Seq<bool>,
    pos: int,
    l: crate::container::frame::ChannelLayout,
    bps: nat,
    bs: nat,
    ch: nat,
    n: nat,
    acc: Seq<SubframeSpec>,
)
    requires
        ch <= n,
    ensures
        parse_subs_flac(bits, pos, l, bps, bs, ch, n + 1, acc) == match parse_subs_flac(
            bits,
            pos,
            l,
            bps,
            bs,
            ch,
            n,
            acc,
        ) {
            Err(e) => Err(e),
            Ok((a, p)) => match parse_sub_flac(bits, p, l, n, bps, bs) {
                Err(e) => Err(e),
                Ok((sf, q)) => Ok((a.push(sf), q)),
            },
        },
    decreases n - ch,
{
    reveal_with_fuel(parse_subs_flac, 2);
    if ch < n {
        match parse_sub_flac(bits, pos, l, ch, bps, bs) {
            Err(e) => {},
            Ok((sf, p)) => {
                lemma_parse_subs_flac_last(bits, p, l, bps, bs, ch + 1, n, acc.push(sf));
            },
        }
    }
}

/// The first `m` channels of a FLAC frame read back as they were written.
#[verifier::rlimit(60)]
#[verifier::spinoff_prover]
proof fn lemma_subs_flac_roundtrip(bits: Seq<bool>, pos: int, f: FrameSpec, sn: u64, bps: nat, ae: bool, m: nat)
    requires
        m <= f.subframes.len(),
        flac_frame_readable(f, sn, bps, ae),
        written_at(bits, pos, flac_subs_bits(f, bps, ae, m)),
    ensures
        parse_subs_flac(bits, pos, f.channel_layout, bps, f.block_size as nat, 0, m, seq![]) == Ok::<
            (Seq<SubframeSpec>, int),
            LoomError,
        >((f.subframes.take(m as int), pos + flac_subs_bits(f, bps, ae, m).len())),
    decreases m,
{
    if m == 0 {
        assert(f.subframes.take(0) =~= seq![]);
    } else {
        let k = (m - 1) as nat;
        let head = flac_subs_bits(f, bps, ae, k);
        let sf = f.subframes[k as int];
        let tail = flac_sub_bits(sf, f.channel_layout, k, bps, ae);
        lemma_written_split(bits, pos, head, tail);
        lemma_subs_flac_roundtrip(bits, pos, f, sn, bps, ae, k);
        lemma_parse_subs_flac_last(bits, pos, f.channel_layout, bps, f.block_size as nat, 0, k, seq![]);
        assert(flac_sub_readable(sf, f.channel_layout, k, bps, f.block_size as nat, ae));
        lemma_sub_flac_roundtrip(bits, pos + head.len(), sf, f.channel_layout, k, bps, f.block_size as nat, ae);
        assert(f.subframes.take(k as int).push(sf) =~= f.subframes.take(m as int));
    }
}

/// A FLAC frame header reads back as the frame's first sample number (in the place of
/// the frame number), block size and layout, and its CRC-8 is passed over.
#[verifier::rlimit(80)]
#[verifier::spinoff_prover]
pub proof fn lemma_header_flac_roundtrip(bits: Seq<bool>, pos: int, f: FrameSpec, sn: u64, crc: nat)
    requires
        1 <= f.block_size <= 0x10000,
        sn < 0x10_0000_0000,
        written_at(bits, pos, flac_header_bits(f, sn) + bits_of(crc, 8)),
    ensures
        parse_header_flac(bits, pos) == Ok::<(FlacHeader, int), LoomError>(
            (
                FlacHeader { frame_seq: sn as u32, block_size: f.block_size, layout: f.channel_layout },
                pos + flac_header_bits(f, sn).len() + 8,
            ),
        ),
{
    lemma2_to64();
    lemma2_to64_rest();
    let l = f.channel_layout;
    let a = bits_of(0x3FFE, 14);
    let b = seq![false, true];
    let c = bits_of(7, 4);
    let d = bits_of(0, 4);
    let e = bits_of(layout_code(l) as nat, 4);
    let g = bits_of(0, 3) + seq![false];
    let u = bytes_to_bits(utf8_encode(sn));
    let z = bits_of((f.block_size - 1) as nat, 16);
    let k = bits_of(crc, 8);
    assert(flac_header_bits(f, sn) + k =~= a + (b + (c + (d + (e + (g + (u + (z + k))))))));
    lemma_bits_of_len(0x3FFE, 14);
    lemma_bits_of_len(7, 4);
    lemma_bits_of_len(0, 4);
    lemma_bits_of_len(layout_code(l) as nat, 4);
    lemma_bits_of_len(0, 3);
    lemma_bits_of_len((f.block_size - 1) as nat, 16);
    lemma_bits_of_len(crc, 8);
    lemma_bytes_to_bits_len(utf8_encode(sn));
    lemma_written_split(bits, pos, a, b + (c + (d + (e + (g + (u + (z + k)))))));
    lemma_written_split(bits, pos + 14, b, c + (d + (e + (g + (u + (z + k))))));
    lemma_written_split(bits, pos + 16, c, d + (e + (g + (u + (z + k)))));
    lemma_written_split(bits, pos + 20, d, e + (g + (u + (z + k))));
    lemma_written_split(bits, pos + 24, e, g + (u + (z + k)));
    lemma_written_split(bits, pos + 28, g, u + (z + k));
    lemma_written_split(bits, pos + 32, u, z + k);
    let q = pos + 32 + u.len();
    lemma_written_split(bits, q, z, k);
    lemma_rd_bits_of(bits, pos, 0x3FFE, 14);
    lemma_rd_bits_of(bits, pos + 16, 7, 4);
    lemma_rd_bits_of(bits, pos + 24, layout_code(l) as nat, 4);
    lemma_utf8_roundtrip(bits, pos + 32, sn);
    lemma_rd_bits_of(bits, q, (f.block_size - 1) as nat, 16);
    lemma_layout_code_roundtrip(l);
    vstd::arithmetic::div_mod::lemma_small_mod(0x3FFE, pow2(14));
    vstd::arithmetic::div_mod::lemma_small_mod(7, pow2(4));
    vstd::arithmetic::div_mod::lemma_small_mod(layout_code(l) as nat, pow2(4));
    vstd::arithmetic::div_mod::lemma_small_mod((f.block_size - 1) as nat, pow2(16));
    assert(pos + 14 + 2 == pos + 16);
    assert(rd(bits, pos + 14, 2) is Ok);
    assert(rd(bits, pos + 20, 4) is Ok);
    assert(rd(bits, pos + 28, 4) is Ok);
    assert(rd(bits, q + 16, 8) is Ok);
}

/// Reading a written FLAC frame, after which its padding and 16-bit CRC stand, gives back
/// the frame with its first sample number in the place of the frame number, and the
/// position after the CRC.
#[verifier::rlimit(60)]
#[verifier::spinoff_prover]
pub proof fn lemma_flac_frame_roundtrip(bits: Seq<bool>, pos: int, f: FrameSpec, sn: u64, bps: nat, ae: bool)
    requires
        flac_frame_readable(f, sn, bps, ae),
        written_at(bits, pos, flac_frame_bits(f, sn, bps, ae)),
        align8(pos + flac_frame_bits(f, sn, bps, ae).len()) + 16 <= bits.len(),
    ensures
        parse_frame_flac(bits, pos, bps) == Ok::<(FrameSpec, int), LoomError>(
            (
                FrameSpec { frame_seq: sn as u32, ..f },
                align8(pos + flac_frame_bits(f, sn, bps, ae).len()) + 16,
            ),
        ),
{
    let h = flac_header_bits(f, sn);
    let k = bits_of(crate::crc::crc8_spec(crate::bitstream::bits_to_bytes(h)) as nat, 8);
    let g = flac_subs_bits(f, bps, ae, f.subframes.len());
    assert(flac_frame_bits(f, sn, bps, ae) == h + k + g);
    lemma_bits_of_len(crate::crc::crc8_spec(crate::bitstream::bits_to_bytes(h)) as nat, 8);
    lemma_written_split(bits, pos, h + k, g);
    lemma_header_flac_roundtrip(bits, pos, f, sn, crate::crc::crc8_spec(crate::bitstream::bits_to_bytes(h)) as nat);
    lemma_subs_flac_roundtrip(bits, pos + h.len() + 8, f, sn, bps, ae, f.subframes.len());
    assert(f.subframes.take(f.subframes.len() as int) =~= f.subframes);
}

/// The bytes of a framed bit string: the bits stand at their start, they end at the next
/// byte boundary two bytes before the end, and the CRC-16 after them matches.
pub proof fn lemma_framed_bytes(r: Seq<u8>, bits: Seq<bool>)
    requires
        framed(r, bits),
    ensures
        written_at(bytes_to_bits(r), 0, bits),
        bytes_to_bits(r).len() == 8 * r.len(),
        align8(bits.len() as int) + 16 == 8 * r.len(),
        crc_tail_ok(r),
{
    let n = r.len();
    let head = r.take(n - 2);
    let tail = r.skip(n - 2);
    assert(head + tail =~= r);
    lemma_bytes_to_bits_append(head, tail);
    lemma_bytes_to_bits_len(head);
    lemma_bytes_to_bits_len(tail);
    lemma_bytes_to_bits_len(r);
    let pad = zeros(pad_len(bits.len() % 8));
    assert(bytes_to_bits(r).subrange(0, bits.len() as int) =~= bits) by {
        assert(bytes_to_bits(head) == bits + pad);
        assert forall|i: int| 0 <= i < bits.len() implies #[trigger] bytes_to_bits(r).subrange(
            0,
            bits.len() as int,
        )[i] == bits[i] by {
            assert(bytes_to_bits(r)[i] == bytes_to_bits(head)[i]);
            assert((bits + pad)[i] == bits[i]);
        }
    }
    assert(8 * (n - 2) == bits.len() + pad_len(bits.len() % 8));
    assert(align8(bits.len() as int) == bits.len() + pad_len(bits.len() % 8));
    let c = crate::crc::crc16_spec(head);
    lemma2_to64();
    vstd::bits::lemma_u16_shr_is_div(c, 8);
    vstd::bits::lemma_u16_low_bits_mask_is_mod(c, 8);
    assert(vstd::bits::low_bits_mask(8) == 0xFF);
    vstd::arithmetic::div_mod::lemma_fundamental_div_mod(c as int, 256);
    assert(r.subrange(0, n as int) =~= r);
}

/// Reading the bytes of a written Loom frame: they end with a matching CRC-16, and read
/// as bits they give back the frame, its track, and the position two bytes before their
/// end.
pub proof fn lemma_loom_frame_bytes_roundtrip(r: Seq<u8>, f: FrameSpec, track: u16, bps: nat, ae: bool)
    requires
        loom_frame_readable(f, bps, ae),
        framed(r, loom_frame_bits(f, track, bps, ae)),
    ensures
        crc_tail_ok(r),
        8 * r.len() >= 100,
        parse_frame_loom(bytes_to_bits(r), 0, bps) == Ok::<(FrameSpec, u16, int), LoomError>(
            (f, track, 8 * r.len() - 16),
        ),
{
    let bits = loom_frame_bits(f, track, bps, ae);
    lemma_framed_bytes(r, bits);
    lemma_bits_of_len(0xF8A5, 16);
    lemma_bits_of_len(track as nat, 16);
    lemma_bits_of_len(f.frame_seq as nat, 32);
    lemma_bits_of_len(f.block_size as nat, 16);
    lemma_bits_of_len(layout_code(f.channel_layout) as nat, 4);
    assert(bits.len() >= 84);
    lemma_loom_frame_roundtrip(bytes_to_bits(r), 0, f, track, bps, ae);
}

/// Reading the bytes of a written FLAC frame gives back the frame with its first sample
/// number in the place of the frame number, and the position at their end; they end with
/// a matching CRC-16.
pub proof fn lemma_flac_frame_bytes_roundtrip(r: Seq<u8>, f: FrameSpec, sn: u64, bps: nat, ae: bool)
    requires
        flac_frame_readable(f, sn, bps, ae),
        framed(r, flac_frame_bits(f, sn, bps, ae)),
    ensures
        crc_tail_ok(r),
        parse_frame_flac(bytes_to_bits(r), 0, bps) == Ok::<(FrameSpec, int), LoomError>(
            (FrameSpec { frame_seq: sn as u32, ..f }, 8 * r.len() as int),
        ),
{
    let bits = flac_frame_bits(f, sn, bps, ae);
    lemma_framed_bytes(r, bits);
    lemma_flac_frame_roundtrip(bytes_to_bits(r), 0, f, sn, bps, ae);
}
} // verus!
